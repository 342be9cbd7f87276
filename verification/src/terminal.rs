//! The settings of a terminal in raw mode, and the watch for the escape key.
use vstd::prelude::*;

use crate::input::ESC;

verus! {

/// The settings of a terminal that raw mode touches.
#[derive(Debug, Clone, Copy)]
pub struct TermFlags {
    /// The input modes.
    pub input: u64,
    /// The output modes.
    pub output: u64,
    /// The control modes.
    pub control: u64,
    /// The local modes.
    pub local: u64,
    /// The least number of bytes of a read.
    pub vmin: u8,
    /// The time that a read waits.
    pub vtime: u8,
}

/// The bits of the modes, as the system defines them, each under its POSIX name.
#[derive(Debug, Clone, Copy)]
pub struct TermBits {
    pub ignbrk: u64,
    pub brkint: u64,
    pub parmrk: u64,
    pub istrip: u64,
    pub inlcr: u64,
    pub igncr: u64,
    pub icrnl: u64,
    pub ixon: u64,
    pub opost: u64,
    pub echo: u64,
    pub echonl: u64,
    pub icanon: u64,
    pub isig: u64,
    pub iexten: u64,
    pub csize: u64,
    pub parenb: u64,
    pub cs8: u64,
}

/// The settings for raw input. Output processing stays as it is, so that a line feed still starts
/// a line.
pub open spec fn raw_input(old: TermFlags, bits: TermBits) -> TermFlags {
    TermFlags {
        input: old.input & !(bits.ignbrk | bits.brkint | bits.parmrk | bits.istrip | bits.inlcr
            | bits.igncr | bits.icrnl | bits.ixon),
        output: old.output,
        control: (old.control & !(bits.csize | bits.parenb)) | bits.cs8,
        local: old.local & !(bits.echo | bits.echonl | bits.icanon | bits.isig | bits.iexten),
        vmin: 1,
        vtime: 0,
    }
}

/// The settings for raw input and raw output.
pub open spec fn raw(old: TermFlags, bits: TermBits) -> TermFlags {
    TermFlags { output: old.output & !bits.opost, ..raw_input(old, bits) }
}

/// The settings for raw input and raw output.
pub fn enable(old: TermFlags, bits: &TermBits) -> (flags: TermFlags)
    ensures
        flags == raw(old, *bits),
{
    let mut flags = enable_input_only(old, bits);
    flags.output = old.output & !bits.opost;
    flags
}

/// The settings for raw input, with output processing as it is.
pub fn enable_input_only(old: TermFlags, bits: &TermBits) -> (flags: TermFlags)
    ensures
        flags == raw_input(old, *bits),
{
    let mut flags = old;
    flags.input = old.input & !(bits.ignbrk | bits.brkint | bits.parmrk | bits.istrip | bits.inlcr
        | bits.igncr | bits.icrnl | bits.ixon);
    flags.local = old.local & !(bits.echo | bits.echonl | bits.icanon | bits.isig | bits.iexten);
    flags.control = (old.control & !(bits.csize | bits.parenb)) | bits.cs8;
    flags.vmin = 1;
    flags.vtime = 0;
    flags
}

/// Raw mode clears every input and local mode that would change or show a typed byte, wait for the
/// end of a line or make a signal of a key, and sends output as it is. Characters have the size that
/// `cs8` sets, without parity unless `cs8` holds its bit, and a read waits for one byte, however long
/// it takes. With raw input alone the output modes are untouched, and all else is the same.
pub proof fn law_raw_mode(old: TermFlags, bits: TermBits)
    ensures
        raw(old, bits).input & (bits.ignbrk | bits.brkint | bits.parmrk | bits.istrip | bits.inlcr
            | bits.igncr | bits.icrnl | bits.ixon) == 0,
        raw(old, bits).local & (bits.echo | bits.echonl | bits.icanon | bits.isig | bits.iexten)
            == 0,
        raw(old, bits).output & bits.opost == 0,
        raw(old, bits).control & (bits.csize | bits.parenb) == bits.cs8 & (bits.csize
            | bits.parenb),
        raw(old, bits).control & bits.cs8 == bits.cs8,
        raw(old, bits).vmin == 1,
        raw(old, bits).vtime == 0,
        raw_input(old, bits) == (TermFlags { output: old.output, ..raw(old, bits) }),
{
    let TermFlags { input: i, output: o, control: c, local: l, .. } = old;
    let TermBits { opost, cs8, .. } = bits;
    let im = bits.ignbrk | bits.brkint | bits.parmrk | bits.istrip | bits.inlcr | bits.igncr
        | bits.icrnl | bits.ixon;
    let lm = bits.echo | bits.echonl | bits.icanon | bits.isig | bits.iexten;
    let cm = bits.csize | bits.parenb;
    assert((i & !im) & im == 0) by (bit_vector);
    assert((l & !lm) & lm == 0) by (bit_vector);
    assert((o & !opost) & opost == 0) by (bit_vector);
    assert(((c & !cm) | cs8) & cm == cs8 & cm) by (bit_vector);
    assert(((c & !cm) | cs8) & cs8 == cs8) by (bit_vector);
}

/// What the watch for the escape key does next.
#[derive(Debug, Clone, Copy, PartialEq, Eq, Structural)]
pub enum Watch {
    /// It goes on.
    Keep,
    /// It ends, and the reply is to be interrupted.
    Interrupt,
    /// It ends.
    Stop,
}

/// What the watch for the escape key does once its wait is over: `ready` tells whether anything
/// came, `stop` whether it is told to end, and `key` which byte was read, if any.
pub fn watch(ready: bool, stop: bool, key: Option<u8>) -> (w: Watch)
    ensures
        w == Watch::Stop <==> !ready || stop,
        w == Watch::Interrupt <==> ready && !stop && key == Some(ESC),
{
    if !ready || stop {
        return Watch::Stop;
    }
    match key {
        Some(b) => {
            if b == ESC {
                Watch::Interrupt
            } else {
                Watch::Keep
            }
        },
        None => Watch::Keep,
    }
}

/// Raw mode leaves alone every bit that it does not speak of.
pub proof fn law_raw_mode_keeps_other_bits(old: TermFlags, bits: TermBits)
    ensures
        ({
            let im = bits.ignbrk | bits.brkint | bits.parmrk | bits.istrip | bits.inlcr | bits.igncr
                | bits.icrnl | bits.ixon;
            let lm = bits.echo | bits.echonl | bits.icanon | bits.isig | bits.iexten;
            let cm = bits.csize | bits.parenb | bits.cs8;
            let r = raw(old, bits);
            &&& r.input & !im == old.input & !im
            &&& r.local & !lm == old.local & !lm
            &&& r.output & !bits.opost == old.output & !bits.opost
            &&& r.control & !cm == old.control & !cm
        }),
{
    let TermFlags { input: i, output: o, control: c, local: l, .. } = old;
    let TermBits { opost, csize, parenb, cs8, .. } = bits;
    let im = bits.ignbrk | bits.brkint | bits.parmrk | bits.istrip | bits.inlcr | bits.igncr
        | bits.icrnl | bits.ixon;
    let lm = bits.echo | bits.echonl | bits.icanon | bits.isig | bits.iexten;
    assert((i & !im) & !im == i & !im) by (bit_vector);
    assert((l & !lm) & !lm == l & !lm) by (bit_vector);
    assert((o & !opost) & !opost == o & !opost) by (bit_vector);
    assert(((c & !(csize | parenb)) | cs8) & !(csize | parenb | cs8) == c & !(csize | parenb | cs8))
        by (bit_vector);
}

} // verus!
