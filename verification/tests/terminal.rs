use llmcli::terminal::{enable, enable_input_only, watch, TermBits, TermFlags, Watch};

fn bits() -> TermBits {
    TermBits {
        ignbrk: 0o1,
        brkint: 0o2,
        parmrk: 0o10,
        istrip: 0o40,
        inlcr: 0o100,
        igncr: 0o200,
        icrnl: 0o400,
        ixon: 0o2000,
        opost: 0o1,
        echo: 0o10,
        echonl: 0o100,
        icanon: 0o2,
        isig: 0o1,
        iexten: 0o100000,
        csize: 0o60,
        parenb: 0o400,
        cs8: 0o60,
    }
}

fn cooked() -> TermFlags {
    TermFlags { input: 0o66502, output: 0o5, control: 0o2277, local: 0o105073, vmin: 7, vtime: 9 }
}

#[test]
fn raw_mode_sets_and_clears_its_bits() {
    let f = enable(cooked(), &bits());
    assert_eq!(f.input, 0o64000);
    assert_eq!(f.output, 0o4);
    assert_eq!(f.control, 0o2277);
    assert_eq!(f.local, 0o5060);
    assert_eq!((f.vmin, f.vtime), (1, 0));
    let odd = TermFlags { control: 0o400, ..cooked() };
    assert_eq!(enable(odd, &bits()).control, 0o60);
}

#[test]
fn raw_input_keeps_the_output_modes() {
    let f = enable_input_only(cooked(), &bits());
    let g = enable(cooked(), &bits());
    assert_eq!(f.output, cooked().output);
    assert_eq!((f.input, f.control, f.local), (g.input, g.control, g.local));
}

#[test]
fn the_watch_ends_on_escape_or_when_told() {
    assert_eq!(watch(true, false, Some(0x1b)), Watch::Interrupt);
    assert_eq!(watch(true, false, Some(b'x')), Watch::Keep);
    assert_eq!(watch(true, false, None), Watch::Keep);
    assert_eq!(watch(true, true, Some(0x1b)), Watch::Stop);
    assert_eq!(watch(false, false, Some(0x1b)), Watch::Stop);
}
