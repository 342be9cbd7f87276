//! The command line, and the choice of a model at the start.
use vstd::prelude::*;

use crate::input::{LineResult, LineResultView};
use crate::session;
use crate::text;

verus! {

broadcast use vstd::string::group_string_axioms;

/// What `--help` prints.
pub const USAGE: &'static str = "Usage:\n  \
    llmcli [OPTIONS] [MODEL]\n\n\
    Arguments:\n  \
    MODEL           Model name (e.g. gemma4:e4b, qwen3:14b)\n                  \
    Omit to list available models and choose interactively.\n\n\
    Options:\n  \
    --think         Start with think mode enabled\n  \
    -h, --help      Show this help and exit\n\n\
    Slash commands (inside the chat):\n  \
    /help           List all commands\n  \
    /info           Show model capabilities\n  \
    /model <n>      Switch model\n  \
    /think          Enable think mode\n  \
    /nothink        Disable think mode (default)\n  \
    /image <path>   Attach image (multimodal models)\n  \
    /audio <path>   Attach audio (audio-capable models)\n  \
    /file  <path>   Attach text file (all models)\n  \
    /clear          Clear conversation history\n  \
    /exit           Unload model and quit\n";

// ── Arguments ────────────────────────────────────────────────────────────────

/// What the command line asks for.
pub struct Args {
    /// The model, where one is named.
    pub model: Option<String>,
    /// Whether the session starts with thinking on.
    pub think: bool,
}

/// What a command line comes to.
pub enum Invocation {
    /// Print the usage.
    Help,
    /// Start a session.
    Run(Args),
    /// The line holds an option that there is not.
    UnknownOption(String),
}

/// What an `Invocation` holds.
pub enum InvocationView {
    Help,
    Run(Option<Seq<char>>, bool),
    UnknownOption(Seq<char>),
}

impl View for Invocation {
    type V = InvocationView;

    open spec fn view(&self) -> InvocationView {
        match self {
            Invocation::Help => InvocationView::Help,
            Invocation::Run(args) => InvocationView::Run(
                text::optional_text(args.model),
                args.think,
            ),
            Invocation::UnknownOption(a) => InvocationView::UnknownOption(a@),
        }
    }
}

/// Whether an argument asks for the usage.
pub open spec fn is_help(a: Seq<char>) -> bool {
    a == "-h"@ || a == "--help"@
}

/// Whether an argument turns thinking on.
pub open spec fn is_think(a: Seq<char>) -> bool {
    a == "--think"@
}

/// Whether an argument is an option: it begins with a dash.
pub open spec fn is_option(a: Seq<char>) -> bool {
    text::begins_with(a, "-"@)
}

/// Whether an argument ends the reading of the command line: it asks for the usage, or it is an
/// option that there is not.
pub open spec fn stops(a: Seq<char>) -> bool {
    is_help(a) || (!is_think(a) && is_option(a))
}

/// Whether an argument names a model.
pub open spec fn is_name(a: Seq<char>) -> bool {
    !is_help(a) && !is_think(a) && !is_option(a)
}

/// The first argument that ends the reading of the command line.
pub open spec fn first_stop(args: Seq<Seq<char>>) -> Option<Seq<char>>
    decreases args.len(),
{
    if args.len() == 0 {
        None
    } else {
        match first_stop(args.drop_last()) {
            Some(a) => Some(a),
            None => if stops(args.last()) {
                Some(args.last())
            } else {
                None
            },
        }
    }
}

/// The first argument that names a model.
pub open spec fn first_name(args: Seq<Seq<char>>) -> Option<Seq<char>>
    decreases args.len(),
{
    if args.len() == 0 {
        None
    } else {
        match first_name(args.drop_last()) {
            Some(a) => Some(a),
            None => if is_name(args.last()) {
                Some(args.last())
            } else {
                None
            },
        }
    }
}

/// What a command line, without the name of the program, comes to.
pub open spec fn invocation(args: Seq<Seq<char>>) -> InvocationView {
    match first_stop(args) {
        Some(a) => if is_help(a) {
            InvocationView::Help
        } else {
            InvocationView::UnknownOption(a)
        },
        None => InvocationView::Run(
            first_name(args),
            exists|i: int| 0 <= i < args.len() && is_think(#[trigger] args[i]),
        ),
    }
}

proof fn lemma_stops_early(args: Seq<Seq<char>>, n: int)
    requires
        0 <= n <= args.len(),
        first_stop(args.take(n)) is Some,
    ensures
        first_stop(args) == first_stop(args.take(n)),
    decreases args.len() - n,
{
    if n < args.len() {
        assert(args.take(n + 1).drop_last() == args.take(n));
        lemma_stops_early(args, n + 1);
    } else {
        assert(args.take(n) == args);
    }
}

/// Reads the command line, without the name of the program.
pub fn parse_args(args: &Vec<String>) -> (r: Invocation)
    ensures
        r@ == invocation(text::views(args@)),
{
    let mut model: Option<String> = None;
    let mut think: bool = false;
    let mut i: usize = 0;
    let ghost all = text::views(args@);
    while i < args.len()
        invariant
            i <= args@.len(),
            all == text::views(args@),
            first_stop(all.take(i as int)) is None,
            text::optional_text(model) == first_name(all.take(i as int)),
            think == (exists|k: int| 0 <= k < i && is_think(#[trigger] all[k])),
        decreases args@.len() - i,
    {
        let a = args[i].as_str();
        assert(a@ == all[i as int]);
        assert(all.take(i + 1).drop_last() == all.take(i as int));
        if text::same_text(a, "-h") || text::same_text(a, "--help") {
            proof {
                lemma_stops_early(all, i + 1);
            }
            return Invocation::Help;
        }
        if text::same_text(a, "--think") {
            think = true;
        } else if text::starts_with(a, "-") {
            proof {
                lemma_stops_early(all, i + 1);
            }
            return Invocation::UnknownOption(a.to_owned());
        } else if model.is_none() {
            model = Some(a.to_owned());
        }
        i += 1;
    }
    assert(all.take(i as int) == all);
    Invocation::Run(Args { model, think })
}

/// What is said of an option that there is not.
pub fn unknown_option(option: &str) -> (t: String)
    ensures
        t@ == "Unknown option: "@ + option@ + "\nRun with --help for usage."@,
{
    let mut t = "Unknown option: ".to_owned();
    t.push_str(option);
    t.push_str("\nRun with --help for usage.");
    t
}

// ── Sizes ────────────────────────────────────────────────────────────────────

/// How the size of a model is written: in units of `divisor` bytes, with so many decimals.
pub struct SizeScale {
    pub divisor: u64,
    pub decimals: usize,
    pub unit: &'static str,
}

/// How the size of a model of `bytes` bytes is written: in gigabytes with one decimal from one
/// gigabyte on, and in whole megabytes below.
pub fn size_scale(bytes: u64) -> (s: SizeScale)
    ensures
        bytes >= 1_000_000_000 ==> s.divisor == 1_000_000_000 && s.decimals == 1 && s.unit@ == "GB"@,
        bytes < 1_000_000_000 ==> s.divisor == 1_000_000 && s.decimals == 0 && s.unit@ == "MB"@,
{
    if bytes >= 1_000_000_000 {
        SizeScale { divisor: 1_000_000_000, decimals: 1, unit: "GB" }
    } else {
        SizeScale { divisor: 1_000_000, decimals: 0, unit: "MB" }
    }
}

// ── The choice of a model ────────────────────────────────────────────────────

/// What is said where there is no model to choose.
pub const NO_MODELS: &'static str = "No models found. Pull a model first: ollama pull <model>";

/// The prompt for the choice of a model.
pub const PICK_PROMPT: &'static str = "Select model (number or name): ";

/// The rows of the list to choose from.
pub open spec fn menu_rows(models: Seq<(String, String)>) -> Seq<char>
    decreases models.len(),
{
    if models.len() == 0 {
        Seq::empty()
    } else {
        let (name, size) = models.last();
        menu_rows(models.drop_last()) + "  "@ + session::model_row(models.len(), name@, size@)
    }
}

/// The list of models to choose from, each with its name and its size in words. None where there is
/// no model.
pub fn menu(models: &Vec<(String, String)>) -> (t: Option<String>)
    ensures
        text::optional_text(t) == (if models@.len() == 0 {
            None
        } else {
            Some("\nAvailable models:\n"@ + menu_rows(models@) + "\n"@)
        }),
{
    if models.len() == 0 {
        return None;
    }
    let mut t = "\nAvailable models:\n".to_owned();
    let mut i: usize = 0;
    let ghost head = t@;
    assert(t@ == head + menu_rows(models@.take(0)));
    while i < models.len()
        invariant
            i <= models@.len(),
            t@ == head + menu_rows(models@.take(i as int)),
        decreases models@.len() - i,
    {
        assert(models@.take(i + 1).drop_last() == models@.take(i as int));
        t.push_str("  ");
        session::push_model_row(&mut t, i + 1, models[i].0.as_str(), models[i].1.as_str());
        assert(t@ == head + menu_rows(models@.take(i + 1)));
        i += 1;
    }
    assert(models@.take(i as int) == models@);
    t.push_str("\n");
    Some(t)
}

/// What an answer to the question for a model comes to.
pub enum Pick {
    /// Ask again.
    Again,
    /// Print a text, and ask again.
    Print(String),
    /// The model is chosen.
    Picked(String),
    /// The choice is given up.
    Abort,
}

/// What a `Pick` holds.
pub enum PickView {
    Again,
    Print(Seq<char>),
    Picked(Seq<char>),
    Abort,
}

impl View for Pick {
    type V = PickView;

    open spec fn view(&self) -> PickView {
        match self {
            Pick::Again => PickView::Again,
            Pick::Print(t) => PickView::Print(t@),
            Pick::Picked(name) => PickView::Picked(name@),
            Pick::Abort => PickView::Abort,
        }
    }
}

/// The names that hold `part`, in order.
pub open spec fn matching(names: Seq<Seq<char>>, part: Seq<char>) -> Seq<Seq<char>>
    decreases names.len(),
{
    if names.len() == 0 {
        Seq::empty()
    } else if text::contains_text(names.last(), part) {
        matching(names.drop_last(), part).push(names.last())
    } else {
        matching(names.drop_last(), part)
    }
}

/// Names, each indented on a line of its own.
pub open spec fn indented(names: Seq<Seq<char>>) -> Seq<char>
    decreases names.len(),
{
    if names.len() == 0 {
        Seq::empty()
    } else {
        indented(names.drop_last()) + "    "@ + names.last() + "\n"@
    }
}

/// What an answer comes to: a number chooses the model at that place, a name the model of that name,
/// and part of a name the one model whose name holds it.
pub open spec fn pick_of(names: Seq<Seq<char>>, line: LineResultView) -> PickView {
    match line {
        LineResultView::Line(l) => {
            let s = text::trimmed(l);
            if s.len() == 0 {
                PickView::Again
            } else if text::usize_value(s) is Some {
                let n = text::usize_value(s)->0;
                if 1 <= n <= names.len() {
                    PickView::Picked(names[n - 1])
                } else {
                    PickView::Print("  Out of range.\n"@)
                }
            } else if names.contains(s) {
                PickView::Picked(s)
            } else {
                let m = matching(names, s);
                if m.len() == 0 {
                    PickView::Print("  No model matching '"@ + s + "'.\n"@)
                } else if m.len() == 1 {
                    PickView::Picked(m[0])
                } else {
                    PickView::Print("  Ambiguous — matches:\n"@ + indented(m))
                }
            }
        },
        _ => PickView::Abort,
    }
}

fn matching_names(names: &Vec<String>, part: &str) -> (m: Vec<String>)
    ensures
        text::views(m@) == matching(text::views(names@), part@),
{
    let mut m: Vec<String> = Vec::new();
    let mut i: usize = 0;
    let ghost all = text::views(names@);
    assert(text::views(m@) == matching(all.take(0), part@));
    while i < names.len()
        invariant
            i <= names@.len(),
            all == text::views(names@),
            text::views(m@) == matching(all.take(i as int), part@),
        decreases names@.len() - i,
    {
        assert(all.take(i + 1).drop_last() == all.take(i as int));
        if text::contains(names[i].as_str(), part) {
            let ghost before = text::views(m@);
            m.push(names[i].clone());
            assert(text::views(m@) == before.push(all[i as int]));
        }
        i += 1;
    }
    assert(all.take(i as int) == all);
    m
}

fn has_name(names: &Vec<String>, name: &str) -> (b: bool)
    ensures
        b == text::views(names@).contains(name@),
{
    let mut i: usize = 0;
    let ghost all = text::views(names@);
    while i < names.len()
        invariant
            i <= names@.len(),
            all == text::views(names@),
            forall|k: int| 0 <= k < i ==> all[k] != name@,
        decreases names@.len() - i,
    {
        if text::same_text(names[i].as_str(), name) {
            assert(all[i as int] == name@);
            return true;
        }
        i += 1;
    }
    false
}

/// What an answer to the question for a model comes to.
pub fn pick_model(names: &Vec<String>, line: LineResult) -> (p: Pick)
    ensures
        p@ == pick_of(text::views(names@), line@),
{
    let l = match line {
        LineResult::Line(l) => l,
        _ => {
            return Pick::Abort;
        },
    };
    let s = text::trim(l.as_str());
    if s.as_str().is_empty() {
        return Pick::Again;
    }
    if let Some(n) = text::parse_usize(s.as_str()) {
        if n >= 1 && n <= names.len() {
            return Pick::Picked(names[n - 1].clone());
        }
        return Pick::Print("  Out of range.\n".to_owned());
    }
    if has_name(names, s.as_str()) {
        return Pick::Picked(s);
    }
    let m = matching_names(names, s.as_str());
    let ghost found = text::views(m@);
    if m.len() == 0 {
        let mut t = "  No model matching '".to_owned();
        t.push_str(s.as_str());
        t.push_str("'.\n");
        return Pick::Print(t);
    }
    if m.len() == 1 {
        assert(found[0] == m@[0]@);
        return Pick::Picked(m[0].clone());
    }
    let mut t = "  Ambiguous — matches:\n".to_owned();
    let ghost head = t@;
    let mut i: usize = 0;
    assert(t@ == head + indented(found.take(0)));
    while i < m.len()
        invariant
            i <= m@.len(),
            found == text::views(m@),
            t@ == head + indented(found.take(i as int)),
        decreases m@.len() - i,
    {
        assert(found.take(i + 1).drop_last() == found.take(i as int));
        t.push_str("    ");
        t.push_str(m[i].as_str());
        t.push_str("\n");
        assert(t@ == head + indented(found.take(i + 1)));
        i += 1;
    }
    assert(found.take(i as int) == found);
    Pick::Print(t)
}

proof fn lemma_matching_are_names(names: Seq<Seq<char>>, part: Seq<char>)
    ensures
        forall|k: int|
            0 <= k < matching(names, part).len() ==> names.contains(
                #[trigger] matching(names, part)[k],
            ) && text::contains_text(matching(names, part)[k], part),
    decreases names.len(),
{
    if names.len() > 0 {
        let head = names.drop_last();
        lemma_matching_are_names(head, part);
        let m = matching(names, part);
        let rest = matching(head, part);
        assert forall|k: int| 0 <= k < m.len() implies names.contains(#[trigger] m[k])
            && text::contains_text(m[k], part) by {
            if k < rest.len() {
                assert(head.contains(rest[k]));
                let i = choose|i: int| 0 <= i < head.len() && head[i] == rest[k];
                assert(names[i] == m[k]);
            } else {
                assert(names[names.len() - 1] == m[k]);
            }
        }
    }
}

/// A model that is chosen is one of the models that there are.
pub proof fn law_pick_is_a_model(names: Seq<Seq<char>>, line: LineResultView)
    ensures
        pick_of(names, line) matches PickView::Picked(name) ==> names.contains(name),
{
    if let LineResultView::Line(l) = line {
        let s = text::trimmed(l);
        lemma_matching_are_names(names, s);
        if text::usize_value(s) is Some {
            let n = text::usize_value(s)->0;
            if 1 <= n <= names.len() {
                assert(names.contains(names[n - 1]));
            }
        }
    }
}

/// The number that the list shows for a model chooses that model.
pub proof fn law_listed_number_picks(names: Seq<Seq<char>>, i: usize)
    requires
        i < names.len() <= usize::MAX,
    ensures
        pick_of(names, LineResultView::Line(text::decimal((i + 1) as nat))) == PickView::Picked(
            names[i as int],
        ),
{
    text::law_decimal_reads_back((i + 1) as usize);
}

// ── Laws of the command line ─────────────────────────────────────────────────

/// Whether an argument is neither an option nor `--think`: it names a model.
pub open spec fn bare(a: Seq<char>) -> bool {
    a.len() == 0 || a[0] != '-'
}

proof fn lemma_dashes(a: Seq<char>)
    ensures
        is_option(a) <==> !bare(a),
        is_help(a) ==> !bare(a),
        is_think(a) ==> !bare(a),
        is_think(a) ==> !is_help(a),
{
    reveal_strlit("-");
    reveal_strlit("-h");
    reveal_strlit("--help");
    reveal_strlit("--think");
    if a.len() > 0 {
        assert(a.subrange(0, 1) == seq![a[0]]);
        assert("-"@ == seq!['-']);
        if a[0] == '-' {
            assert(a.subrange(0, 1) == "-"@);
        } else if is_option(a) {
            assert(a.subrange(0, 1)[0] == "-"@[0]);
        }
    }
}

/// Arguments that end nothing are read to the last.
proof fn lemma_no_stop(args: Seq<Seq<char>>)
    requires
        forall|i: int| 0 <= i < args.len() ==> bare(#[trigger] args[i]) || is_think(args[i]),
    ensures
        first_stop(args) is None,
    decreases args.len(),
{
    if args.len() > 0 {
        let head = args.drop_last();
        assert forall|i: int| 0 <= i < head.len() implies bare(#[trigger] head[i]) || is_think(
            head[i],
        ) by {
            assert(head[i] == args[i]);
        }
        lemma_no_stop(head);
        assert(args.last() == args[args.len() - 1]);
        lemma_dashes(args.last());
    }
}

proof fn lemma_first_name(args: Seq<Seq<char>>, k: int)
    requires
        0 <= k <= args.len(),
        forall|i: int| 0 <= i < k ==> is_think(#[trigger] args[i]),
        k < args.len() ==> bare(args[k]),
    ensures
        first_name(args) == (if k < args.len() {
            Some(args[k])
        } else {
            None
        }),
    decreases args.len(),
{
    if args.len() > 0 {
        let head = args.drop_last();
        let j = if k < args.len() {
            k
        } else {
            k - 1
        };
        assert forall|i: int| 0 <= i < j implies is_think(#[trigger] head[i]) by {
            assert(head[i] == args[i]);
        }
        assert(args.last() == args[args.len() - 1]);
        lemma_dashes(args.last());
        if j < head.len() {
            assert(head[j] == args[j]);
        }
        lemma_first_name(head, j);
    }
}

/// The first argument that is not `--think` names the model, and those behind it are passed over; the
/// session starts with thinking on exactly where `--think` stands among them, wherever that is.
pub proof fn law_arguments(args: Seq<Seq<char>>, k: int)
    requires
        forall|i: int| 0 <= i < args.len() ==> bare(#[trigger] args[i]) || args[i] == "--think"@,
        0 <= k <= args.len(),
        forall|i: int| 0 <= i < k ==> (#[trigger] args[i]) == "--think"@,
        k < args.len() ==> bare(args[k]),
    ensures
        invocation(args) == InvocationView::Run(
            if k < args.len() {
                Some(args[k])
            } else {
                None
            },
            exists|i: int| 0 <= i < args.len() && (#[trigger] args[i]) == "--think"@,
        ),
{
    assert forall|i: int| 0 <= i < args.len() implies bare(#[trigger] args[i]) || is_think(
        args[i],
    ) by {}
    assert forall|i: int| 0 <= i < k implies is_think(#[trigger] args[i]) by {}
    lemma_no_stop(args);
    lemma_first_name(args, k);
}

/// The first argument that asks for the usage, or is an option that there is not, decides, whatever
/// follows it.
pub proof fn law_options_decide(before: Seq<Seq<char>>, a: Seq<char>, after: Seq<Seq<char>>)
    requires
        forall|i: int| 0 <= i < before.len() ==> bare(#[trigger] before[i]) || before[i]
            == "--think"@,
        a.len() > 0 && a[0] == '-',
        a != "--think"@,
    ensures
        a == "-h"@ || a == "--help"@ ==> invocation(before + seq![a] + after)
            == InvocationView::Help,
        a != "-h"@ && a != "--help"@ ==> invocation(before + seq![a] + after)
            == InvocationView::UnknownOption(a),
{
    let all = before + seq![a] + after;
    let n = before.len() + 1;
    assert forall|i: int| 0 <= i < before.len() implies bare(#[trigger] before[i]) || is_think(
        before[i],
    ) by {}
    lemma_no_stop(before);
    lemma_dashes(a);
    assert(all.take(n as int).drop_last() == before);
    assert(all.take(n as int).last() == a);
    lemma_stops_early(all, n as int);
}

// ── Laws of the choice ───────────────────────────────────────────────────────

proof fn lemma_matching_none(names: Seq<Seq<char>>, part: Seq<char>)
    requires
        forall|i: int| 0 <= i < names.len() ==> !text::contains_text(#[trigger] names[i], part),
    ensures
        matching(names, part) == Seq::<Seq<char>>::empty(),
    decreases names.len(),
{
    if names.len() > 0 {
        let head = names.drop_last();
        assert forall|i: int| 0 <= i < head.len() implies !text::contains_text(
            #[trigger] head[i],
            part,
        ) by {
            assert(head[i] == names[i]);
        }
        assert(names.last() == names[names.len() - 1]);
        lemma_matching_none(head, part);
    }
}

proof fn lemma_matching_one(names: Seq<Seq<char>>, part: Seq<char>, k: int)
    requires
        0 <= k < names.len(),
        forall|i: int|
            0 <= i < names.len() ==> text::contains_text(#[trigger] names[i], part) == (i == k),
    ensures
        matching(names, part) == seq![names[k]],
    decreases names.len(),
{
    let head = names.drop_last();
    assert(names.last() == names[names.len() - 1]);
    if k == names.len() - 1 {
        assert forall|i: int| 0 <= i < head.len() implies !text::contains_text(
            #[trigger] head[i],
            part,
        ) by {
            assert(head[i] == names[i]);
        }
        lemma_matching_none(head, part);
        assert(matching(names, part) == seq![names[k]]);
    } else {
        assert forall|i: int| 0 <= i < head.len() implies text::contains_text(
            #[trigger] head[i],
            part,
        ) == (i == k) by {
            assert(head[i] == names[i]);
        }
        lemma_matching_one(head, part, k);
    }
}

proof fn lemma_matching_all(names: Seq<Seq<char>>, part: Seq<char>, k: int)
    requires
        0 <= k < names.len(),
        text::contains_text(names[k], part),
    ensures
        matching(names, part).contains(names[k]),
        matching(names, part).len() > 0,
    decreases names.len(),
{
    let head = names.drop_last();
    let m = matching(names, part);
    if k == names.len() - 1 {
        assert(m[m.len() - 1] == names[k]);
    } else {
        assert(head[k] == names[k]);
        lemma_matching_all(head, part, k);
        let rest = matching(head, part);
        let i = choose|i: int| 0 <= i < rest.len() && rest[i] == names[k];
        assert(m[i] == names[k]);
    }
}

proof fn lemma_answer(names: Seq<Seq<char>>, s: Seq<char>)
    requires
        s.len() > 0,
        !text::white_space(s[0]),
        !text::white_space(s.last()),
        text::usize_value(s) is None,
    ensures
        pick_of(names, LineResultView::Line(s)) == (if names.contains(s) {
            PickView::Picked(s)
        } else {
            let m = matching(names, s);
            if m.len() == 0 {
                PickView::Print("  No model matching '"@ + s + "'.\n"@)
            } else if m.len() == 1 {
                PickView::Picked(m[0])
            } else {
                PickView::Print("  Ambiguous — matches:\n"@ + indented(m))
            }
        }),
{
    assert(text::trimmed(s) == s);
}

/// An answer that is no number and the name of a model chooses that model.
pub proof fn law_pick_by_name(names: Seq<Seq<char>>, s: Seq<char>, k: int)
    requires
        s.len() > 0,
        !text::white_space(s[0]),
        !text::white_space(s.last()),
        text::usize_value(s) is None,
        0 <= k < names.len(),
        names[k] == s,
    ensures
        pick_of(names, LineResultView::Line(s)) == PickView::Picked(s),
{
    lemma_answer(names, s);
    assert(names.contains(s));
}

/// An answer that is no number and no name chooses the one model whose name holds it.
pub proof fn law_pick_by_part(names: Seq<Seq<char>>, s: Seq<char>, k: int)
    requires
        s.len() > 0,
        !text::white_space(s[0]),
        !text::white_space(s.last()),
        text::usize_value(s) is None,
        0 <= k < names.len(),
        !names.contains(s),
        forall|i: int|
            0 <= i < names.len() ==> text::contains_text(#[trigger] names[i], s) == (i == k),
    ensures
        pick_of(names, LineResultView::Line(s)) == PickView::Picked(names[k]),
{
    lemma_answer(names, s);
    lemma_matching_one(names, s, k);
}

/// An answer that is no number and that no name holds is told back, and the question is asked again.
pub proof fn law_pick_nothing(names: Seq<Seq<char>>, s: Seq<char>)
    requires
        s.len() > 0,
        !text::white_space(s[0]),
        !text::white_space(s.last()),
        text::usize_value(s) is None,
        !names.contains(s),
        forall|i: int| 0 <= i < names.len() ==> !text::contains_text(#[trigger] names[i], s),
    ensures
        pick_of(names, LineResultView::Line(s)) == PickView::Print(
            "  No model matching '"@ + s + "'.\n"@,
        ),
{
    lemma_answer(names, s);
    lemma_matching_none(names, s);
}

/// Where several names hold an answer that is none of them, all of them are shown, and nothing is chosen.
pub proof fn law_ambiguous_answer(names: Seq<Seq<char>>, s: Seq<char>, a: int, b: int)
    requires
        s.len() > 0,
        !text::white_space(s[0]),
        !text::white_space(s.last()),
        text::usize_value(s) is None,
        0 <= a < b < names.len(),
        names[a] != names[b],
        text::contains_text(names[a], s),
        text::contains_text(names[b], s),
        !names.contains(s),
    ensures
        pick_of(names, LineResultView::Line(s)) matches PickView::Print(t) && text::contains_text(
            t,
            seq![' ', ' ', ' ', ' '] + names[a] + seq!['\n'],
        ) && text::contains_text(t, seq![' ', ' ', ' ', ' '] + names[b] + seq!['\n']),
{
    lemma_answer(names, s);
    let m = matching(names, s);
    lemma_matching_all(names, s, a);
    lemma_matching_all(names, s, b);
    let i = choose|i: int| 0 <= i < m.len() && m[i] == names[a];
    let j = choose|j: int| 0 <= j < m.len() && m[j] == names[b];
    assert(i != j);
    lemma_indented(m, i);
    lemma_indented(m, j);
    let head = "  Ambiguous — matches:\n"@;
    lemma_contains_behind(head, indented(m), seq![' ', ' ', ' ', ' '] + names[a] + seq!['\n']);
    lemma_contains_behind(head, indented(m), seq![' ', ' ', ' ', ' '] + names[b] + seq!['\n']);
}

proof fn lemma_contains_behind(head: Seq<char>, s: Seq<char>, part: Seq<char>)
    requires
        text::contains_text(s, part),
    ensures
        text::contains_text(head + s, part),
        text::contains_text(s + head, part),
{
    let at = choose|at: int| #[trigger] text::occurs_at(s, part, at);
    assert((head + s).subrange(head.len() + at, head.len() + at + part.len()) == s.subrange(
        at,
        at + part.len(),
    ));
    assert(text::occurs_at(head + s, part, head.len() + at));
    assert((s + head).subrange(at, at + part.len()) == s.subrange(at, at + part.len()));
    assert(text::occurs_at(s + head, part, at));
}

proof fn lemma_indented(names: Seq<Seq<char>>, i: int)
    requires
        0 <= i < names.len(),
    ensures
        text::contains_text(indented(names), seq![' ', ' ', ' ', ' '] + names[i] + seq!['\n']),
    decreases names.len(),
{
    reveal_strlit("    ");
    reveal_strlit("\n");
    assert("    "@ == seq![' ', ' ', ' ', ' ']);
    assert("\n"@ == seq!['\n']);
    let head = names.drop_last();
    let row = "    "@ + names.last() + "\n"@;
    assert(indented(names) == indented(head) + row);
    if i == names.len() - 1 {
        assert(row.subrange(0, row.len() as int) == row);
        assert(text::occurs_at(row, row, 0));
        lemma_contains_behind(indented(head), row, row);
    } else {
        assert(head[i] == names[i]);
        lemma_indented(head, i);
        lemma_contains_behind(row, indented(head), seq![' ', ' ', ' ', ' '] + names[i] + seq!['\n']);
    }
}

/// The list to choose from has a row for each model, in order, with its number.
pub proof fn law_menu_rows(models: Seq<(String, String)>, name: String, size: String)
    ensures
        menu_rows(Seq::empty()) == Seq::<char>::empty(),
        menu_rows(models.push((name, size))) == menu_rows(models) + seq![' ', ' ']
            + session::model_row(models.len() + 1, name@, size@),
{
    assert(models.push((name, size)).drop_last() == models);
    reveal_strlit("  ");
    assert("  "@ == seq![' ', ' ']);
}

/// A blank answer asks again; a number out of range is refused; anything but an entered line gives the
/// choice up.
pub proof fn law_other_answers(names: Seq<Seq<char>>, line: Seq<char>, n: usize)
    ensures
        text::trimmed(line).len() == 0 ==> pick_of(names, LineResultView::Line(line))
            == PickView::Again,
        n == 0 || n > names.len() ==> pick_of(
            names,
            LineResultView::Line(text::decimal(n as nat)),
        ) is Print,
        1 <= n <= names.len() ==> pick_of(names, LineResultView::Line(text::decimal(n as nat)))
            == PickView::Picked(names[n - 1]),
        pick_of(names, LineResultView::Eof) == PickView::Abort,
        pick_of(names, LineResultView::Interrupted) == PickView::Abort,
{
    text::law_decimal_reads_back(n);
}

} // verus!
