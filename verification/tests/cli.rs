use llmcli::cli::{
    menu, parse_args, pick_model, size_scale, unknown_option, Invocation, Pick, NO_MODELS, USAGE,
};
use llmcli::input::LineResult;

fn args(list: &[&str]) -> Invocation {
    parse_args(&list.iter().map(|s| s.to_string()).collect())
}

fn pick(names: &[&str], answer: &str) -> Pick {
    let names = names.iter().map(|s| s.to_string()).collect();
    pick_model(&names, LineResult::Line(answer.to_string()))
}

#[test]
fn command_lines() {
    assert!(matches!(args(&[]), Invocation::Run(a) if a.model.is_none() && !a.think));
    assert!(matches!(args(&["--think", "qwen3:14b"]),
        Invocation::Run(a) if a.model.as_deref() == Some("qwen3:14b") && a.think));
    assert!(matches!(args(&["a", "b", "--think"]),
        Invocation::Run(a) if a.model.as_deref() == Some("a") && a.think));
    assert!(matches!(args(&[""]), Invocation::Run(a) if a.model.as_deref() == Some("")));
    assert!(matches!(args(&["a", "-h"]), Invocation::Help));
    assert!(matches!(args(&["--help", "--bad"]), Invocation::Help));
    assert!(matches!(args(&["--bad", "--help"]), Invocation::UnknownOption(o) if o == "--bad"));
    assert!(matches!(args(&["-"]), Invocation::UnknownOption(o) if o == "-"));
    assert_eq!(unknown_option("--bad"), "Unknown option: --bad\nRun with --help for usage.");
}

#[test]
fn the_usage_text() {
    assert!(USAGE.starts_with("Usage:\n  llmcli [OPTIONS] [MODEL]\n\nArguments:\n  MODEL           Model name"));
    assert!(USAGE.contains("\n                  Omit to list available models and choose interactively.\n\nOptions:\n  --think"));
    assert!(USAGE.ends_with("\n  /clear          Clear conversation history\n  /exit           Unload model and quit\n"));
    assert_eq!(USAGE.lines().count(), 22);
}

#[test]
fn sizes_in_gigabytes_or_megabytes() {
    let s = size_scale(1_000_000_000);
    assert_eq!((s.divisor, s.decimals, s.unit), (1_000_000_000, 1, "GB"));
    let s = size_scale(999_999_999);
    assert_eq!((s.divisor, s.decimals, s.unit), (1_000_000, 0, "MB"));
}

#[test]
fn the_menu_lists_the_models() {
    let models = vec![("qwen3:14b".to_string(), "9.3GB".to_string())];
    let row = format!("  {:>2})  {:<40}  {:>7}  [{}]", 1, "qwen3:14b", "9.3GB", "text, think");
    assert_eq!(menu(&models), Some(format!("\nAvailable models:\n{}\n\n", row)));
    assert_eq!(menu(&Vec::new()), None);
    assert_eq!(NO_MODELS, "No models found. Pull a model first: ollama pull <model>");
}

#[test]
fn a_model_is_chosen_by_number_name_or_part() {
    let names = ["gemma3:4b", "gemma3:12b", "qwen3:14b", "4"];
    assert!(matches!(pick(&names, " 3 "), Pick::Picked(n) if n == "qwen3:14b"));
    assert!(matches!(pick(&names, "4"), Pick::Picked(n) if n == "4"));
    assert!(matches!(pick(&names, "gemma3:4b"), Pick::Picked(n) if n == "gemma3:4b"));
    assert!(matches!(pick(&names, "wen"), Pick::Picked(n) if n == "qwen3:14b"));
    assert!(matches!(pick(&names, ""), Pick::Again));
    assert!(matches!(pick(&names, "0"), Pick::Print(t) if t == "  Out of range.\n"));
    assert!(matches!(pick(&names, "5"), Pick::Print(t) if t == "  Out of range.\n"));
    assert!(matches!(pick(&names, "phi"), Pick::Print(t) if t == "  No model matching 'phi'.\n"));
    assert!(matches!(pick(&names, "gemma"), Pick::Print(t)
        if t == "  Ambiguous — matches:\n    gemma3:4b\n    gemma3:12b\n"));
    assert!(matches!(pick_model(&Vec::new(), LineResult::Eof), Pick::Abort));
    assert!(matches!(pick_model(&Vec::new(), LineResult::Interrupted), Pick::Abort));
}

#[test]
fn the_number_that_is_listed_picks() {
    let names: Vec<String> = (0..12).map(|i| format!("m{i}")).collect();
    let rows: Vec<(String, String)> =
        names.iter().map(|n| (n.clone(), "1MB".to_string())).collect();
    let text = menu(&rows).unwrap();
    for (i, name) in names.iter().enumerate() {
        assert!(text.contains(&format!("  {:>2})  {}", i + 1, name)));
        let answer = LineResult::Line(format!("{}", i + 1));
        assert!(matches!(pick_model(&names, answer), Pick::Picked(n) if n == *name));
    }
}
