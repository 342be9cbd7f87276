use llmcli::model_cap::{chat_caps, list_models, resolve, ModelCaps};

fn strings(names: &[&str]) -> Vec<String> {
    names.iter().map(|s| s.to_string()).collect()
}

#[test]
fn declared_capabilities() {
    let caps = ModelCaps::from_ollama(&strings(&["completion", "vision", "thinking"]));
    assert_eq!(caps, ModelCaps { think: true, image: true, audio: false });
    assert_eq!(
        ModelCaps::from_ollama(&strings(&["audio", "Vision"])),
        ModelCaps { think: false, image: false, audio: true }
    );
    assert_eq!(ModelCaps::from_ollama(&[]), ModelCaps::default());
}

#[test]
fn capabilities_in_words() {
    assert_eq!(ModelCaps::default().describe(), "text");
    assert_eq!(
        ModelCaps { think: true, image: true, audio: true }.describe(),
        "text, image, audio, think"
    );
    assert_eq!(ModelCaps { think: true, image: false, audio: false }.describe(), "text, think");
    assert_eq!(ModelCaps { think: false, image: false, audio: true }.describe(), "text, audio");
}

#[test]
fn capabilities_by_the_front_of_the_name() {
    assert_eq!(resolve("gemma4:e4b").describe(), "text, image, audio, think");
    assert_eq!(resolve("gemma3n:e2b").describe(), "text, image, audio, think");
    assert_eq!(resolve("gemma3:4b").describe(), "text, image, think");
    assert_eq!(resolve("qwen3:14b").describe(), "text, think");
    assert_eq!(resolve("deepseek-r1:8b").describe(), "text, think");
    assert_eq!(resolve("phi4").describe(), "text, think");
    assert_eq!(resolve("llama3").describe(), "text");
    assert_eq!(resolve("my-qwen3").describe(), "text");
    assert_eq!(resolve("").describe(), "text");
}

#[test]
fn models_that_cannot_chat_have_no_capabilities() {
    assert_eq!(chat_caps(&strings(&["embedding"])), None);
    assert_eq!(chat_caps(&[]), Some(ModelCaps::default()));
    assert_eq!(
        chat_caps(&strings(&["completion", "vision"])),
        Some(ModelCaps { think: false, image: true, audio: false })
    );
}

#[test]
fn only_models_that_can_chat_are_listed() {
    let think = ModelCaps { think: true, image: false, audio: false };
    let names = vec![
        ("a".to_string(), 1u64),
        ("embed".to_string(), 2),
        ("b".to_string(), 3),
        ("beyond".to_string(), 4),
    ];
    let caps = vec![Some(ModelCaps::default()), None, Some(think)];
    assert_eq!(
        list_models(&names, &caps),
        vec![("a".to_string(), 1, ModelCaps::default()), ("b".to_string(), 3, think)]
    );
}
