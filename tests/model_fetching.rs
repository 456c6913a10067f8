use emo::models::{ModelInfo, ModelRegistry};

#[test]
fn model_registry_exists() {
    let _registry = ModelRegistry::new();
}

#[test]
fn model_filename_is_last_url_part() {
    let m = ModelInfo {
        id: "llama-3.2-1b".to_string(),
        name: "Llama 3.2 1B".to_string(),
        url: "https://huggingface.co/a/b/resolve/main/model-Q4_K_M.gguf".to_string(),
        size_mb: 800,
        description: String::new(),
    };
    assert_eq!(m.filename(), "model-Q4_K_M.gguf");
    let plain = ModelInfo { url: "plain.gguf".to_string(), ..m.clone() };
    assert_eq!(plain.filename(), "plain.gguf");
    let trailing = ModelInfo { url: "https://x/".to_string(), ..m };
    assert_eq!(trailing.filename(), "");
}
