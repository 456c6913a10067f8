use emo::actions::{define, plan, random_pick, Action, RunFlags};
use emo::error::EmoError;
use emo::models::{choose_model, is_q4_gguf, repo_id_of_url, ModelInfo, ModelRegistry, RepoFile, RepoListing};
use emo::record::EmojiRecord;
use emo::search::{get_search_index, SearchIndex};

fn rec(name: &str, unicode: &str, keywords: &[&str], definition: Option<&str>) -> EmojiRecord {
    EmojiRecord {
        keywords: keywords.iter().map(|k| k.to_string()).collect(),
        unicode: unicode.to_string(),
        name: name.to_string(),
        shortcode: None,
        definition: definition.map(|d| d.to_string()),
    }
}

fn flags() -> RunFlags {
    RunFlags {
        list_models: false,
        list_mappings: false,
        random: false,
        ai: false,
        model: false,
        erase: false,
        save: None,
        define: false,
        sentence: None,
    }
}

#[test]
fn word_index_lists_records_per_word() {
    let cat = vec![
        rec("Grinning Face", "U+1F600", &["happy smile"], None),
        rec("face face", "U+1F636", &["quiet"], None),
    ];
    let idx = SearchIndex::build(&cat);
    assert_eq!(idx.name_matches("face"), vec![0, 1, 1]);
    assert_eq!(idx.name_matches("grinning"), vec![0]);
    assert_eq!(idx.keyword_matches("smile"), vec![0]);
    assert_eq!(idx.keyword_matches("face"), Vec::<usize>::new());
    let again = get_search_index(&cat);
    assert_eq!(again.keyword_matches("quiet"), vec![1]);
}

#[test]
fn plan_follows_flag_precedence() {
    let mut f = flags();
    assert!(matches!(plan(&f, true).action, Ok(Action::Search)));
    match plan(&f, false).action {
        Err(EmoError::InvalidInput(m)) => assert_eq!(m, "Please provide a search term or situation"),
        _ => panic!("expected an input error"),
    }
    f.define = true;
    assert!(matches!(plan(&f, true).action, Ok(Action::Define)));
    f.save = Some("2".to_string());
    assert!(matches!(plan(&f, true).action, Ok(Action::Save(ref v)) if v == "2"));
    f.erase = true;
    assert!(matches!(plan(&f, true).action, Ok(Action::Erase)));
    f.model = true;
    let p = plan(&f, true);
    assert!(p.store_model);
    assert!(matches!(p.action, Ok(Action::Ai { sentence: None })));
    f.random = true;
    let p = plan(&f, false);
    assert!(!p.store_model);
    assert!(matches!(p.action, Ok(Action::Random)));
    f.list_models = true;
    assert!(matches!(plan(&f, false).action, Ok(Action::ListModels)));
}

#[test]
fn define_by_character_then_by_search() {
    let cat = vec![rec("fire", "U+1F525", &["flame"], Some("hot")), rec("flame thrower", "U+1F9EF", &[], None)];
    let (c, e) = define(&cat, "🔥").unwrap();
    assert_eq!(c, '🔥');
    assert_eq!(e.name, "fire");
    let (c, _) = define(&cat, "thrower").unwrap();
    assert_eq!(c, '🧯');
    assert!(define(&cat, "").is_none());
    assert!(define(&cat, "zzz").is_none());
}

#[test]
fn random_pick_uses_draw_modulo_size() {
    let cat = vec![rec("fire", "U+1F525", &[], None), rec("rocket", "U+1F680", &[], None)];
    assert_eq!(random_pick(&cat, 3).unwrap().0, '🚀');
    assert_eq!(random_pick(&cat, 4).unwrap().0, '🔥');
    let empty: Vec<EmojiRecord> = Vec::new();
    match random_pick(&empty, 1) {
        Err(EmoError::InvalidInput(m)) => assert_eq!(m, "No emojis available"),
        _ => panic!("expected an input error"),
    }
}

fn model(id: &str) -> ModelInfo {
    ModelInfo {
        id: id.to_string(),
        name: id.to_string(),
        url: format!("https://huggingface.co/o/r/resolve/main/{}.gguf", id),
        size_mb: 1,
        description: String::new(),
    }
}

#[test]
fn choosing_a_model() {
    let ms = vec![model("a"), model("b")];
    assert_eq!(choose_model(&ms, None).unwrap().id, "a");
    assert_eq!(choose_model(&ms, Some("b")).unwrap().id, "b");
    match choose_model(&ms, Some("c")) {
        Err(EmoError::ConfigError(m)) => assert_eq!(m, "Model 'c' not found"),
        _ => panic!("expected a configuration error"),
    }
    assert!(matches!(choose_model(&[], None), Err(EmoError::ConfigError(_))));
    assert_eq!(repo_id_of_url(&ms[1].url), Some("o/r".to_string()));
    assert_eq!(repo_id_of_url("https://x/y"), None);
}

#[test]
fn q4_gguf_files() {
    assert!(is_q4_gguf("Llama-3.2-1B-Instruct-Q4_K_M.gguf"));
    assert!(!is_q4_gguf("Llama-3.2-1B-Instruct-Q4_K_M.gguf.part"));
    assert!(!is_q4_gguf("Llama-3.2-1B-Instruct-Q8_0.gguf"));
}

#[test]
fn models_from_a_listing() {
    let reg = ModelRegistry::new();
    assert!(matches!(reg.models_from_listing(&[]), Err(EmoError::ConfigError(_))));
    let repos = vec![
        RepoListing { model_id: "bartowski/Llama-3.2-1B-Instruct-GGUF".to_string(), files: Some(vec![
            RepoFile { path: "README.md".to_string(), size: 10, size_label: "0MB".to_string() },
            RepoFile { path: "Llama-3.2-1B-Instruct-Q4_K_M.gguf".to_string(), size: 807_000_000, size_label: "807MB".to_string() },
            RepoFile { path: "other-q4_k_m.gguf".to_string(), size: 1, size_label: "0MB".to_string() },
        ]) },
        RepoListing { model_id: "x/no_files".to_string(), files: None },
        RepoListing { model_id: "TheBloke/phi_2-GGUF".to_string(), files: Some(vec![
            RepoFile { path: "phi-2.Q4_K_M.gguf".to_string(), size: 1_790_000_000, size_label: "1.8GB".to_string() },
        ]) },
    ];
    let ms = reg.models_from_listing(&repos).unwrap();
    assert_eq!(ms.len(), 2);
    assert_eq!(ms[0].id, "llama-3.2-1b");
    assert_eq!(ms[0].name, "Llama-3.2-1B-Instruct");
    assert_eq!(ms[0].url, "https://huggingface.co/bartowski/Llama-3.2-1B-Instruct-GGUF/resolve/main/Llama-3.2-1B-Instruct-Q4_K_M.gguf");
    assert_eq!(ms[0].size_mb, 807);
    assert_eq!(ms[0].description, "Q4_K_M • 807MB • by bartowski");
    assert_eq!(ms[1].id, "phi-2");
    assert_eq!(ms[1].name, "phi 2");
    assert_eq!(ms[1].filename(), "phi-2.Q4_K_M.gguf");
    let none = vec![RepoListing { model_id: "x/y".to_string(), files: Some(vec![]) }];
    assert!(matches!(reg.models_from_listing(&none), Err(EmoError::ConfigError(_))));
}
