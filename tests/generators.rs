use emo::error::EmoError;
use emo::generators::{EmojiGenerator, SearchGenerator};

#[test]
fn emoji_generator_trait_exists() {
    // the trait is importable
}

#[test]
fn emoji_generator_has_generate_method() {
    struct TestGenerator;
    impl EmojiGenerator for TestGenerator {
        fn generate(&self, _input: &str) -> Result<String, EmoError> {
            Ok("test".to_string())
        }
    }
    assert_eq!(TestGenerator.generate("x").unwrap(), "test");
}

#[test]
fn search_generator_exists() {
    let _generator = SearchGenerator::new();
}

#[test]
fn search_generator_implements_trait() {
    let generator = SearchGenerator::new();
    let _result = generator.generate("fire");
}

#[test]
fn search_generator_returns_fire_emoji_for_fire() {
    let generator = SearchGenerator::new();
    let result = generator.generate("fire").unwrap();
    assert_eq!(result, "🔥");
}

#[test]
fn search_generator_returns_emoji_for_happy() {
    let generator = SearchGenerator::new();
    let result = generator.generate("happy").unwrap();
    assert!(!result.is_empty());
    assert!(result.chars().all(|c| c as u32 > 127));
}

#[test]
fn search_generator_reports_no_match() {
    let generator = SearchGenerator::new();
    let result = generator.generate("zzzqqqxxx");
    match result {
        Err(EmoError::InvalidInput(m)) => assert_eq!(m, "No emoji found for 'zzzqqqxxx'"),
        _ => panic!("expected an input error"),
    }
}
