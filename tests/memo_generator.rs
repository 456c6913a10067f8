use emo::generators::{EmojiGenerator, MemoGenerator};
use std::collections::HashMap;

#[test]
fn memo_generator_exists() {
    let _ = MemoGenerator::new();
}

#[test]
fn memo_generator_implements_trait() {
    let gen = MemoGenerator::new();
    let _result = gen.generate("test");
}

#[test]
fn memo_generator_with_mappings_returns_memo() {
    let mut mappings = HashMap::new();
    mappings.insert("deploy".to_string(), '🚀');

    let gen = MemoGenerator::with_mappings(mappings.into_iter().collect());
    let result = gen.generate("deploy").unwrap();
    assert_eq!(result, "🚀");
}

#[test]
fn memo_generator_with_different_mapping() {
    let mut mappings = HashMap::new();
    mappings.insert("fire".to_string(), '🔥');

    let gen = MemoGenerator::with_mappings(mappings.into_iter().collect());
    let result = gen.generate("fire").unwrap();
    assert_eq!(result, "🔥");
}

#[test]
fn memo_generator_later_entry_wins_and_missing_fails() {
    let gen = MemoGenerator::with_mappings(vec![
        ("a".to_string(), '🔥'),
        ("a".to_string(), '🚀'),
    ]);
    assert_eq!(gen.generate("a").unwrap(), "🚀");
    assert!(gen.generate("b").is_err());
}
