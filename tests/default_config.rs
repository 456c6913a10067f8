use emo::memo::EmojiMappings;

#[test]
fn test_default_config_has_empty_mappings() {
    let config = EmojiMappings::default();
    assert!(config.is_empty());
}

#[test]
fn test_default_config_has_null_model() {
    let config = EmojiMappings::default();
    assert!(config.model().is_none());
}
