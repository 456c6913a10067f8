use emo::record::{to_char, EmojiRecord};
use emo::search::search;
use emo::text::is_exact_word_match;

#[test]
fn test_to_char() {
    let emoji = EmojiRecord {
        keywords: vec!["test".to_string()],
        unicode: "U+1F600".to_string(),
        name: "grinning face".to_string(),
        shortcode: None,
        definition: None,
    };
    assert_eq!(to_char(&emoji).unwrap(), '😀');
}

#[test]
fn test_is_exact_word_match() {
    assert!(is_exact_word_match("hello world", "hello"));
    assert!(is_exact_word_match("hello world", "world"));
    assert!(!is_exact_word_match("hello world", "hell"));
    assert!(!is_exact_word_match("hello world", "orld"));
}

#[test]
fn test_search_by_name() {
    let emojis = vec![
        EmojiRecord {
            keywords: vec!["happy".to_string()],
            unicode: "U+1F600".to_string(),
            name: "grinning face".to_string(),
            shortcode: None,
            definition: None,
        },
        EmojiRecord {
            keywords: vec!["sad".to_string()],
            unicode: "U+1F622".to_string(),
            name: "crying face".to_string(),
            shortcode: None,
            definition: None,
        },
    ];

    let results = search(&emojis, "grinning", 1);
    assert_eq!(results.len(), 1);
    assert_eq!(results[0].1.name, "grinning face");
}

#[test]
fn test_search_by_keyword() {
    let emojis = vec![EmojiRecord {
        keywords: vec!["happy".to_string(), "smile".to_string()],
        unicode: "U+1F600".to_string(),
        name: "grinning face".to_string(),
        shortcode: None,
        definition: None,
    }];

    let results = search(&emojis, "happy", 1);
    assert_eq!(results.len(), 1);
    assert_eq!(results[0].1.name, "grinning face");
}

#[test]
fn test_emoji_mappings_default() {
    let mappings = emo::memo::EmojiMappings::default();
    assert!(mappings.is_empty());
}
