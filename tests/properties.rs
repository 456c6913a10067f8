use emo::ai::{build_prompt, is_emoji_char, EmojiScan, EmojiSentence, ScanStep};
use emo::catalog::{admit_records, load_emojis};
use emo::error::EmoError;
use emo::memo::{parse_index, resolve, EmojiMappings};
use emo::record::{to_char, EmojiRecord};
use emo::search::search;

fn rec(name: &str, unicode: &str, keywords: &[&str], definition: Option<&str>) -> EmojiRecord {
    EmojiRecord {
        keywords: keywords.iter().map(|k| k.to_string()).collect(),
        unicode: unicode.to_string(),
        name: name.to_string(),
        shortcode: None,
        definition: definition.map(|d| d.to_string()),
    }
}

fn faces() -> Vec<EmojiRecord> {
    vec![
        rec("smiling face", "U+1F60A", &["face", "happy"], None),
        rec("grinning face", "U+1F600", &["smile"], None),
        rec("grinning cat", "U+1F63A", &["cat"], Some("a cat with a grinning face")),
        rec("face with tears of joy", "U+1F602", &["laugh"], None),
    ]
}

#[test]
fn search_respects_limit_and_distinct_characters() {
    let mut cat = faces();
    cat.push(rec("smiling face again", "U+1F60A", &["face"], None));
    for limit in 1..6 {
        let r = search(&cat, "face", limit);
        assert!(r.len() <= limit);
        for a in 0..r.len() {
            for b in (a + 1)..r.len() {
                assert_ne!(r[a].0, r[b].0);
            }
        }
    }
    let all = search(&cat, "face", 10);
    assert_eq!(all.len(), 4);
}

#[test]
fn search_orders_tiers_strictly() {
    let cat = faces();
    let r = search(&cat, "face", 10);
    let chars: Vec<char> = r.iter().map(|x| x.0).collect();
    // whole-word name matches in catalog order, then the definition match
    assert_eq!(chars, vec!['😊', '😀', '😂', '😺']);
    let r = search(&cat, "grin", 10);
    let chars: Vec<char> = r.iter().map(|x| x.0).collect();
    assert_eq!(chars, vec!['😀', '😺']);
}

#[test]
fn exact_name_comes_before_keyword_and_substring_matches() {
    let cat = faces();
    let r = search(&cat, "Grinning Face", 3);
    assert_eq!(r[0].1.name, "grinning face");
    assert_eq!(r[0].0, '😀');
    let r = search(&cat, "face", 2);
    assert_eq!(r[0].1.name, "smiling face");
    assert_eq!(r[1].1.name, "grinning face");
}

#[test]
fn scenario_fire_query_gives_fire() {
    let cat = vec![rec("fire", "U+1F525", &["flame"], None)];
    let r = search(&cat, "fire", 1);
    assert_eq!(r.len(), 1);
    assert_eq!(r[0].0, '🔥');
    let m = EmojiMappings::new();
    assert_eq!(resolve(&cat, &m, "fire", 1), vec!['🔥']);
}

#[test]
fn search_edge_cases() {
    let empty: Vec<EmojiRecord> = Vec::new();
    assert!(search(&empty, "fire", 3).is_empty());
    let cat = faces();
    assert!(search(&cat, "zebra", 3).is_empty());
    // keyword whole-word tier and keyword substring tier
    assert_eq!(search(&cat, "laugh", 1)[0].0, '😂');
    assert_eq!(search(&cat, "aug", 1)[0].0, '😂');
    // a record that does not decode is skipped
    let bad = vec![rec("fire", "U+ZZZ", &[], None), rec("fire truck", "U+1F692", &[], None)];
    let r = search(&bad, "fire", 2);
    assert_eq!(r.len(), 1);
    assert_eq!(r[0].0, '🚒');
}

#[test]
fn decoding_code_points() {
    let ok = |u: &str| to_char(&rec("x", u, &[], None));
    assert_eq!(ok("U+1F525").unwrap(), '🔥');
    assert_eq!(ok("  U+2764 U+FE0F").unwrap(), '❤');
    assert_eq!(ok("U+U+1f600").unwrap(), '😀');
    assert_eq!(ok("+41").unwrap(), 'A');
    assert!(matches!(ok(""), Err(EmoError::InvalidInput(_))));
    assert!(matches!(ok("U+D800"), Err(EmoError::InvalidInput(_))));
    assert!(matches!(ok("U+110000"), Err(EmoError::InvalidInput(_))));
    assert!(matches!(ok("U+1G"), Err(EmoError::InvalidInput(_))));
    assert!(matches!(ok("U+"), Err(EmoError::InvalidInput(_))));
    assert!(matches!(ok("U+100000000"), Err(EmoError::InvalidInput(_))));
}

#[test]
fn memo_alone_when_one_requested() {
    let cat = vec![rec("fire", "U+1F525", &["flame"], None)];
    let mut m = EmojiMappings::new();
    m.insert("fire".to_string(), '🚀');
    assert_eq!(resolve(&cat, &m, "fire", 1), vec!['🚀']);
}

#[test]
fn memo_first_and_never_repeated() {
    let cat = vec![
        rec("fire", "U+1F525", &["flame"], None),
        rec("fire engine", "U+1F692", &[], None),
        rec("firecracker", "U+1F9E8", &[], None),
        rec("fireworks", "U+1F386", &[], None),
    ];
    let mut m = EmojiMappings::new();
    m.insert("fire".to_string(), '🔥');
    let out = resolve(&cat, &m, "fire", 3);
    assert_eq!(out, vec!['🔥', '🚒', '🧨']);
    let out = resolve(&cat, &m, "fire", 10);
    assert_eq!(out, vec!['🔥', '🚒', '🧨', '🎆']);
}

#[test]
fn save_then_lookup_and_erase() {
    let cat = vec![rec("fire", "U+1F525", &["flame"], None), rec("fire engine", "U+1F692", &[], None)];
    let mut m = EmojiMappings::new();
    assert_eq!(m.save_mapping(&cat, "fire", "🧯 extinguisher").unwrap(), '🧯');
    assert_eq!(m.lookup("fire"), Some('🧯'));
    assert_eq!(resolve(&cat, &m, "fire", 1), vec!['🧯']);
    assert!(m.erase_mapping("fire").unwrap());
    assert_eq!(m.lookup("fire"), None);
    assert_eq!(resolve(&cat, &m, "fire", 2), vec!['🔥', '🚒']);
    assert!(!m.erase_mapping("fire").unwrap());
    assert!(matches!(m.erase_mapping(""), Err(EmoError::InvalidInput(_))));
}

#[test]
fn save_by_index_and_its_errors() {
    let cat = vec![rec("fire", "U+1F525", &["flame"], None), rec("fire engine", "U+1F692", &[], None)];
    let mut m = EmojiMappings::new();
    assert_eq!(m.save_mapping(&cat, "fire", "2").unwrap(), '🚒');
    assert_eq!(m.lookup("fire"), Some('🚒'));
    assert!(matches!(m.save_mapping(&cat, "fire", "0"), Err(EmoError::InvalidInput(_))));
    assert!(matches!(m.save_mapping(&cat, "fire", "3"), Err(EmoError::InvalidInput(_))));
    assert!(matches!(m.save_mapping(&cat, "", "🔥"), Err(EmoError::InvalidInput(_))));
    assert!(matches!(m.save_mapping(&cat, "fire", ""), Err(EmoError::InvalidInput(_))));
    assert_eq!(m.lookup("fire"), Some('🚒'));
    assert_eq!(m.save_mapping(&cat, "fire", "+1").unwrap(), '🔥');
    assert_eq!(m.save_mapping(&cat, "fire", "-1").unwrap(), '-');
}

#[test]
fn parse_index_follows_usize_parsing() {
    assert_eq!(parse_index("42"), Some(42));
    assert_eq!(parse_index("+7"), Some(7));
    assert_eq!(parse_index("007"), Some(7));
    assert_eq!(parse_index(""), None);
    assert_eq!(parse_index("+"), None);
    assert_eq!(parse_index("-1"), None);
    assert_eq!(parse_index("1a"), None);
    assert_eq!(parse_index("99999999999999999999999"), None);
}

#[test]
fn mappings_entries_and_model() {
    let mut m = EmojiMappings::default();
    assert!(m.is_empty());
    m.insert("a".to_string(), '🔥');
    m.insert("b".to_string(), '🚀');
    m.insert("a".to_string(), '🧪');
    let mut e = m.entries();
    e.sort();
    assert_eq!(e, vec![("a".to_string(), '🧪'), ("b".to_string(), '🚀')]);
    assert_eq!(
        m.listing(),
        vec![("a".to_string(), '🧪'), ("b".to_string(), '🚀')]
    );
    m.insert("B".to_string(), '🐝');
    m.insert("ab".to_string(), '🅰');
    let terms: Vec<String> = m.listing().into_iter().map(|e| e.0).collect();
    assert_eq!(terms, vec!["B", "a", "ab", "b"]);
    m.set_model(Some("phi-2".to_string()));
    assert_eq!(m.model(), Some("phi-2".to_string()));
}

#[test]
fn emoji_ranges() {
    assert!(is_emoji_char('🔥'));
    assert!(is_emoji_char('\u{2600}'));
    assert!(is_emoji_char('\u{27BF}'));
    assert!(is_emoji_char('\u{1F000}'));
    assert!(is_emoji_char('\u{1FAFF}'));
    assert!(!is_emoji_char('\u{25FF}'));
    assert!(!is_emoji_char('\u{1FA6F}'));
    assert!(!is_emoji_char('a'));
}

#[test]
fn prompt_with_and_without_exclusions() {
    assert_eq!(
        build_prompt("a party", &[]),
        "Task: Select ONE emoji that best represents: a party. Reply with only the emoji, nothing else.\nEmoji:"
    );
    assert_eq!(
        build_prompt("a party", &["🎉".to_string(), "🎂".to_string()]),
        "Task: Select ONE emoji that best represents: a party. Do not use: 🎉, 🎂. Reply with only the emoji.\nEmoji:"
    );
}

#[test]
fn scan_stops_at_first_emoji() {
    let mut s = EmojiScan::new();
    assert!(matches!(s.feed_text("Sure"), ScanStep::Continue));
    assert!(matches!(s.feed_text(" 🎉🎂"), ScanStep::Found('🎉')));
    assert_eq!(s.output(), "Sure 🎉🎂");
}

#[test]
fn scan_decodes_bytes_split_across_tokens() {
    let mut s = EmojiScan::new();
    let bytes = "🔥".as_bytes();
    assert!(matches!(s.feed_token(&bytes[..2]), ScanStep::Continue));
    assert!(matches!(s.feed_token(&bytes[2..]), ScanStep::Found('🔥')));
    assert_eq!(s.output(), "🔥");
}

#[test]
fn scan_budgets_and_failure_payload() {
    let mut s = EmojiScan::new();
    for _ in 0..19 {
        assert!(matches!(s.feed_text("a"), ScanStep::Continue));
    }
    assert!(matches!(s.feed_text("a"), ScanStep::Exhausted));
    assert!(matches!(s.feed_text("🔥"), ScanStep::Exhausted));
    match s.failure() {
        EmoError::ConfigError(m) => assert_eq!(
            m,
            format!("LLM did not generate an emoji. Generated text: '{}'", "a".repeat(20))
        ),
        _ => panic!("wrong error kind"),
    }
    let mut t = EmojiScan::new();
    assert!(matches!(t.feed_text(&"x".repeat(50)), ScanStep::Continue));
    assert!(matches!(t.feed_text("y"), ScanStep::Exhausted));
}

/// A stand-in for the model: answers with the first emoji of its list that
/// the prompt does not exclude, so without exclusions it repeats itself.
fn double_model(prompt: &str) -> String {
    let banned = prompt.split("Do not use: ").nth(1).unwrap_or("");
    for e in ["🧛", "🍐", "💘"] {
        if !banned.contains(e) {
            return format!("Here: {}", e);
        }
    }
    "none".to_string()
}

#[test]
fn sentence_never_repeats_with_exclusions() {
    let mut sentence = EmojiSentence::new(3);
    while !sentence.is_complete() {
        let prompt = build_prompt("vampire eating a pear", &sentence.exclusions());
        let mut scan = EmojiScan::new();
        match scan.feed_text(&double_model(&prompt)) {
            ScanStep::Found(c) => assert!(sentence.record(c)),
            _ => panic!("no emoji"),
        }
    }
    assert_eq!(sentence.text(), "🧛🍐💘");
    assert_eq!(sentence.exclusions(), vec!["🧛".to_string(), "🍐".to_string(), "💘".to_string()]);
}

#[test]
fn sentence_refuses_a_repeated_pick() {
    let mut sentence = EmojiSentence::new(3);
    assert!(sentence.record('🔥'));
    assert!(sentence.has_picked('🔥'));
    assert!(!sentence.record('🔥'));
    assert!(!sentence.is_complete());
    assert!(sentence.record('🚀'));
    assert_eq!(sentence.text(), "🔥🚀");
}

#[test]
fn error_messages_name_the_offending_value() {
    let cat = vec![rec("fire", "U+1F525", &["flame"], None), rec("fire engine", "U+1F692", &[], None)];
    let mut m = EmojiMappings::new();
    let msg = |r: Result<char, EmoError>| match r {
        Err(EmoError::InvalidInput(s)) => s,
        _ => panic!("expected an input error"),
    };
    assert_eq!(msg(m.save_mapping(&cat, "fire", "12")), "Only 2 results found, cannot select index 12");
    assert_eq!(msg(m.save_mapping(&cat, "fire", "0")), "Index must be greater than 0");
    assert_eq!(msg(m.save_mapping(&cat, "", "x")), "Cannot save mapping for empty search term or emoji");
    match m.erase_mapping("") {
        Err(EmoError::InvalidInput(s)) => assert_eq!(s, "Cannot erase mapping for empty search term"),
        _ => panic!("expected an input error"),
    }
    let dec = |u: &str| match to_char(&rec("x", u, &[], None)) {
        Err(EmoError::InvalidInput(s)) => s,
        _ => panic!("expected an input error"),
    };
    assert_eq!(dec("  "), "Invalid unicode:   ");
    assert_eq!(dec("U+1G"), "Invalid hex code: 1G");
    assert_eq!(dec("U+D800"), "Invalid code point: 55296");
}

#[test]
fn catalog_admits_single_code_points_only() {
    let admitted = admit_records(vec![
        rec("man vampire", "U+1F9DB U+200D U+2642", &[], None),
        rec("vampire", "U+1F9DB", &[], None),
    ]);
    assert_eq!(admitted.len(), 1);
    assert_eq!(admitted[0].name, "vampire");
    let cat = load_emojis();
    assert!(cat.iter().all(|r| !r.unicode.contains(' ')));
    assert_eq!(cat.len(), 26);
    assert_eq!(cat[0].name, "grinning face");
    assert_eq!(cat[7].name, "fire");
    assert_eq!(cat[7].keywords, vec!["flame", "hot", "lit"]);
    assert!(cat.iter().all(|r| r.name != "man vampire"));
}
