use spel::{get_words, to_hashset, WordSet};

#[test]
fn test_get_words() {
    let bytes = b"this\nis\na\nword\n";
    assert_eq!(get_words(bytes), vec!["this", "is", "a", "word"]);

    let bytes = b"a\ndifferent\ntest";
    assert_eq!(get_words(bytes), vec!["a", "different", "test"]);
}

#[test]
fn test_to_hashset() {
    let words = vec!["blah".to_string(), "monkey".to_string()];
    let mut hs = WordSet::new();
    hs.insert("blah".to_string());
    hs.insert("monkey".to_string());
    assert_eq!(to_hashset(words), hs);

    let words = vec![
        "blah".to_string(),
        "monkey".to_string(),
        "blah".to_string(),
    ];
    assert_eq!(to_hashset(words), hs);
}

#[test]
fn get_words_keeps_blank_lines() {
    let bytes = b"a\n\nb";
    assert_eq!(get_words(bytes), vec!["a", "", "b"]);
    assert!(get_words(b"").is_empty());
}

#[test]
fn get_words_replaces_invalid_bytes() {
    // 0xFF is never valid UTF-8; the load must not fail.
    let bytes = b"ok\n\xFF\nalso";
    let words = get_words(bytes);
    assert_eq!(words.len(), 3);
    assert_eq!(words[0], "ok");
    assert_eq!(words[1], "\u{FFFD}");
    assert_eq!(words[2], "also");
}

#[test]
fn word_set_membership_is_exact() {
    let ws = to_hashset(vec!["this".to_string(), "test".to_string()]);
    assert!(ws.contains(&"this".to_string()));
    assert!(ws.contains(&"test".to_string()));
    assert!(!ws.contains(&"This".to_string()));
    assert!(!ws.contains(&"tes".to_string()));
    assert_eq!(ws.len(), 2);
}
