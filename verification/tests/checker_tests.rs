use spel::{check_file, check_files, missing_tokens, to_hashset, SourceText, WordSet};

fn dict(words: &[&str]) -> WordSet {
    to_hashset(words.iter().map(|w| w.to_string()).collect())
}

#[test]
fn misspelled_tokens_are_reported_with_location() {
    let words = dict(&["this", "is", "a", "test"]);
    let ign = WordSet::new();
    let files = vec![SourceText {
        name: "file".to_string(),
        lines: vec![Some("Thiss is a tesst".to_string())],
    }];
    let r = check_files(&files, &words, &ign);
    assert_eq!(r.len(), 2);
    assert_eq!(r[0].source, "file");
    assert_eq!(r[0].line, 1);
    assert_eq!(r[0].word, "thiss");
    assert_eq!(r[1].source, "file");
    assert_eq!(r[1].line, 1);
    assert_eq!(r[1].word, "tesst");
}

#[test]
fn undecodable_lines_still_count_for_numbering() {
    let words = dict(&["this", "is", "a", "test"]);
    let ign = WordSet::new();
    let lines = vec![None, Some("zzz is a test".to_string())];
    let r = check_file(&"f".to_string(), &lines, &words, &ign);
    assert_eq!(r.len(), 1);
    assert_eq!(r[0].word, "zzz");
    assert_eq!(r[0].line, 2);
}

#[test]
fn ignored_words_are_not_reported() {
    let words = dict(&["is"]);
    let ign = dict(&["zzz"]);
    let r = missing_tokens("zzz is qqq", &words, &ign);
    assert_eq!(r, vec!["qqq".to_string()]);
}

#[test]
fn checker_normalizes_before_membership() {
    // Tokens are lowercased and stripped before the set lookup.
    let words = dict(&["this", "test"]);
    let ign = WordSet::new();
    let r = missing_tokens("This test's fine", &words, &ign);
    assert_eq!(r, vec!["fine".to_string()]);
}

#[test]
fn findings_follow_source_order() {
    let words = dict(&["ok"]);
    let ign = WordSet::new();
    let files = vec![
        SourceText { name: "one".to_string(), lines: vec![Some("ok bad".to_string())] },
        SourceText { name: "two".to_string(), lines: vec![Some("worse".to_string())] },
    ];
    let r = check_files(&files, &words, &ign);
    assert_eq!(r.len(), 2);
    assert_eq!(r[0].source, "one");
    assert_eq!(r[0].word, "bad");
    assert_eq!(r[1].source, "two");
    assert_eq!(r[1].word, "worse");
}
