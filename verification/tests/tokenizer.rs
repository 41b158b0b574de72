use spel::{check_token, strip_apost, tokenize};

#[test]
fn test_tokenize() {
    let test1 = "this is a test";

    // Basic test
    let res = tokenize(test1);
    assert_eq!(res, vec!["this", "is", "a", "test"]);

    // Test special chars
    let test2 = "a hyphen-ated word that's life::monkey";
    let res = tokenize(test2);
    assert_eq!(res, vec!["a", "hyphen-ated", "word", "that", "life", "monkey"]);

    // Test casing
    let test3 = "A Bad Deal";
    let res = tokenize(test3);
    assert_eq!(res, vec!["a", "bad", "deal"]);
}

#[test]
fn test_check_token() {
    assert!(check_token("abc"));
    assert!(!check_token("--"));
    assert!(!check_token("1"));
}

#[test]
fn test_strip_apost() {
    assert_eq!(strip_apost("jay's"), "jay");
    assert_eq!(strip_apost("players'"), "players");
    assert_eq!(strip_apost("ja'y"), "ja'y");
}

#[test]
fn strip_apost_applies_one_rule_only() {
    // Exactly one stripping rule applies; the result is not re-checked.
    assert_eq!(strip_apost("don''s"), "don'");
    assert_eq!(strip_apost("'s"), "");
    assert_eq!(strip_apost("s'"), "s");
}

#[test]
fn tokenize_discards_markers_and_digits() {
    // A run of hyphens or apostrophes alone is no token.
    assert_eq!(tokenize("-- '' - word"), vec!["word"]);
    // A bare number is no token, but digits may sit inside a word.
    assert_eq!(tokenize("42 abc123 7"), vec!["abc123"]);
    // Empty input and all-boundary input give nothing.
    assert!(tokenize("").is_empty());
    assert!(tokenize(" .,;: !").is_empty());
}

#[test]
fn tokenize_strips_possessives_per_token() {
    assert_eq!(tokenize("it's Jay's book"), vec!["it", "jay", "book"]);
    assert_eq!(tokenize("players' union"), vec!["players", "union"]);
}
