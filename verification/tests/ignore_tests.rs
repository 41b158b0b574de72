use spel::{get_ignore_file_contents, get_ignore_list, trim_str};

#[test]
fn test_get_ignore_list() {
    let s = Some("a,b,c".to_string());

    assert_eq!(
        get_ignore_list(&s, vec![]),
        vec!["a".to_string(), "b".to_string(), "c".to_string()],
    );

    let s2 = Some("a , b  , c,".to_string());
    assert_eq!(
        get_ignore_list(&s2, vec![]),
        vec!["a".to_string(), "b".to_string(), "c".to_string()],
    );

    let s3 = Some("  , ".to_string());
    assert!(get_ignore_list(&s3, vec![]).len() == 0);

    let s4 = None;
    assert!(get_ignore_list(&s4, vec![]).len() == 0);
}

#[test]
fn ignore_list_merges_file_words_first() {
    let file_words = vec!["kept".to_string(), "also".to_string()];
    let s = Some("cli".to_string());
    assert_eq!(
        get_ignore_list(&s, file_words.clone()),
        vec!["kept".to_string(), "also".to_string(), "cli".to_string()],
    );
    assert_eq!(get_ignore_list(&None, file_words.clone()), file_words);
}

#[test]
fn ignore_file_lines_are_trimmed_and_blanks_dropped() {
    let lines = vec![
        "  alpha ".to_string(),
        "".to_string(),
        "   ".to_string(),
        "beta".to_string(),
    ];
    assert_eq!(
        get_ignore_file_contents(&lines),
        vec!["alpha".to_string(), "beta".to_string()],
    );
    assert!(get_ignore_file_contents(&vec![]).is_empty());
}

#[test]
fn trim_removes_surrounding_whitespace_only() {
    assert_eq!(trim_str("  a b \t"), "a b");
    assert_eq!(trim_str(""), "");
    assert_eq!(trim_str(" \t\r\n"), "");
    assert_eq!(trim_str("x"), "x");
}
