use spel::{ratio, ratio_ge, ratio_is_one};

#[test]
fn ratio_of_word_with_itself_is_one() {
    let r = ratio("word", "word");
    assert_eq!(r.num, 8);
    assert_eq!(r.den, 8);
    assert!(ratio_is_one(&r));

    let r = ratio("a", "a");
    assert!(ratio_is_one(&r));
}

#[test]
fn ratio_of_two_empty_strings_is_one() {
    let r = ratio("", "");
    assert_eq!(r.num, 0);
    assert_eq!(r.den, 0);
    assert!(ratio_is_one(&r));
}

#[test]
fn ratio_stays_in_unit_interval() {
    for (a, b) in [
        ("", "abc"),
        ("abc", ""),
        ("abc", "xyz"),
        ("kitten", "sitting"),
        ("this", "thiss"),
        ("abcd", "bcde"),
    ] {
        let r = ratio(a, b);
        assert!(r.num <= r.den);
    }
}

#[test]
fn ratio_exact_values() {
    // Longest block "bcd"; nothing matches around it: 2*3 / (4+4).
    let r = ratio("abcd", "bcde");
    assert_eq!(r.num, 6);
    assert_eq!(r.den, 8);

    // Longest block "this": 2*4 / (4+5).
    let r = ratio("this", "thiss");
    assert_eq!(r.num, 8);
    assert_eq!(r.den, 9);

    // No common character at all.
    let r = ratio("abc", "xyz");
    assert_eq!(r.num, 0);
    assert_eq!(r.den, 6);
}

#[test]
fn ratio_ge_compares_fractions_exactly() {
    let lower = ratio("abcd", "bcde");  // 6/8
    let higher = ratio("this", "thiss");  // 8/9
    assert!(ratio_ge(&higher, &lower));
    assert!(!ratio_ge(&lower, &higher));
    // 0/0 counts as one, the greatest value.
    let one = ratio("", "");
    assert!(ratio_ge(&one, &higher));
    assert!(!ratio_ge(&higher, &one));
    assert!(ratio_ge(&one, &one));
}
