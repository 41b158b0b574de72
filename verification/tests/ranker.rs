use spel::{find_word, top_matches};

fn dict(words: &[&str]) -> Vec<String> {
    words.iter().map(|w| w.to_string()).collect()
}

#[test]
fn exact_query_word_ranks_first_with_ratio_one() {
    let words = dict(&["monkey", "this", "banana"]);
    let m = find_word("this", &words);
    assert_eq!(m.len(), 3);
    assert_eq!(m[0].word, "this");
    assert_eq!(m[0].index, 1);
    assert_eq!(m[0].ratio.num, m[0].ratio.den);
    // The top-N iteration may stop at the perfect match.
    let top = top_matches(&m, 5);
    assert_eq!(top.len(), 1);
    assert_eq!(top[0].word, "this");
}

#[test]
fn top_n_clamps_to_dictionary_size() {
    let words = dict(&["alpha", "beta"]);
    let m = find_word("gamma", &words);
    assert_eq!(m.len(), 2);
    let top = top_matches(&m, 10);
    assert_eq!(top.len(), 2);
}

#[test]
fn candidates_are_sorted_by_descending_ratio() {
    let words = dict(&["xylophone", "thiss", "thus", "qqq"]);
    let m = find_word("this", &words);
    assert_eq!(m.len(), 4);
    for w in m.windows(2) {
        // num/den of the earlier entry is at least that of the later one.
        let (a, b) = (&w[0].ratio, &w[1].ratio);
        assert!(a.num as u128 * b.den as u128 >= b.num as u128 * a.den as u128);
    }
    assert_eq!(m[0].word, "thiss");
    assert_eq!(m[3].word, "qqq");
}

#[test]
fn equal_ratios_keep_dictionary_order() {
    // Both words score the same against the query.
    let words = dict(&["abx", "aby"]);
    let m = find_word("ab", &words);
    assert_eq!(m[0].index, 0);
    assert_eq!(m[1].index, 1);
}

#[test]
fn top_listing_keeps_entries_up_to_first_perfect_match() {
    let words = dict(&["thus", "thiss", "this", "qqq"]);
    let m = find_word("this", &words);
    assert_eq!(m[0].word, "this");
    let top = top_matches(&m, 3);
    assert_eq!(top.len(), 1);
}
