//! Ranker: scores every dictionary word against a query with the
//! similarity engine and orders the candidates by descending ratio,
//! breaking ties by original dictionary position.

use vstd::prelude::*;
use crate::similarity::{
    is_ratio_of, lemma_gestalt_one_eq, lemma_gestalt_self, ratio_ge, ratio_is_one,
    ratio_of_chars, ratio_wf, spec_ratio_ge, spec_ratio_is_one, str_to_chars, Ratio,
};

verus! {

/// One ranked suggestion: the similarity ratio of the query against the
/// dictionary word at `index`, together with that word.
pub struct MatchCandidate {
    pub ratio: Ratio,
    pub index: usize,
    pub word: String,
}

/// The candidate correctly describes the dictionary entry it points at.
pub open spec fn cand_wf(c: MatchCandidate, query: Seq<char>, words: Seq<Seq<char>>) -> bool {
    &&& c.index < words.len()
    &&& c.word@ == words[c.index as int]
    &&& is_ratio_of(c.ratio, query, words[c.index as int])
    &&& ratio_wf(c.ratio)
}

/// Ranking order: `x` may stand before `y` when its ratio is higher, or
/// equal with a dictionary position that is not later.
pub open spec fn cand_le(x: MatchCandidate, y: MatchCandidate) -> bool {
    if spec_ratio_ge(x.ratio, y.ratio) && spec_ratio_ge(y.ratio, x.ratio) {
        x.index <= y.index
    } else {
        spec_ratio_ge(x.ratio, y.ratio)
    }
}

pub open spec fn sorted_cands(s: Seq<MatchCandidate>) -> bool {
    forall|p: int, q: int| 0 <= p < q < s.len() ==> cand_le(s[p], s[q])
}

/// Some candidate in `r` points at dictionary position `idx`.
pub open spec fn index_present(r: Seq<MatchCandidate>, idx: int) -> bool {
    exists|p: int| 0 <= p < r.len() && #[trigger] r[p].index == idx
}

/// No two candidates in `r` point at the same dictionary position.
pub open spec fn indexes_distinct(r: Seq<MatchCandidate>) -> bool {
    forall|p: int, q: int| 0 <= p < q < r.len() ==> r[p].index != r[q].index
}

/// What `find_word` promises: the candidates are a permutation of the
/// dictionary positions (every position appears, none twice), each
/// candidate scored and labelled correctly, the whole ordered by
/// descending ratio with ties in dictionary order.
pub open spec fn find_word_post(
    r: Seq<MatchCandidate>,
    query: Seq<char>,
    words: Seq<Seq<char>>,
) -> bool {
    &&& r.len() == words.len()
    &&& forall|p: int| 0 <= p < r.len() ==> cand_wf(#[trigger] r[p], query, words)
    &&& sorted_cands(r)
    &&& forall|idx: int| 0 <= idx < words.len() ==> #[trigger] index_present(r, idx)
    &&& indexes_distinct(r)
}

/// Comparing ratios is transitive.
pub proof fn lemma_ratio_ge_trans(x: Ratio, y: Ratio, z: Ratio)
    requires
        spec_ratio_ge(x, y),
        spec_ratio_ge(y, z),
    ensures
        spec_ratio_ge(x, z),
{
    let (xn, xd) = (crate::similarity::val_num(x), crate::similarity::val_den(x));
    let (yn, yd) = (crate::similarity::val_num(y), crate::similarity::val_den(y));
    let (zn, zd) = (crate::similarity::val_num(z), crate::similarity::val_den(z));
    assert(xn * zd >= zn * xd) by (nonlinear_arith)
        requires
            xn * yd >= yn * xd,
            yn * zd >= zn * yd,
            xd > 0,
            yd > 0,
            zd > 0,
    ;
}

/// The ranking order is transitive.
pub proof fn lemma_cand_le_trans(x: MatchCandidate, y: MatchCandidate, z: MatchCandidate)
    requires
        cand_le(x, y),
        cand_le(y, z),
    ensures
        cand_le(x, z),
{
    lemma_ratio_ge_trans(x.ratio, y.ratio, z.ratio);
    if spec_ratio_ge(x.ratio, z.ratio) && spec_ratio_ge(z.ratio, x.ratio) {
        lemma_ratio_ge_trans(z.ratio, x.ratio, y.ratio);
        lemma_ratio_ge_trans(y.ratio, z.ratio, x.ratio);
    }
}

fn cand_before(x: &MatchCandidate, y: &MatchCandidate) -> (r: bool)
    ensures
        r == cand_le(*x, *y),
{
    let ge_xy = ratio_ge(&x.ratio, &y.ratio);
    let ge_yx = ratio_ge(&y.ratio, &x.ratio);
    if ge_xy && ge_yx {
        x.index <= y.index
    } else {
        ge_xy
    }
}

/// Insert `c` into the sorted candidate list, before the first entry that
/// must come after it; returns the insertion position.
fn insert_sorted(res: &mut Vec<MatchCandidate>, c: MatchCandidate) -> (p: usize)
    requires
        sorted_cands(old(res)@),
        old(res)@.len() < usize::MAX,
    ensures
        p <= old(res)@.len(),
        final(res)@ == old(res)@.insert(p as int, c),
        sorted_cands(final(res)@),
{
    let ghost c0 = c;
    let n = res.len();
    let mut p: usize = 0;
    while p < n && cand_before(&res[p], &c)
        invariant
            n == res@.len(),
            p <= n,
            c == c0,
            forall|q: int| 0 <= q < p ==> cand_le(res@[q], c0),
        decreases n - p,
    {
        p = p + 1;
    }
    assert(p == n || cand_le(c0, res@[p as int])) by {
        if p < n && !cand_le(res@[p as int], c0) {
            assert(spec_ratio_ge(c0.ratio, res@[p as int].ratio) || spec_ratio_ge(
                res@[p as int].ratio,
                c0.ratio,
            ));
        }
    }
    let ghost before = res@;
    res.insert(p, c);
    assert(sorted_cands(res@)) by {
        assert forall|a: int, b: int| 0 <= a < b < res@.len() implies cand_le(
            res@[a],
            res@[b],
        ) by {
            if a < p && b < p {
            } else if a < p && b == p {
            } else if a < p && b > p {
                assert(res@[b] == before[b - 1]);
            } else if a == p && b > p {
                assert(res@[b] == before[b - 1]);
                if p < n {
                    lemma_cand_le_trans(c0, before[p as int], before[b - 1]);
                }
            } else {
                assert(res@[a] == before[a - 1] && res@[b] == before[b - 1]);
            }
        }
    }
    p
}

fn clone_cand(c: &MatchCandidate) -> (r: MatchCandidate)
    ensures
        r == *c,
{
    MatchCandidate { ratio: c.ratio, index: c.index, word: c.word.clone() }
}

/// Rank every word of a non-empty dictionary against the query: the
/// result holds one scored candidate per dictionary word, ordered by
/// descending similarity ratio, ties kept in dictionary order.
pub fn find_word(word: &str, word_list: &Vec<String>) -> (r: Vec<MatchCandidate>)
    requires
        word_list@.len() > 0,
        forall|i: int|
            0 <= i < word_list@.len() ==> word@.len() + (#[trigger] word_list@[i])@.len()
                <= u64::MAX,
    ensures
        find_word_post(r@, word@, word_list.deep_view()),
{
    let qchars = str_to_chars(word);
    let mut r: Vec<MatchCandidate> = Vec::new();
    let mut idx: usize = 0;
    let n = word_list.len();
    while idx < n
        invariant
            n == word_list@.len(),
            idx <= n,
            qchars@ == word@,
            r@.len() == idx,
            forall|i: int|
                0 <= i < word_list@.len() ==> word@.len() + (#[trigger] word_list@[i])@.len()
                    <= u64::MAX,
            sorted_cands(r@),
            forall|p: int|
                0 <= p < r@.len() ==> cand_wf(#[trigger] r@[p], word@, word_list.deep_view()),
            forall|i2: int| 0 <= i2 < idx ==> #[trigger] index_present(r@, i2),
            forall|p: int| 0 <= p < r@.len() ==> (#[trigger] r@[p]).index < idx,
            indexes_distinct(r@),
        decreases n - idx,
    {
        let w: &String = &word_list[idx];
        let wchars = str_to_chars(w.as_str());
        let rat = ratio_of_chars(&qchars, &wchars);
        let c = MatchCandidate { ratio: rat, index: idx, word: w.clone() };
        assert(cand_wf(c, word@, word_list.deep_view()));
        let ghost old_r = r@;
        let p = insert_sorted(&mut r, c);
        assert forall|q: int| 0 <= q < r@.len() implies cand_wf(
            #[trigger] r@[q],
            word@,
            word_list.deep_view(),
        ) by {
            if q < p {
                assert(r@[q] == old_r[q]);
            } else if q == p {
                assert(r@[q] == c);
            } else {
                assert(r@[q] == old_r[q - 1]);
            }
        }
        assert forall|q: int| 0 <= q < r@.len() implies (#[trigger] r@[q]).index < idx + 1 by {
            if q < p {
                assert(r@[q] == old_r[q]);
            } else if q == p {
                assert(r@[q] == c);
            } else {
                assert(r@[q] == old_r[q - 1]);
            }
        }
        assert forall|p2: int, q2: int| 0 <= p2 < q2 < r@.len() implies r@[p2].index
            != r@[q2].index by {
            let o = |x: int| if x < p { old_r[x] } else { old_r[x - 1] };
            if p2 != p && q2 != p {
                assert(r@[p2] == o(p2) && r@[q2] == o(q2));
            } else if p2 == p {
                assert(r@[p2] == c && r@[q2] == o(q2) && o(q2).index < idx);
            } else {
                assert(r@[q2] == c && r@[p2] == o(p2) && o(p2).index < idx);
            }
        }
        assert forall|i2: int| 0 <= i2 < idx + 1 implies #[trigger] index_present(r@, i2) by {
            if i2 == idx {
                assert(r@[p as int].index == i2);
            } else {
                assert(index_present(old_r, i2));
                let p0 = choose|p0: int| 0 <= p0 < old_r.len() && #[trigger] old_r[p0].index == i2;
                if p0 < p {
                    assert(r@[p0].index == i2);
                } else {
                    assert(r@[p0 + 1].index == i2);
                }
            }
        }
        idx = idx + 1;
    }
    r
}

/// How many entries a top-N listing shows, scanning from position `i`:
/// it stops right after the first perfect match, and never shows more
/// than `topn` entries.
pub open spec fn display_count(r: Seq<MatchCandidate>, topn: int, i: int) -> int
    decreases topn - i,
{
    if i >= topn {
        i
    } else if spec_ratio_is_one(r[i].ratio) {
        i + 1
    } else {
        display_count(r, topn, i + 1)
    }
}

/// A top-N listing shows at least one entry per position scanned and
/// never more than `topn`.
pub proof fn lemma_display_count_bounds(r: Seq<MatchCandidate>, topn: int, i: int)
    requires
        0 <= i <= topn,
    ensures
        i <= display_count(r, topn, i) <= topn,
    decreases topn - i,
{
    if i < topn && !spec_ratio_is_one(r[i].ratio) {
        lemma_display_count_bounds(r, topn, i + 1);
    }
}

/// The prefix of the ranked matches that a top-N listing shows: at most
/// `top` entries, clamped to the number of matches, stopping right after
/// the first entry whose ratio is exactly one (no candidate can be more
/// similar than a perfect match).
pub fn top_matches(matches: &Vec<MatchCandidate>, top: usize) -> (r: Vec<MatchCandidate>)
    ensures
        ({
            let topn = if matches@.len() < top { matches@.len() as int } else { top as int };
            r@ == matches@.subrange(0, display_count(matches@, topn, 0))
        }),
        r@.len() <= matches@.len(),
        r@.len() <= top,
{
    proof {
        let topn = if matches@.len() < top { matches@.len() as int } else { top as int };
        lemma_display_count_bounds(matches@, topn, 0);
    }
    let topn = if matches.len() < top { matches.len() } else { top };
    let mut r: Vec<MatchCandidate> = Vec::new();
    let mut i: usize = 0;
    while i < topn
        invariant
            topn <= matches@.len(),
            topn as int == (if matches@.len() < top {
                matches@.len() as int
            } else {
                top as int
            }),
            i <= topn,
            r@ =~= matches@.subrange(0, i as int),
            display_count(matches@, topn as int, 0) == display_count(matches@, topn as int, i as int),
        decreases topn - i,
    {
        let c = clone_cand(&matches[i]);
        assert(c == matches@[i as int]);
        let one = ratio_is_one(&c.ratio);
        r.push(c);
        assert(r@ =~= matches@.subrange(0, i + 1));
        if one {
            assert(display_count(matches@, topn as int, i as int) == i + 1);
            assert(r@ =~= matches@.subrange(0, display_count(matches@, topn as int, 0)));
            return r;
        }
        assert(display_count(matches@, topn as int, i as int) == display_count(
            matches@,
            topn as int,
            i + 1,
        ));
        i = i + 1;
    }
    assert(display_count(matches@, topn as int, i as int) == i as int);
    assert(r@ =~= matches@.subrange(0, display_count(matches@, topn as int, 0)));
    r
}

/// When the dictionary holds the query itself, the top-ranked candidate
/// is that word with a ratio of exactly one, so a top-N listing may stop
/// at it.
pub proof fn lemma_exact_match_first(
    r: Seq<MatchCandidate>,
    query: Seq<char>,
    words: Seq<Seq<char>>,
    idx: int,
)
    requires
        find_word_post(r, query, words),
        0 <= idx < words.len(),
        words[idx] == query,
    ensures
        r.len() > 0,
        spec_ratio_is_one(r[0].ratio),
        r[0].word@ == query,
{
    assert(index_present(r, idx));
    let p = choose|p: int| 0 <= p < r.len() && #[trigger] r[p].index == idx;
    assert(cand_wf(r[p], query, words));
    lemma_gestalt_self(query);
    assert(spec_ratio_is_one(r[p].ratio));
    let first = r[0];
    if p > 0 {
        assert(cand_le(first, r[p]));
    }
    assert(spec_ratio_ge(first.ratio, r[p].ratio));
    let v = crate::similarity::val_den(r[p].ratio);
    assert(crate::similarity::val_num(r[p].ratio) == v && v > 0);
    let fnum = crate::similarity::val_num(first.ratio);
    let fden = crate::similarity::val_den(first.ratio);
    assert(fnum >= fden) by (nonlinear_arith)
        requires
            fnum * v >= v * fden,
            v > 0,
    ;
    assert(spec_ratio_is_one(first.ratio));
    assert(cand_wf(first, query, words));
    lemma_gestalt_self(words[first.index as int]);
    lemma_gestalt_one_eq(query, words[first.index as int]);
}

/// With the query itself in the dictionary, a top-N listing shows
/// exactly the perfect match in first place and stops there.
pub proof fn lemma_top_stops_at_exact(
    r: Seq<MatchCandidate>,
    query: Seq<char>,
    words: Seq<Seq<char>>,
    idx: int,
    topn: int,
)
    requires
        find_word_post(r, query, words),
        0 <= idx < words.len(),
        words[idx] == query,
        topn >= 1,
    ensures
        display_count(r, topn, 0) == 1,
{
    lemma_exact_match_first(r, query, words, idx);
}

} // verus!
