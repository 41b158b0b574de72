//! A set of words built once and then only queried: insertion order is
//! kept, duplicates are dropped, and membership is exact string equality
//! on already-normalized tokens.

use vstd::prelude::*;

verus! {

/// Fold a word list into set contents: each word is appended to the
/// accumulator unless an equal word is already there.
pub open spec fn dedup_from(acc: Seq<Seq<char>>, ws: Seq<Seq<char>>) -> Seq<Seq<char>>
    decreases ws.len(),
{
    if ws.len() == 0 {
        acc
    } else if acc.contains(ws[0]) {
        dedup_from(acc, ws.drop_first())
    } else {
        dedup_from(acc.push(ws[0]), ws.drop_first())
    }
}

/// The folded contents hold exactly the accumulated and listed words.
pub proof fn lemma_dedup_contains(acc: Seq<Seq<char>>, ws: Seq<Seq<char>>, w: Seq<char>)
    ensures
        dedup_from(acc, ws).contains(w) <==> (acc.contains(w) || ws.contains(w)),
    decreases ws.len(),
{
    if ws.len() == 0 {
        assert(!ws.contains(w));
    } else {
        lemma_dedup_contains(if acc.contains(ws[0]) {
            acc
        } else {
            acc.push(ws[0])
        }, ws.drop_first(), w);
        assert(ws.contains(w) <==> (ws[0] == w || ws.drop_first().contains(w))) by {
            if ws.contains(w) {
                let i = choose|i: int| 0 <= i < ws.len() && ws[i] == w;
                if i > 0 {
                    assert(ws.drop_first()[i - 1] == w);
                }
            }
            if ws.drop_first().contains(w) {
                let i = choose|i: int| 0 <= i < ws.drop_first().len() && ws.drop_first()[i] == w;
                assert(ws[i + 1] == w);
            }
        }
        assert(acc.push(ws[0]).contains(w) <==> (acc.contains(w) || ws[0] == w)) by {
            if acc.contains(w) {
                let i = choose|i: int| 0 <= i < acc.len() && acc[i] == w;
                assert(acc.push(ws[0])[i] == w);
            }
            if ws[0] == w {
                assert(acc.push(ws[0])[acc.len() as int] == w);
            }
            if acc.push(ws[0]).contains(w) {
                let i = choose|i: int| 0 <= i < acc.push(ws[0]).len() && acc.push(ws[0])[i] == w;
                if i < acc.len() {
                    assert(acc[i] == w);
                }
            }
        }
    }
}

/// A word set: an insertion-ordered, duplicate-free list of words with
/// exact-equality membership tests.
#[derive(Debug)]
pub struct WordSet {
    items: Vec<String>,
}

impl PartialEq for WordSet {
    /// Two word sets are equal when they store the same words in the
    /// same order.
    fn eq(&self, other: &WordSet) -> (r: bool) {
        let n = self.items.len();
        if n != other.items.len() {
            assert(self.items.deep_view().len() != other.items.deep_view().len());
            return false;
        }
        let mut i: usize = 0;
        while i < n
            invariant
                n == self.items@.len(),
                n == other.items@.len(),
                i <= n,
                forall|j: int|
                    0 <= j < i ==> self.items.deep_view()[j] == other.items.deep_view()[j],
            decreases n - i,
        {
            let x: &String = &self.items[i];
            if !x.eq(&other.items[i]) {
                assert(self.items.deep_view()[i as int] != other.items.deep_view()[i as int]);
                return false;
            }
            i = i + 1;
        }
        assert(self.items.deep_view() =~= other.items.deep_view());
        true
    }
}

impl vstd::std_specs::cmp::PartialEqSpecImpl for WordSet {
    open spec fn obeys_eq_spec() -> bool {
        true
    }

    open spec fn eq_spec(&self, other: &WordSet) -> bool {
        self.spec_words() == other.spec_words()
    }
}

impl WordSet {
    /// The stored words, in insertion order.
    pub closed spec fn spec_words(self) -> Seq<Seq<char>> {
        self.items.deep_view()
    }

    /// Membership: some stored word equals `w`.
    pub open spec fn spec_contains(self, w: Seq<char>) -> bool {
        self.spec_words().contains(w)
    }

    /// The empty word set.
    pub fn new() -> (r: WordSet)
        ensures
            r.spec_words() == Seq::<Seq<char>>::empty(),
    {
        let r = WordSet { items: Vec::new() };
        proof {
            assert(r.spec_words() =~= Seq::<Seq<char>>::empty());
        }
        r
    }

    /// How many distinct words the set holds.
    pub fn len(&self) -> (n: usize)
        ensures
            n == self.spec_words().len(),
    {
        self.items.len()
    }

    /// Exact membership test.
    pub fn contains(&self, w: &String) -> (r: bool)
        ensures
            r == self.spec_contains(w@),
    {
        let n = self.items.len();
        let mut i: usize = 0;
        while i < n
            invariant
                n == self.items@.len(),
                i <= n,
                forall|j: int| 0 <= j < i ==> self.spec_words()[j] != w@,
            decreases n - i,
        {
            let x: &String = &self.items[i];
            if x.eq(w) {
                assert(self.spec_words()[i as int] == w@);
                return true;
            }
            i = i + 1;
        }
        assert(!self.spec_contains(w@)) by {
            if self.spec_contains(w@) {
                let j = choose|j: int|
                    0 <= j < self.spec_words().len() && self.spec_words()[j] == w@;
            }
        }
        false
    }

    /// Add a word unless an equal one is already stored.
    pub fn insert(&mut self, w: String)
        ensures
            final(self).spec_words() == (if old(self).spec_contains(w@) {
                old(self).spec_words()
            } else {
                old(self).spec_words().push(w@)
            }),
    {
        if !self.contains(&w) {
            let ghost before = self.items.deep_view();
            self.items.push(w);
            assert(self.items.deep_view() =~= before.push(w@));
        }
    }
}

/// Build the word set of a word list: every listed word becomes a member,
/// first occurrences kept in order, duplicates dropped.
pub fn to_hashset(word_list: Vec<String>) -> (r: WordSet)
    ensures
        r.spec_words() == dedup_from(Seq::empty(), word_list.deep_view()),
        forall|w: Seq<char>|
            #[trigger] r.spec_contains(w) <==> word_list.deep_view().contains(w),
{
    let ghost all = word_list.deep_view();
    let n = word_list.len();
    let mut r = WordSet::new();
    let mut i: usize = 0;
    assert(all.skip(0) =~= all);
    while i < n
        invariant
            n == word_list@.len(),
            i <= n,
            all == word_list.deep_view(),
            dedup_from(r.spec_words(), all.skip(i as int)) == dedup_from(Seq::empty(), all),
        decreases n - i,
    {
        let ghost rest = all.skip(i as int);
        assert(rest.drop_first() =~= all.skip(i as int + 1));
        assert(rest[0] == all[i as int]);
        let w = word_list[i].clone();
        assert(w@ == all[i as int]);
        r.insert(w);
        i = i + 1;
    }
    assert(all.skip(n as int) =~= Seq::<Seq<char>>::empty());
    proof {
        assert forall|w: Seq<char>| #[trigger] r.spec_contains(w) <==> all.contains(w) by {
            lemma_dedup_contains(Seq::empty(), all, w);
            assert(!Seq::<Seq<char>>::empty().contains(w));
        }
    }
    r
}

} // verus!
