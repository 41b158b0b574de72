//! Ignore lists: the words of a persisted ignore file (one per line,
//! trimmed, blanks dropped) merged with an ad hoc comma-separated list
//! (entries trimmed, empties dropped).

use vstd::prelude::*;
use vstd::string::StrSliceExecFns;

verus! {

/// ASCII whitespace: space, tab, line feed, form feed, carriage return.
pub open spec fn is_space(c: char) -> bool {
    c == ' ' || c == '\t' || c == '\n' || c == '\r' || c as u32 == 12
}

pub open spec fn drop_leading(s: Seq<char>) -> Seq<char>
    decreases s.len(),
{
    if s.len() > 0 && is_space(s[0]) {
        drop_leading(s.drop_first())
    } else {
        s
    }
}

pub open spec fn drop_trailing(s: Seq<char>) -> Seq<char>
    decreases s.len(),
{
    if s.len() > 0 && is_space(s[s.len() - 1]) {
        drop_trailing(s.drop_last())
    } else {
        s
    }
}

/// `s` without its surrounding whitespace.
pub open spec fn trim_spec(s: Seq<char>) -> Seq<char> {
    drop_trailing(drop_leading(s))
}

proof fn lemma_drop_leading(s: Seq<char>, st: int)
    requires
        0 <= st <= s.len(),
        forall|i: int| 0 <= i < st ==> is_space(s[i]),
        st == s.len() || !is_space(s[st]),
    ensures
        drop_leading(s) == s.skip(st),
    decreases st,
{
    if st == 0 {
        assert(s.skip(0) =~= s);
    } else {
        lemma_drop_leading(s.drop_first(), st - 1);
        assert(s.drop_first().skip(st - 1) =~= s.skip(st));
    }
}

proof fn lemma_drop_trailing(s: Seq<char>, en: int)
    requires
        0 <= en <= s.len(),
        forall|i: int| en <= i < s.len() ==> is_space(s[i]),
        en == 0 || !is_space(s[en - 1]),
    ensures
        drop_trailing(s) == s.subrange(0, en),
    decreases s.len(),
{
    if en == s.len() {
        assert(s.subrange(0, en) =~= s);
    } else {
        lemma_drop_trailing(s.drop_last(), en);
        assert(s.drop_last().subrange(0, en) =~= s.subrange(0, en));
    }
}

fn is_space_char(c: char) -> (r: bool)
    ensures
        r == is_space(c),
{
    c == ' ' || c == '\t' || c == '\n' || c == '\r' || c as u32 == 12
}

/// `s` with surrounding whitespace removed.
pub fn trim_str(s: &str) -> (r: String)
    ensures
        r@ == trim_spec(s@),
{
    let n = s.unicode_len();
    let mut st: usize = 0;
    while st < n && is_space_char(s.get_char(st))
        invariant
            n == s@.len(),
            st <= n,
            forall|i: int| 0 <= i < st ==> is_space(s@[i]),
        decreases n - st,
    {
        st = st + 1;
    }
    proof {
        lemma_drop_leading(s@, st as int);
    }
    if st == n {
        proof {
            assert(s@.skip(n as int) =~= Seq::<char>::empty());
        }
        let r = String::new();
        return r;
    }
    let mut en: usize = n;
    while en > st + 1 && is_space_char(s.get_char(en - 1))
        invariant
            n == s@.len(),
            st < n,
            !is_space(s@[st as int]),
            st + 1 <= en <= n,
            forall|i: int| en <= i < n ==> is_space(s@[i]),
        decreases en,
    {
        en = en - 1;
    }
    let en2: usize = if is_space_char(s.get_char(en - 1)) {
        en - 1
    } else {
        en
    };
    proof {
        let tail = s@.skip(st as int);
        lemma_drop_trailing(tail, en2 - st as int);
        assert(tail.subrange(0, en2 - st as int) =~= s@.subrange(st as int, en2 as int));
    }
    s.substring_char(st, en2).to_owned()
}

/// The words an ignore file contributes: each line trimmed of
/// surrounding whitespace, blank lines dropped.
pub open spec fn ignore_file_words(lines: Seq<Seq<char>>) -> Seq<Seq<char>>
    decreases lines.len(),
{
    if lines.len() == 0 {
        Seq::empty()
    } else {
        let t = trim_spec(lines[0]);
        (if t.len() > 0 {
            seq![t]
        } else {
            Seq::empty()
        }) + ignore_file_words(lines.drop_first())
    }
}

/// Trim the lines of an ignore file and keep the non-blank ones, in
/// order.
pub fn get_ignore_file_contents(lines: &Vec<String>) -> (r: Vec<String>)
    ensures
        r.deep_view() == ignore_file_words(lines.deep_view()),
{
    let ghost all = lines.deep_view();
    let n = lines.len();
    let mut r: Vec<String> = Vec::new();
    let mut i: usize = 0;
    assert(all.skip(0) =~= all);
    assert(r.deep_view() =~= Seq::<Seq<char>>::empty());
    assert(Seq::<Seq<char>>::empty() + ignore_file_words(all) =~= ignore_file_words(all));
    while i < n
        invariant
            n == lines@.len(),
            i <= n,
            all == lines.deep_view(),
            r.deep_view() + ignore_file_words(all.skip(i as int)) == ignore_file_words(all),
        decreases n - i,
    {
        let ghost rest = all.skip(i as int);
        assert(rest.drop_first() =~= all.skip(i as int + 1));
        assert(rest[0] == all[i as int]);
        let word = trim_str(lines[i].as_str());
        let ghost r0 = r.deep_view();
        if word.as_str().unicode_len() > 0 {
            r.push(word);
            assert(r.deep_view() =~= r0 + seq![trim_spec(all[i as int])]);
            assert((r0 + seq![trim_spec(all[i as int])]) + ignore_file_words(
                all.skip(i as int + 1),
            ) =~= r0 + (seq![trim_spec(all[i as int])] + ignore_file_words(
                all.skip(i as int + 1),
            )));
        }
        i = i + 1;
    }
    assert(all.skip(n as int) =~= Seq::<Seq<char>>::empty());
    assert(r.deep_view() =~= r.deep_view() + ignore_file_words(Seq::empty()));
    r
}

/// What a finished comma-separated entry contributes: its trimmed form,
/// unless that is empty.
pub open spec fn emit_csv(cur: Seq<char>) -> Seq<Seq<char>> {
    if trim_spec(cur).len() > 0 {
        seq![trim_spec(cur)]
    } else {
        Seq::empty()
    }
}

/// The words of a comma-separated list, given the characters still to
/// read and the entry in progress.
pub open spec fn csv_from(s: Seq<char>, cur: Seq<char>) -> Seq<Seq<char>>
    decreases s.len(),
{
    if s.len() == 0 {
        emit_csv(cur)
    } else if s[0] == ',' {
        emit_csv(cur) + csv_from(s.drop_first(), Seq::empty())
    } else {
        csv_from(s.drop_first(), cur.push(s[0]))
    }
}

/// The words of an optional ad hoc comma-separated ignore list.
pub open spec fn csv_words(o: Option<Seq<char>>) -> Seq<Seq<char>> {
    match o {
        Some(s) => csv_from(s, Seq::empty()),
        None => Seq::empty(),
    }
}

/// Merge the ignore words: the file's words first, then the entries of
/// the ad hoc comma-separated list, trimmed, with empties dropped.
pub fn get_ignore_list(to_ign: &Option<String>, file_words: Vec<String>) -> (r: Vec<String>)
    ensures
        r.deep_view() == file_words.deep_view() + csv_words(to_ign.deep_view()),
{
    let ghost base = file_words.deep_view();
    let mut r = file_words;
    match to_ign {
        None => {
            assert(r.deep_view() =~= base + csv_words(None));
            r
        },
        Some(ign) => {
            let s = ign.as_str();
            assert(to_ign.deep_view() == Some(s@));
            let n = s.unicode_len();
            let mut seg: usize = 0;
            let mut i: usize = 0;
            assert(s@.skip(0) =~= s@);
            assert(s@.subrange(0, 0) =~= Seq::<char>::empty());
            while i < n
                invariant
                    n == s@.len(),
                    seg <= i <= n,
                    r.deep_view() + csv_from(s@.skip(i as int), s@.subrange(seg as int, i as int))
                        == base + csv_from(s@, Seq::empty()),
                decreases n - i,
            {
                let ghost rest = s@.skip(i as int);
                assert(rest.drop_first() =~= s@.skip(i as int + 1));
                assert(rest[0] == s@[i as int]);
                let c = s.get_char(i);
                if c == ',' {
                    let entry = trim_str(s.substring_char(seg, i));
                    let ghost r0 = r.deep_view();
                    let ghost cur = s@.subrange(seg as int, i as int);
                    if entry.as_str().unicode_len() > 0 {
                        r.push(entry);
                        assert(r.deep_view() =~= r0 + emit_csv(cur));
                    } else {
                        assert(r.deep_view() =~= r0 + emit_csv(cur));
                    }
                    assert((r0 + emit_csv(cur)) + csv_from(s@.skip(i as int + 1), Seq::empty())
                        =~= r0 + (emit_csv(cur) + csv_from(s@.skip(i as int + 1), Seq::empty())));
                    seg = i + 1;
                    assert(s@.subrange(seg as int, i as int + 1) =~= Seq::<char>::empty());
                } else {
                    assert(s@.subrange(seg as int, i as int + 1) =~= s@.subrange(
                        seg as int,
                        i as int,
                    ).push(s@[i as int]));
                }
                i = i + 1;
            }
            assert(s@.skip(n as int) =~= Seq::<char>::empty());
            let entry = trim_str(s.substring_char(seg, n));
            let ghost r0 = r.deep_view();
            let ghost cur = s@.subrange(seg as int, n as int);
            if entry.as_str().unicode_len() > 0 {
                r.push(entry);
                assert(r.deep_view() =~= r0 + emit_csv(cur));
            } else {
                assert(r.deep_view() =~= r0 + emit_csv(cur));
            }
            r
        },
    }
}

} // verus!
