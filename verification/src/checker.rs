//! Membership checker: tokenizes the lines of one or more sources and
//! reports every token found in neither the dictionary word set nor the
//! ignore set, tagged with its source name and 1-based line number.

use vstd::prelude::*;
use crate::tokens::{tokenize, tokenize_spec};
use crate::wordset::WordSet;

verus! {

/// One reported token: where it was found and the token itself.
pub struct Finding {
    pub source: String,
    pub line: u64,
    pub word: String,
}

/// The view triples of a finding list.
pub open spec fn finding_views(fs: Seq<Finding>) -> Seq<(Seq<char>, int, Seq<char>)> {
    fs.map_values(|f: Finding| (f.source@, f.line as int, f.word@))
}

/// The tokens of `tokens` found in neither word list, in order.
pub open spec fn missing_of(
    tokens: Seq<Seq<char>>,
    words: Seq<Seq<char>>,
    ign: Seq<Seq<char>>,
) -> Seq<Seq<char>>
    decreases tokens.len(),
{
    if tokens.len() == 0 {
        Seq::empty()
    } else {
        let rest = missing_of(tokens.drop_first(), words, ign);
        if !words.contains(tokens[0]) && !ign.contains(tokens[0]) {
            seq![tokens[0]] + rest
        } else {
            rest
        }
    }
}

/// The findings of one source, line by line from line number `lineno`:
/// each decoded line contributes its missing tokens; a line that could
/// not be decoded contributes nothing but still counts.
pub open spec fn findings_from(
    src: Seq<char>,
    lines: Seq<Option<Seq<char>>>,
    lineno: int,
    words: Seq<Seq<char>>,
    ign: Seq<Seq<char>>,
) -> Seq<(Seq<char>, int, Seq<char>)>
    decreases lines.len(),
{
    if lines.len() == 0 {
        Seq::empty()
    } else {
        (match lines[0] {
            Some(l) => missing_of(tokenize_spec(l), words, ign).map_values(
                |t: Seq<char>| (src, lineno, t),
            ),
            None => Seq::empty(),
        }) + findings_from(src, lines.drop_first(), lineno + 1, words, ign)
    }
}

/// One source and its lines; a line read as `None` failed to decode.
pub struct SourceText {
    pub name: String,
    pub lines: Vec<Option<String>>,
}

/// The view of a source: its name and its lines.
pub open spec fn source_view(s: SourceText) -> (Seq<char>, Seq<Option<Seq<char>>>) {
    (s.name@, s.lines.deep_view())
}

/// The findings of a list of sources, in order.
pub open spec fn files_findings(
    files: Seq<(Seq<char>, Seq<Option<Seq<char>>>)>,
    words: Seq<Seq<char>>,
    ign: Seq<Seq<char>>,
) -> Seq<(Seq<char>, int, Seq<char>)>
    decreases files.len(),
{
    if files.len() == 0 {
        Seq::empty()
    } else {
        findings_from(files[0].0, files[0].1, 1, words, ign) + files_findings(
            files.drop_first(),
            words,
            ign,
        )
    }
}

/// The tokens of one line that are in neither the dictionary nor the
/// ignore set.
pub fn missing_tokens(line: &str, words: &WordSet, ign: &WordSet) -> (r: Vec<String>)
    ensures
        r.deep_view() == missing_of(tokenize_spec(line@), words.spec_words(), ign.spec_words()),
{
    let tokens = tokenize(line);
    let ghost all = tokens.deep_view();
    let n = tokens.len();
    let mut r: Vec<String> = Vec::new();
    let mut i: usize = 0;
    assert(all.skip(0) =~= all);
    assert(r.deep_view() =~= Seq::<Seq<char>>::empty());
    assert(Seq::<Seq<char>>::empty() + missing_of(all, words.spec_words(), ign.spec_words())
        =~= missing_of(all, words.spec_words(), ign.spec_words()));
    while i < n
        invariant
            n == tokens@.len(),
            i <= n,
            all == tokens.deep_view(),
            r.deep_view() + missing_of(all.skip(i as int), words.spec_words(), ign.spec_words())
                == missing_of(all, words.spec_words(), ign.spec_words()),
        decreases n - i,
    {
        let ghost rest = all.skip(i as int);
        assert(rest.drop_first() =~= all.skip(i as int + 1));
        assert(rest[0] == all[i as int]);
        let t: &String = &tokens[i];
        assert(t@ == all[i as int]);
        if !words.contains(t) && !ign.contains(t) {
            let ghost r0 = r.deep_view();
            r.push(t.clone());
            assert(r.deep_view() =~= r0 + seq![t@]);
            assert((r0 + seq![t@]) + missing_of(
                all.skip(i as int + 1),
                words.spec_words(),
                ign.spec_words(),
            ) =~= r0 + (seq![t@] + missing_of(
                all.skip(i as int + 1),
                words.spec_words(),
                ign.spec_words(),
            )));
        }
        i = i + 1;
    }
    assert(all.skip(n as int) =~= Seq::<Seq<char>>::empty());
    assert(r.deep_view() =~= r.deep_view() + missing_of(
        Seq::empty(),
        words.spec_words(),
        ign.spec_words(),
    ));
    r
}

fn tag_findings(fname: &String, lcount: u64, mt: &Vec<String>) -> (r: Vec<Finding>)
    ensures
        finding_views(r@) == mt.deep_view().map_values(
            |t: Seq<char>| (fname@, lcount as int, t),
        ),
{
    let n = mt.len();
    let mut r: Vec<Finding> = Vec::new();
    let mut j: usize = 0;
    while j < n
        invariant
            n == mt@.len(),
            j <= n,
            r@.len() == j,
            finding_views(r@) =~= mt.deep_view().subrange(0, j as int).map_values(
                |t: Seq<char>| (fname@, lcount as int, t),
            ),
        decreases n - j,
    {
        let ghost before = r@;
        let word = mt[j].clone();
        assert(word@ == mt.deep_view()[j as int]);
        r.push(Finding { source: fname.clone(), line: lcount, word });
        proof {
            assert(r@ == before.push(r@[j as int]));
            assert(r@[j as int].source@ == fname@ && r@[j as int].word@ == mt.deep_view()[
                j as int
            ]);
            assert forall|x: int| 0 <= x < j + 1 implies finding_views(r@)[x] == mt.deep_view()
                .subrange(0, j + 1).map_values(|t: Seq<char>| (fname@, lcount as int, t))[x] by {
                if x < j {
                    assert(finding_views(before)[x] == mt.deep_view().subrange(0, j as int)
                        .map_values(|t: Seq<char>| (fname@, lcount as int, t))[x]);
                }
            }
            assert(finding_views(r@) =~= mt.deep_view().subrange(0, j + 1).map_values(
                |t: Seq<char>| (fname@, lcount as int, t),
            ));
        }
        j = j + 1;
    }
    assert(mt.deep_view().subrange(0, n as int) =~= mt.deep_view());
    assert(finding_views(r@) =~= mt.deep_view().map_values(
        |t: Seq<char>| (fname@, lcount as int, t),
    ));
    r
}

/// Check one source: report, in order, every token of every decoded line
/// that is in neither set, with the source name and its 1-based line
/// number; undecodable lines report nothing but still count.
pub fn check_file(
    fname: &String,
    lines: &Vec<Option<String>>,
    words: &WordSet,
    ign: &WordSet,
) -> (r: Vec<Finding>)
    requires
        lines@.len() < u64::MAX,
    ensures
        finding_views(r@) == findings_from(
            fname@,
            lines.deep_view(),
            1,
            words.spec_words(),
            ign.spec_words(),
        ),
{
    let ghost ldv = lines.deep_view();
    let ghost ws = words.spec_words();
    let ghost igv = ign.spec_words();
    let n = lines.len();
    let mut r: Vec<Finding> = Vec::new();
    let mut lcount: u64 = 1;
    let mut i: usize = 0;
    assert(ldv.skip(0) =~= ldv);
    assert(finding_views(r@) =~= Seq::<(Seq<char>, int, Seq<char>)>::empty());
    assert(Seq::<(Seq<char>, int, Seq<char>)>::empty() + findings_from(fname@, ldv, 1, ws, igv)
        =~= findings_from(fname@, ldv, 1, ws, igv));
    while i < n
        invariant
            n == lines@.len(),
            n < u64::MAX,
            i <= n,
            lcount as int == 1 + i,
            ldv == lines.deep_view(),
            ws == words.spec_words(),
            igv == ign.spec_words(),
            finding_views(r@) + findings_from(fname@, ldv.skip(i as int), lcount as int, ws, igv)
                == findings_from(fname@, ldv, 1, ws, igv),
        decreases n - i,
    {
        let ghost rest = ldv.skip(i as int);
        assert(rest.drop_first() =~= ldv.skip(i as int + 1));
        assert(rest[0] == ldv[i as int]);
        match &lines[i] {
            Some(l) => {
                assert(ldv[i as int] == Some(l@));
                let mt = missing_tokens(l.as_str(), words, ign);
                let mut tagged = tag_findings(fname, lcount, &mt);
                let ghost r0 = finding_views(r@);
                let ghost tv = finding_views(tagged@);
                assert(tv =~= missing_of(tokenize_spec(l@), ws, igv).map_values(
                    |t: Seq<char>| (fname@, lcount as int, t),
                ));
                r.append(&mut tagged);
                assert(finding_views(r@) =~= r0 + tv);
                assert((r0 + tv) + findings_from(fname@, ldv.skip(i as int + 1), lcount as int + 1, ws, igv)
                    =~= r0 + (tv + findings_from(fname@, ldv.skip(i as int + 1), lcount as int + 1, ws, igv)));
            },
            None => {
                assert(ldv[i as int] is None);
                assert(Seq::<(Seq<char>, int, Seq<char>)>::empty() + findings_from(
                    fname@,
                    ldv.skip(i as int + 1),
                    lcount as int + 1,
                    ws,
                    igv,
                ) =~= findings_from(fname@, ldv.skip(i as int + 1), lcount as int + 1, ws, igv));
            },
        }
        lcount = lcount + 1;
        i = i + 1;
    }
    assert(ldv.skip(n as int) =~= Seq::<Option<Seq<char>>>::empty());
    assert(finding_views(r@) =~= finding_views(r@) + findings_from(
        fname@,
        Seq::empty(),
        lcount as int,
        ws,
        igv,
    ));
    r
}

/// Check every source in order, concatenating the findings.
pub fn check_files(files: &Vec<SourceText>, words: &WordSet, ign: &WordSet) -> (r: Vec<Finding>)
    requires
        forall|i: int| 0 <= i < files@.len() ==> (#[trigger] files@[i]).lines@.len() < u64::MAX,
    ensures
        finding_views(r@) == files_findings(
            files@.map_values(|s: SourceText| source_view(s)),
            words.spec_words(),
            ign.spec_words(),
        ),
{
    let ghost fv = files@.map_values(|s: SourceText| source_view(s));
    let ghost ws = words.spec_words();
    let ghost igv = ign.spec_words();
    let n = files.len();
    let mut r: Vec<Finding> = Vec::new();
    let mut i: usize = 0;
    assert(fv.skip(0) =~= fv);
    assert(finding_views(r@) =~= Seq::<(Seq<char>, int, Seq<char>)>::empty());
    assert(Seq::<(Seq<char>, int, Seq<char>)>::empty() + files_findings(fv, ws, igv)
        =~= files_findings(fv, ws, igv));
    while i < n
        invariant
            n == files@.len(),
            i <= n,
            fv == files@.map_values(|s: SourceText| source_view(s)),
            ws == words.spec_words(),
            igv == ign.spec_words(),
            forall|k: int| 0 <= k < files@.len() ==> (#[trigger] files@[k]).lines@.len() < u64::MAX,
            finding_views(r@) + files_findings(fv.skip(i as int), ws, igv) == files_findings(
                fv,
                ws,
                igv,
            ),
        decreases n - i,
    {
        let ghost rest = fv.skip(i as int);
        assert(rest.drop_first() =~= fv.skip(i as int + 1));
        assert(rest[0] == fv[i as int]);
        let f: &SourceText = &files[i];
        assert(fv[i as int] == source_view(files@[i as int]));
        let mut found = check_file(&f.name, &f.lines, words, ign);
        let ghost r0 = finding_views(r@);
        let ghost tv = finding_views(found@);
        r.append(&mut found);
        assert(finding_views(r@) =~= r0 + tv);
        assert((r0 + tv) + files_findings(fv.skip(i as int + 1), ws, igv) =~= r0 + (tv
            + files_findings(fv.skip(i as int + 1), ws, igv)));
        i = i + 1;
    }
    assert(fv.skip(n as int) =~= Seq::<(Seq<char>, Seq<Option<Seq<char>>>)>::empty());
    assert(finding_views(r@) =~= finding_views(r@) + files_findings(Seq::empty(), ws, igv));
    r
}

} // verus!
