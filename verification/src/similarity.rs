//! Similarity engine: gestalt (Ratcliff/Obershelp) pattern matching. The
//! longest contiguous common block of the two strings is found (leftmost
//! in the first string, then leftmost in the second, on ties), the search
//! recurses on the pieces before and after the block, and the matched
//! lengths are summed. The similarity ratio is `2 * matched / (len_a +
//! len_b)`, held exactly as a rational number rather than a float.

use vstd::prelude::*;
use vstd::string::StrSliceExecFns;

verus! {

/// Length of the common run of `a` and `b` starting at positions `i` and
/// `j`: how many consecutive characters match before the first mismatch
/// or the end of either string.
pub open spec fn run_len(a: Seq<char>, b: Seq<char>, i: int, j: int) -> nat
    decreases a.len() - i,
{
    if 0 <= i && i < a.len() && 0 <= j && j < b.len() && a[i] == b[j] {
        1 + run_len(a, b, i + 1, j + 1)
    } else {
        0
    }
}

/// Best run in row `i` over columns `j..b.len()`: the pair `(column,
/// length)` of the longest run, preferring the leftmost column on ties.
pub open spec fn best_in_row(a: Seq<char>, b: Seq<char>, i: int, j: int) -> (int, nat)
    decreases b.len() - j,
{
    if j < b.len() {
        let k1 = run_len(a, b, i, j);
        let (j2, k2) = best_in_row(a, b, i, j + 1);
        if k1 >= k2 {
            (j, k1)
        } else {
            (j2, k2)
        }
    } else {
        (j, 0)
    }
}

/// Best run over rows `i..a.len()` (each row scanned over all of `b`):
/// the triple `(row, column, length)` of the longest run, preferring the
/// leftmost row, then the leftmost column, on ties.
pub open spec fn best_from_row(a: Seq<char>, b: Seq<char>, i: int) -> (int, int, nat)
    decreases a.len() - i,
{
    if i < a.len() {
        let (j1, k1) = best_in_row(a, b, i, 0);
        let (i2, j2, k2) = best_from_row(a, b, i + 1);
        if k1 >= k2 {
            (i, j1, k1)
        } else {
            (i2, j2, k2)
        }
    } else {
        (i, 0, 0)
    }
}

/// The longest contiguous common block of `a` and `b`, with the
/// deterministic tie-break: leftmost start in `a`, then leftmost start in
/// `b`. When no character is shared the triple is `(0, 0, 0)`.
pub open spec fn best_match(a: Seq<char>, b: Seq<char>) -> (int, int, nat) {
    best_from_row(a, b, 0)
}

pub proof fn lemma_run_len_le(a: Seq<char>, b: Seq<char>, i: int, j: int)
    requires
        0 <= i <= a.len(),
        0 <= j <= b.len(),
    ensures
        run_len(a, b, i, j) <= a.len() - i,
        run_len(a, b, i, j) <= b.len() - j,
    decreases a.len() - i,
{
    if i < a.len() && j < b.len() && a[i] == b[j] {
        lemma_run_len_le(a, b, i + 1, j + 1);
    }
}

/// Characters inside a common run really are equal pairwise.
pub proof fn lemma_run_len_match(a: Seq<char>, b: Seq<char>, i: int, j: int, t: int)
    requires
        0 <= i,
        0 <= j,
        0 <= t < run_len(a, b, i, j),
    ensures
        i + t < a.len(),
        j + t < b.len(),
        a[i + t] == b[j + t],
    decreases t,
{
    if t > 0 {
        lemma_run_len_match(a, b, i + 1, j + 1, t - 1);
    }
}

pub proof fn lemma_best_in_row(a: Seq<char>, b: Seq<char>, i: int, j: int)
    requires
        0 <= j <= b.len(),
    ensures
        ({
            let (j1, k1) = best_in_row(a, b, i, j);
            &&& j <= j1 <= b.len()
            &&& k1 == run_len(a, b, i, j1)
            &&& forall|j2: int| j <= j2 < b.len() ==> run_len(a, b, i, j2) <= k1
            &&& forall|j2: int| j <= j2 < j1 ==> run_len(a, b, i, j2) < k1
        }),
    decreases b.len() - j,
{
    if j < b.len() {
        lemma_best_in_row(a, b, i, j + 1);
    }
}

pub proof fn lemma_best_from_row(a: Seq<char>, b: Seq<char>, i: int)
    requires
        0 <= i <= a.len(),
    ensures
        ({
            let (i1, j1, k) = best_from_row(a, b, i);
            &&& i <= i1 <= a.len()
            &&& 0 <= j1 <= b.len()
            &&& k == run_len(a, b, i1, j1)
            &&& forall|i2: int, j2: int|
                i <= i2 < a.len() && 0 <= j2 < b.len() ==> run_len(a, b, i2, j2) <= k
            &&& forall|i2: int, j2: int|
                i <= i2 < i1 && 0 <= j2 < b.len() ==> run_len(a, b, i2, j2) < k
            &&& forall|j2: int| 0 <= j2 < j1 ==> run_len(a, b, i1, j2) < k
        }),
    decreases a.len() - i,
{
    if i < a.len() {
        lemma_best_in_row(a, b, i, 0);
        lemma_best_from_row(a, b, i + 1);
    }
}

/// Bounds of the chosen block: it lies inside both strings.
pub proof fn lemma_best_match_bounds(a: Seq<char>, b: Seq<char>)
    ensures
        ({
            let (i, j, k) = best_match(a, b);
            &&& 0 <= i <= a.len()
            &&& 0 <= j <= b.len()
            &&& k == run_len(a, b, i, j)
            &&& i + k <= a.len()
            &&& j + k <= b.len()
        }),
{
    lemma_best_from_row(a, b, 0);
    let (i, j, k) = best_match(a, b);
    lemma_run_len_le(a, b, i, j);
}

/// Total length of all matched blocks: the best block's length plus the
/// matched totals of the pieces before it and after it.
pub open spec fn gestalt_m(a: Seq<char>, b: Seq<char>) -> nat
    decreases a.len() + b.len(),
    via gestalt_m_decreases
{
    let (i, j, k) = best_match(a, b);
    if k == 0 {
        0
    } else {
        gestalt_m(a.subrange(0, i), b.subrange(0, j)) + k + gestalt_m(
            a.subrange(i + k, a.len() as int),
            b.subrange(j + k, b.len() as int),
        )
    }
}

#[via_fn]
proof fn gestalt_m_decreases(a: Seq<char>, b: Seq<char>) {
    lemma_best_match_bounds(a, b);
}

/// The matched total never exceeds either string's length.
pub proof fn lemma_gestalt_le(a: Seq<char>, b: Seq<char>)
    ensures
        gestalt_m(a, b) <= a.len(),
        gestalt_m(a, b) <= b.len(),
    decreases a.len() + b.len(),
{
    lemma_best_match_bounds(a, b);
    let (i, j, k) = best_match(a, b);
    if k != 0 {
        lemma_gestalt_le(a.subrange(0, i), b.subrange(0, j));
        lemma_gestalt_le(
            a.subrange(i + k, a.len() as int),
            b.subrange(j + k, b.len() as int),
        );
    }
}

proof fn lemma_run_len_refl(a: Seq<char>, i: int)
    requires
        0 <= i <= a.len(),
    ensures
        run_len(a, a, i, i) == a.len() - i,
    decreases a.len() - i,
{
    if i < a.len() {
        lemma_run_len_refl(a, i + 1);
    }
}

/// Comparing a string with itself matches it completely.
pub proof fn lemma_gestalt_self(a: Seq<char>)
    ensures
        gestalt_m(a, a) == a.len(),
{
    if a.len() == 0 {
        lemma_best_match_bounds(a, a);
    } else {
        lemma_best_from_row(a, a, 0);
        lemma_run_len_refl(a, 0);
        let (i, j, k) = best_match(a, a);
        lemma_run_len_le(a, a, i, j);
        assert(k >= run_len(a, a, 0, 0));
        assert(k == a.len());
        assert(i == 0 && j == 0) by {
            if i > 0 {
                assert(run_len(a, a, 0, 0) < k);
            }
            if j > 0 {
                assert(run_len(a, a, i, 0) < k);
                lemma_run_len_refl(a, 0);
            }
        }
        let left = a.subrange(0, 0);
        let right = a.subrange(a.len() as int, a.len() as int);
        lemma_gestalt_le(left, left);
        lemma_gestalt_le(right, right);
    }
}

/// A perfect ratio happens only between equal strings: if twice the
/// matched total reaches the combined length, the strings are identical.
pub proof fn lemma_gestalt_one_eq(a: Seq<char>, b: Seq<char>)
    requires
        2 * gestalt_m(a, b) == a.len() + b.len(),
    ensures
        a == b,
    decreases a.len() + b.len(),
{
    lemma_gestalt_le(a, b);
    let m = gestalt_m(a, b);
    assert(m == a.len() && m == b.len());
    if m == 0 {
        assert(a =~= b);
    } else {
        lemma_best_match_bounds(a, b);
        let (i, j, k) = best_match(a, b);
        assert(k != 0);
        let al = a.subrange(0, i);
        let bl = b.subrange(0, j);
        let ar = a.subrange(i + k, a.len() as int);
        let br = b.subrange(j + k, b.len() as int);
        lemma_gestalt_le(al, bl);
        lemma_gestalt_le(ar, br);
        let ml = gestalt_m(al, bl);
        let mr = gestalt_m(ar, br);
        assert(ml == i && ml == j && mr == a.len() - i - k && mr == b.len() - j - k);
        lemma_gestalt_one_eq(al, bl);
        lemma_gestalt_one_eq(ar, br);
        assert forall|t: int| 0 <= t < k implies #[trigger] a[i + t] == b[j + t] by {
            lemma_run_len_match(a, b, i, j, t);
        }
        assert(a =~= b) by {
            assert forall|x: int| 0 <= x < a.len() implies a[x] == b[x] by {
                if x < i {
                    assert(a[x] == al[x] && b[x] == bl[x]);
                } else if x < i + k {
                    assert(a[i + (x - i)] == b[j + (x - i)]);
                } else {
                    assert(a[x] == ar[x - i - k] && b[x] == br[x - i - k]);
                }
            }
        }
    }
}

/// A string compared with itself has a ratio of exactly one; so do two
/// empty strings, whose ratio is defined as a perfect match.
pub proof fn lemma_ratio_self_is_one(r: Ratio, a: Seq<char>)
    requires
        is_ratio_of(r, a, a),
    ensures
        spec_ratio_is_one(r),
{
    lemma_gestalt_self(a);
}

/// Every ratio the engine produces lies in `[0, 1]`: the numerator never
/// exceeds the denominator.
pub proof fn lemma_ratio_in_unit(r: Ratio, a: Seq<char>, b: Seq<char>)
    requires
        is_ratio_of(r, a, b),
    ensures
        ratio_wf(r),
{
    lemma_gestalt_le(a, b);
}

/// A similarity ratio held exactly: `num` is twice the total matched
/// length, `den` the combined length of the two strings. The empty-both
/// case `0 / 0` counts as a perfect match.
#[derive(Clone, Copy, PartialEq, Eq, Structural, Debug)]
pub struct Ratio {
    pub num: u64,
    pub den: u64,
}

/// `r` is the gestalt similarity ratio of `a` and `b`.
pub open spec fn is_ratio_of(r: Ratio, a: Seq<char>, b: Seq<char>) -> bool {
    &&& r.num == 2 * gestalt_m(a, b)
    &&& r.den == a.len() + b.len()
}

/// Every ratio produced by the engine lies in `[0, 1]`.
pub open spec fn ratio_wf(r: Ratio) -> bool {
    r.num <= r.den
}

/// Numerator once `0 / 0` is read as `1 / 1`.
pub open spec fn val_num(r: Ratio) -> int {
    if r.den == 0 {
        1
    } else {
        r.num as int
    }
}

/// Denominator once `0 / 0` is read as `1 / 1`.
pub open spec fn val_den(r: Ratio) -> int {
    if r.den == 0 {
        1
    } else {
        r.den as int
    }
}

/// `x >= y` as fractions, by cross-multiplication.
pub open spec fn spec_ratio_ge(x: Ratio, y: Ratio) -> bool {
    val_num(x) * val_den(y) >= val_num(y) * val_den(x)
}

/// A ratio of exactly one: the strings matched completely (this covers
/// the two-empty-strings case, whose ratio is defined as one).
pub open spec fn spec_ratio_is_one(r: Ratio) -> bool {
    r.num == r.den
}

/// Compare two ratios exactly, without floating point.
pub fn ratio_ge(x: &Ratio, y: &Ratio) -> (r: bool)
    ensures
        r == spec_ratio_ge(*x, *y),
{
    let xn: u64 = if x.den == 0 { 1 } else { x.num };
    let xd: u64 = if x.den == 0 { 1 } else { x.den };
    let yn: u64 = if y.den == 0 { 1 } else { y.num };
    let yd: u64 = if y.den == 0 { 1 } else { y.den };
    proof {
        assert((xn as int) * (yd as int) <= (u64::MAX as int) * (u64::MAX as int)
            && (yn as int) * (xd as int) <= (u64::MAX as int) * (u64::MAX as int))
            by (nonlinear_arith)
            requires
                0 <= xn <= u64::MAX,
                0 <= yd <= u64::MAX,
                0 <= yn <= u64::MAX,
                0 <= xd <= u64::MAX,
        ;
    }
    (xn as u128) * (yd as u128) >= (yn as u128) * (xd as u128)
}

/// True exactly when the ratio is one.
pub fn ratio_is_one(r: &Ratio) -> (b: bool)
    ensures
        b == spec_ratio_is_one(*r),
{
    r.num == r.den
}

/// The characters of a string, one by one.
pub fn str_to_chars(s: &str) -> (r: Vec<char>)
    ensures
        r@ == s@,
{
    let n = s.unicode_len();
    let mut r: Vec<char> = Vec::new();
    let mut i: usize = 0;
    while i < n
        invariant
            n == s@.len(),
            i <= n,
            r@ =~= s@.subrange(0, i as int),
        decreases n - i,
    {
        r.push(s.get_char(i));
        i = i + 1;
    }
    assert(r@ =~= s@);
    r
}

/// Copy of `v[lo..hi]`.
pub(crate) fn subvec(v: &Vec<char>, lo: usize, hi: usize) -> (r: Vec<char>)
    requires
        lo <= hi <= v@.len(),
    ensures
        r@ == v@.subrange(lo as int, hi as int),
{
    let mut r: Vec<char> = Vec::new();
    let mut i: usize = lo;
    while i < hi
        invariant
            lo <= i <= hi <= v@.len(),
            r@ =~= v@.subrange(lo as int, i as int),
        decreases hi - i,
    {
        r.push(v[i]);
        assert(r@ =~= v@.subrange(lo as int, i + 1 as int));
        i = i + 1;
    }
    r
}

fn run_len_at(a: &Vec<char>, b: &Vec<char>, i: usize, j: usize) -> (k: usize)
    requires
        i <= a@.len(),
        j <= b@.len(),
    ensures
        k == run_len(a@, b@, i as int, j as int),
{
    let n = a.len();
    let m = b.len();
    let mut k: usize = 0;
    while k < n - i && k < m - j && a[i + k] == b[j + k]
        invariant
            n == a@.len(),
            m == b@.len(),
            i + k <= a@.len(),
            j + k <= b@.len(),
            run_len(a@, b@, i as int, j as int) == k + run_len(
                a@,
                b@,
                i + k as int,
                j + k as int,
            ),
        decreases a@.len() - i - k,
    {
        k = k + 1;
    }
    k
}

/// Find the longest common block of `a` and `b`, leftmost in `a` then
/// leftmost in `b` on ties; `(0, 0, 0)` when nothing matches.
fn find_best(a: &Vec<char>, b: &Vec<char>) -> (r: (usize, usize, usize))
    ensures
        r.0 as int == best_match(a@, b@).0,
        r.1 as int == best_match(a@, b@).1,
        r.2 as nat == best_match(a@, b@).2,
        r.0 + r.2 <= a@.len(),
        r.1 + r.2 <= b@.len(),
{
    let mut bi: usize = a.len();
    let mut bj: usize = 0;
    let mut bk: usize = 0;
    let mut i: usize = a.len();
    while i > 0
        invariant
            i <= a@.len(),
            bi as int == best_from_row(a@, b@, i as int).0,
            bj as int == best_from_row(a@, b@, i as int).1,
            bk as nat == best_from_row(a@, b@, i as int).2,
        decreases i,
    {
        i = i - 1;
        let mut rj: usize = b.len();
        let mut rk: usize = 0;
        let mut j: usize = b.len();
        while j > 0
            invariant
                j <= b@.len(),
                i < a@.len(),
                rj as int == best_in_row(a@, b@, i as int, j as int).0,
                rk as nat == best_in_row(a@, b@, i as int, j as int).1,
            decreases j,
        {
            j = j - 1;
            let k1 = run_len_at(a, b, i, j);
            if k1 >= rk {
                rj = j;
                rk = k1;
            }
        }
        if rk >= bk {
            bi = i;
            bj = rj;
            bk = rk;
        }
    }
    proof {
        lemma_best_match_bounds(a@, b@);
    }
    (bi, bj, bk)
}

/// Total matched length of the gestalt block decomposition of `a` and
/// `b`.
fn gestalt_total(a: &Vec<char>, b: &Vec<char>) -> (m: usize)
    ensures
        m == gestalt_m(a@, b@),
    decreases a@.len() + b@.len(),
{
    let (i, j, k) = find_best(a, b);
    if k == 0 {
        0
    } else {
        proof {
            lemma_gestalt_le(a@.subrange(0, i as int), b@.subrange(0, j as int));
            lemma_gestalt_le(
                a@.subrange(i + k as int, a@.len() as int),
                b@.subrange(j + k as int, b@.len() as int),
            );
        }
        let n = a.len();
        let m = b.len();
        let a_left = subvec(a, 0, i);
        let b_left = subvec(b, 0, j);
        let a_right = subvec(a, i + k, n);
        let b_right = subvec(b, j + k, m);
        let ml = gestalt_total(&a_left, &b_left);
        let mr = gestalt_total(&a_right, &b_right);
        ml + k + mr
    }
}

/// The gestalt similarity ratio of `a` and `b`, exactly: twice the total
/// matched block length over the combined length.
pub fn ratio(a: &str, b: &str) -> (r: Ratio)
    requires
        a@.len() + b@.len() <= u64::MAX,
    ensures
        is_ratio_of(r, a@, b@),
        ratio_wf(r),
{
    let av = str_to_chars(a);
    let bv = str_to_chars(b);
    ratio_of_chars(&av, &bv)
}

/// The gestalt similarity ratio of two character buffers.
pub fn ratio_of_chars(a: &Vec<char>, b: &Vec<char>) -> (r: Ratio)
    requires
        a@.len() + b@.len() <= u64::MAX,
    ensures
        is_ratio_of(r, a@, b@),
        ratio_wf(r),
{
    proof {
        lemma_gestalt_le(a@, b@);
    }
    let m = gestalt_total(a, b);
    let num: u64 = 2 * (m as u64);
    let den: u64 = (a.len() as u64) + (b.len() as u64);
    Ratio { num, den }
}

} // verus!
