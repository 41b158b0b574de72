//! Tokenizer: scans a line of text and yields normalized candidate word
//! tokens, lowercasing ASCII letters and stripping trailing possessive
//! markers.

use vstd::prelude::*;
use vstd::string::StrSliceExecFns;

verus! {

/// An ASCII letter.
pub open spec fn is_ascii_alpha(c: char) -> bool {
    (97 <= c as u32 && c as u32 <= 122) || (65 <= c as u32 && c as u32 <= 90)
}

/// A character that may stand inside a token: an ASCII letter or digit, a
/// hyphen, or an apostrophe. Anything else is a word boundary.
pub open spec fn is_word_char(c: char) -> bool {
    is_ascii_alpha(c) || (48 <= c as u32 && c as u32 <= 57) || c == '-' || c == '\''
}

/// ASCII upper-case letters are folded to lower case on accumulation;
/// every other character is kept verbatim.
pub open spec fn fold_char(c: char) -> char {
    if 65 <= c as u32 && c as u32 <= 90 {
        (((c as u32 + 32) as u8) as char)
    } else {
        c
    }
}

/// A token is worth keeping only if it holds at least one ASCII letter;
/// bare runs of digits, hyphens or apostrophes are discarded.
pub open spec fn has_alpha(s: Seq<char>) -> bool {
    exists|i: int| 0 <= i < s.len() && is_ascii_alpha(s[i])
}

/// Trailing possessive marker removal: a final `'s` loses those two
/// characters, else a bare final apostrophe loses that one character, else
/// the token is unchanged. Exactly one rule applies; there is no re-check
/// after stripping.
pub open spec fn strip_marker(s: Seq<char>) -> Seq<char> {
    if s.len() >= 2 && s[s.len() - 2] == '\'' && s[s.len() - 1] == 's' {
        s.subrange(0, s.len() - 2)
    } else if s.len() >= 1 && s[s.len() - 1] == '\'' {
        s.subrange(0, s.len() - 1)
    } else {
        s
    }
}

/// What a finished buffer contributes to the token stream: its stripped
/// form if it looks like a word, nothing otherwise.
pub open spec fn emit(buf: Seq<char>) -> Seq<Seq<char>> {
    if has_alpha(buf) {
        seq![strip_marker(buf)]
    } else {
        Seq::empty()
    }
}

/// The tokens of `line` when `buf` holds the already-folded characters of
/// a token in progress: a two-state scan that accumulates word characters
/// and emits the buffer at each boundary and at the end of the line.
pub open spec fn tokens_from(line: Seq<char>, buf: Seq<char>) -> Seq<Seq<char>>
    decreases line.len(),
{
    if line.len() == 0 {
        emit(buf)
    } else if is_word_char(line[0]) {
        tokens_from(line.drop_first(), buf.push(fold_char(line[0])))
    } else {
        emit(buf) + tokens_from(line.drop_first(), Seq::empty())
    }
}

/// The normalized tokens of a line, in left-to-right order.
pub open spec fn tokenize_spec(line: Seq<char>) -> Seq<Seq<char>> {
    tokens_from(line, Seq::empty())
}

fn is_alpha_char(c: char) -> (r: bool)
    ensures
        r == is_ascii_alpha(c),
{
    let u = c as u32;
    (97 <= u && u <= 122) || (65 <= u && u <= 90)
}

fn is_word_char_exec(c: char) -> (r: bool)
    ensures
        r == is_word_char(c),
{
    let u = c as u32;
    (97 <= u && u <= 122) || (65 <= u && u <= 90) || (48 <= u && u <= 57) || c == '-' || c == '\''
}

fn fold_char_exec(c: char) -> (r: char)
    ensures
        r == fold_char(c),
{
    let u = c as u32;
    if 65 <= u && u <= 90 {
        ((u + 32) as u8) as char
    } else {
        c
    }
}

/// True when the token looks like a word: non-empty with at least one
/// ASCII letter somewhere in it.
pub fn check_token(token: &str) -> (r: bool)
    ensures
        r == has_alpha(token@),
{
    let n = token.unicode_len();
    let mut i: usize = 0;
    while i < n
        invariant
            n == token@.len(),
            i <= n,
            forall|j: int| 0 <= j < i ==> !is_ascii_alpha(token@[j]),
        decreases n - i,
    {
        let c = token.get_char(i);
        if is_alpha_char(c) {
            assert(is_ascii_alpha(token@[i as int]));
            return true;
        }
        i = i + 1;
    }
    false
}

fn buf_has_alpha(buf: &Vec<char>) -> (r: bool)
    ensures
        r == has_alpha(buf@),
{
    let n = buf.len();
    let mut i: usize = 0;
    while i < n
        invariant
            n == buf@.len(),
            i <= n,
            forall|j: int| 0 <= j < i ==> !is_ascii_alpha(buf@[j]),
        decreases n - i,
    {
        if is_alpha_char(buf[i]) {
            assert(is_ascii_alpha(buf@[i as int]));
            return true;
        }
        i = i + 1;
    }
    false
}

/// Relies on `core::iter::Iterator::collect` building a `String` from a
/// char iterator: the string holds exactly the buffered characters.
#[verifier::external_body]
fn string_from_chars(buf: &Vec<char>) -> (r: String)
    ensures
        r@ == buf@,
{
    buf.iter().collect()
}

/// Strip a trailing possessive marker from a word: `"jay's"` becomes
/// `"jay"`, `"players'"` becomes `"players"`, and a word without a
/// trailing marker (such as `"ja'y"`) is returned unchanged.
pub fn strip_apost(word: &str) -> (r: String)
    ensures
        r@ == strip_marker(word@),
{
    let n = word.unicode_len();
    if n >= 2 && word.get_char(n - 2) == '\'' && word.get_char(n - 1) == 's' {
        word.substring_char(0, n - 2).to_owned()
    } else if n >= 1 && word.get_char(n - 1) == '\'' {
        word.substring_char(0, n - 1).to_owned()
    } else {
        word.to_owned()
    }
}

/// Emit the buffered token into `ret` if it looks like a word, stripping
/// its trailing possessive marker; the buffer is cleared either way.
fn flush_buf(buf: &mut Vec<char>, ret: &mut Vec<String>)
    ensures
        final(ret).deep_view() == old(ret).deep_view() + emit(old(buf)@),
        final(buf)@ == Seq::<char>::empty(),
{
    if buf_has_alpha(buf) {
        let n = buf.len();
        if n >= 2 && buf[n - 2] == '\'' && buf[n - 1] == 's' {
            buf.truncate(n - 2);
        } else if n >= 1 && buf[n - 1] == '\'' {
            buf.truncate(n - 1);
        }
        let token = string_from_chars(buf);
        assert(token@ == strip_marker(old(buf)@));
        ret.push(token);
        assert(ret.deep_view() =~= old(ret).deep_view() + emit(old(buf)@));
    } else {
        assert(ret.deep_view() =~= old(ret).deep_view() + emit(old(buf)@));
    }
    buf.clear();
}

/// Scan a line and return its normalized tokens in order: maximal runs of
/// letters, digits, hyphens and apostrophes are accumulated with ASCII
/// letters lowercased; at each boundary the run is kept only if it holds
/// a letter, and its trailing possessive marker is stripped.
pub fn tokenize(line: &str) -> (r: Vec<String>)
    ensures
        r.deep_view() == tokenize_spec(line@),
{
    let n = line.unicode_len();
    let mut ret: Vec<String> = Vec::new();
    let mut buf: Vec<char> = Vec::new();
    let mut i: usize = 0;
    assert(line@.skip(0) =~= line@);
    assert(ret.deep_view() =~= Seq::<Seq<char>>::empty());
    assert(Seq::<Seq<char>>::empty() + tokens_from(line@, buf@) =~= tokens_from(line@, buf@));
    while i < n
        invariant
            n == line@.len(),
            i <= n,
            ret.deep_view() + tokens_from(line@.skip(i as int), buf@) == tokenize_spec(line@),
        decreases n - i,
    {
        let ghost rest = line@.skip(i as int);
        assert(rest.drop_first() =~= line@.skip(i as int + 1));
        assert(rest[0] == line@[i as int]);
        let c = line.get_char(i);
        if is_word_char_exec(c) {
            buf.push(fold_char_exec(c));
        } else {
            let ghost ret0 = ret.deep_view();
            let ghost buf0 = buf@;
            flush_buf(&mut buf, &mut ret);
            assert(ret.deep_view() + tokens_from(line@.skip(i as int + 1), buf@) =~= (ret0
                + emit(buf0)) + tokens_from(line@.skip(i as int + 1), Seq::empty()));
            assert((ret0 + emit(buf0)) + tokens_from(line@.skip(i as int + 1), Seq::empty()) =~= ret0
                + (emit(buf0) + tokens_from(line@.skip(i as int + 1), Seq::empty())));
        }
        i = i + 1;
    }
    assert(line@.skip(n as int) =~= Seq::<char>::empty());
    let ghost ret0 = ret.deep_view();
    let ghost buf0 = buf@;
    flush_buf(&mut buf, &mut ret);
    assert(ret.deep_view() =~= ret0 + emit(buf0));
    ret
}

} // verus!
