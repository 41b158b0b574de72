//! Dictionary loader: turns a raw newline-delimited byte blob into an
//! ordered sequence of words, decoding each line lossily so that a bad
//! byte never fails the load.

use vstd::prelude::*;

verus! {

/// What lossy UTF-8 decoding makes of a byte sequence; a function of the
/// bytes alone.
pub uninterp spec fn lossy_decode(bytes: Seq<u8>) -> Seq<char>;

/// Relies on `String::from_utf8_lossy`: the decoding is a pure function
/// of the bytes (valid UTF-8 passes through, invalid sequences are
/// replaced with the replacement character) and never fails.
#[verifier::external_body]
fn lossy_string(bytes: &Vec<u8>) -> (r: String)
    ensures
        r@ == lossy_decode(bytes@),
{
    String::from_utf8_lossy(bytes).into_owned()
}

/// The words of a newline-delimited blob, given the bytes still to read
/// and the bytes of the line in progress: each newline (byte 10) ends a
/// word, blank lines stay as empty words, and a non-empty trailing
/// fragment without a final newline counts as the last word.
pub open spec fn words_from(bytes: Seq<u8>, buf: Seq<u8>) -> Seq<Seq<char>>
    decreases bytes.len(),
{
    if bytes.len() == 0 {
        if buf.len() > 0 {
            seq![lossy_decode(buf)]
        } else {
            Seq::empty()
        }
    } else if bytes[0] == 10 {
        seq![lossy_decode(buf)] + words_from(bytes.drop_first(), Seq::empty())
    } else {
        words_from(bytes.drop_first(), buf.push(bytes[0]))
    }
}

/// The ordered dictionary words held in a newline-delimited byte blob.
pub open spec fn words_of(bytes: Seq<u8>) -> Seq<Seq<char>> {
    words_from(bytes, Seq::empty())
}

/// Decode a newline-delimited word-list blob into its ordered words,
/// one per line, decoded lossily.
pub fn get_words(fbytes: &[u8]) -> (r: Vec<String>)
    ensures
        r.deep_view() == words_of(fbytes@),
{
    let n = fbytes.len();
    let mut ret: Vec<String> = Vec::new();
    let mut buf: Vec<u8> = Vec::new();
    let mut i: usize = 0;
    assert(fbytes@.skip(0) =~= fbytes@);
    assert(ret.deep_view() =~= Seq::<Seq<char>>::empty());
    assert(Seq::<Seq<char>>::empty() + words_from(fbytes@, buf@) =~= words_from(fbytes@, buf@));
    while i < n
        invariant
            n == fbytes@.len(),
            i <= n,
            ret.deep_view() + words_from(fbytes@.skip(i as int), buf@) == words_of(fbytes@),
        decreases n - i,
    {
        let ghost rest = fbytes@.skip(i as int);
        assert(rest.drop_first() =~= fbytes@.skip(i as int + 1));
        assert(rest[0] == fbytes@[i as int]);
        let c = fbytes[i];
        if c == 10 {
            let word = lossy_string(&buf);
            let ghost ret0 = ret.deep_view();
            let ghost buf0 = buf@;
            ret.push(word);
            buf.clear();
            assert(ret.deep_view() =~= ret0 + seq![lossy_decode(buf0)]);
            assert((ret0 + seq![lossy_decode(buf0)]) + words_from(
                fbytes@.skip(i as int + 1),
                Seq::empty(),
            ) =~= ret0 + (seq![lossy_decode(buf0)] + words_from(
                fbytes@.skip(i as int + 1),
                Seq::empty(),
            )));
        } else {
            buf.push(c);
        }
        i = i + 1;
    }
    assert(fbytes@.skip(n as int) =~= Seq::<u8>::empty());
    if buf.len() > 0 {
        let word = lossy_string(&buf);
        let ghost ret0 = ret.deep_view();
        let ghost buf0 = buf@;
        ret.push(word);
        assert(ret.deep_view() =~= ret0 + seq![lossy_decode(buf0)]);
    } else {
        assert(ret.deep_view() =~= ret.deep_view() + words_from(Seq::empty(), buf@));
    }
    ret
}

} // verus!
