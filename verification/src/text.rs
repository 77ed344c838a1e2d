//! Text helpers: UTF-8 conversion between `String` and bytes, and the
//! character-level edits the library makes to names.

use vstd::prelude::*;
use vstd::string::*;
use vstd::utf8::*;

verus! {

broadcast use vstd::utf8::group_utf8_lib;

/// The UTF-8 bytes of a string's characters.
pub open spec fn utf8(s: Seq<char>) -> Seq<u8> {
    encode_utf8(s)
}

/// Calls `String::from_utf8`: the string whose UTF-8 bytes are `bytes`,
/// or `None` where `bytes` is not UTF-8. The contract claims that std's
/// notion of valid UTF-8 is vstd's `valid_utf8`, and that the string
/// holds exactly the given bytes.
#[verifier::external_body]
pub(crate) fn string_from_utf8(bytes: Vec<u8>) -> (res: Option<String>)
    ensures
        res is Some <==> valid_utf8(bytes@),
        res matches Some(s) ==> encode_utf8(s@) == bytes@,
{
    match String::from_utf8(bytes) {
        Ok(s) => Some(s),
        Err(_) => None,
    }
}

/// The text `String::from_utf8_lossy` makes of `b`: each run of bytes that
/// is not UTF-8 stands as U+FFFD there. Named only; for valid UTF-8 it is
/// stated below.
pub uninterp spec fn utf8_lossy(b: Seq<u8>) -> Seq<char>;

/// The text shown for a byte string: its characters where it is UTF-8,
/// what `String::from_utf8_lossy` makes of it otherwise.
pub open spec fn shown_text(b: Seq<u8>) -> Seq<char> {
    if valid_utf8(b) {
        decode_utf8(b)
    } else {
        utf8_lossy(b)
    }
}

/// Calls `String::from_utf8_lossy` and takes the text it returns. The
/// contract names the result and claims, as std documents, that valid
/// UTF-8 is decoded unchanged; what stands in place of invalid sequences
/// is left to the name.
#[verifier::external_body]
pub(crate) fn text_lossy(bytes: &[u8]) -> (s: String)
    ensures
        s@ == utf8_lossy(bytes@),
        valid_utf8(bytes@) ==> s@ == decode_utf8(bytes@),
{
    String::from_utf8_lossy(bytes).into_owned()
}

/// The UTF-8 bytes of two strings one after the other are those of the
/// first followed by those of the second.
pub proof fn lemma_utf8_concat(a: Seq<char>, b: Seq<char>)
    ensures
        utf8(a + b) == utf8(a) + utf8(b),
    decreases a.len(),
{
    if a.len() > 0 {
        lemma_utf8_concat(a.drop_first(), b);
        assert((a + b).drop_first() =~= a.drop_first() + b);
        assert((a + b)[0] == a[0]);
        assert(utf8(a + b) =~= encode_scalar(a[0] as u32) + (utf8(a.drop_first()) + utf8(b)));
    } else {
        assert(a + b =~= b);
        assert(utf8(a) =~= Seq::<u8>::empty());
    }
}

/// Text that was encoded shows as itself.
pub proof fn lemma_shown_text_of_utf8(s: Seq<char>)
    ensures
        shown_text(utf8(s)) == s,
{
}

/// Calls `String::push`: appends one character.
#[verifier::external_body]
pub(crate) fn push_char(s: &mut String, c: char)
    ensures
        final(s)@ == old(s)@.push(c),
{
    s.push(c)
}

/// A `String` holding the characters of `s`.
pub fn string_from_str(s: &str) -> (res: String)
    ensures
        res@ == s@,
{
    s.to_owned()
}

/// Decodes UTF-8 bytes into a string.
pub fn text_from_bytes(bytes: &[u8]) -> (res: Option<String>)
    ensures
        res is Some <==> valid_utf8(bytes@),
        res matches Some(s) ==> s@ == decode_utf8(bytes@),
{
    let v = vstd::slice::slice_to_vec(bytes);
    let r = string_from_utf8(v);
    proof {
        if r is Some {
            assert(decode_utf8(encode_utf8(r->0@)) == r->0@);
        }
    }
    r
}

/// The bytes of a string.
pub fn text_bytes(s: &String) -> (res: Vec<u8>)
    ensures
        res@ == utf8(s@),
{
    s.as_str().as_bytes_vec()
}

/// `s` with every space replaced by an underscore.
pub open spec fn spaces_to_underscores(s: Seq<char>) -> Seq<char> {
    s.map_values(|c: char| if c == ' ' { '_' } else { c })
}

/// Appends `s` to `out`, every space replaced by an underscore.
pub fn push_replacing_spaces(out: &mut String, s: &str)
    ensures
        final(out)@ == old(out)@ + spaces_to_underscores(s@),
{
    let n = s.unicode_len();
    let mut i: usize = 0;
    while i < n
        invariant
            n == s@.len(),
            i <= n,
            out@ == old(out)@ + spaces_to_underscores(s@.take(i as int)),
        decreases n - i,
    {
        let c = s.get_char(i);
        let d = if c == ' ' { '_' } else { c };
        push_char(out, d);
        proof {
            assert(spaces_to_underscores(s@.take(i as int + 1)) =~= spaces_to_underscores(
                s@.take(i as int),
            ).push(d));
        }
        i = i + 1;
    }
    proof {
        assert(s@.take(n as int) =~= s@);
    }
}

} // verus!
