//! Conversions between bytes and text.

use vstd::prelude::*;

verus! {

/// `std::str::from_utf8`: the bytes read as UTF-8, if they are valid UTF-8.
/// Claimed, as std documents it: `Some` exactly for valid UTF-8, and then the
/// string holds the characters that the bytes encode.
#[verifier::external_body]
pub(crate) fn utf8_str(bytes: &[u8]) -> (r: Option<&str>)
    ensures
        r is Some <==> vstd::utf8::valid_utf8(bytes@),
        r matches Some(s) ==> s@ == vstd::utf8::decode_utf8(bytes@),
{
    std::str::from_utf8(bytes).ok()
}

/// `String::push`: appends one character.
#[verifier::external_body]
pub(crate) fn push_char(s: &mut String, c: char)
    ensures
        final(s)@ == old(s)@.push(c),
{
    s.push(c)
}

/// The characters that the bytes stand for when each byte is taken as the
/// Unicode scalar of the same number (ISO 8859-1).
pub open spec fn latin1(bytes: Seq<u8>) -> Seq<char> {
    bytes.map_values(|b: u8| b as char)
}

/// Every byte is below 128.
pub open spec fn is_ascii_bytes(bytes: Seq<u8>) -> bool {
    forall|i: int| 0 <= i < bytes.len() ==> #[trigger] bytes[i] < 128
}

/// ASCII bytes are valid UTF-8, and read as UTF-8 they stand for the same
/// characters as read one byte per character.
pub proof fn lemma_ascii_utf8_is_latin1(bytes: Seq<u8>)
    requires
        is_ascii_bytes(bytes),
    ensures
        vstd::utf8::valid_utf8(bytes),
        vstd::utf8::decode_utf8(bytes) == latin1(bytes),
    decreases bytes.len(),
{
    if bytes.len() > 0 {
        let b = bytes[0];
        assert(b < 128);
        assert((b & 0x7f) == b) by (bit_vector)
            requires b < 128u8;
        let rest = vstd::utf8::pop_first_scalar(bytes);
        assert(rest =~= bytes.drop_first());
        lemma_ascii_utf8_is_latin1(rest);
        assert(vstd::utf8::decode_first_scalar(bytes) == b as u32);
        assert(latin1(bytes) =~= seq![b as char] + latin1(rest));
    }
}

} // verus!
