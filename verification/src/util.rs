use vstd::prelude::*;

verus! {

/// The character sequence spelled by a sequence of ASCII bytes.
pub open spec fn ascii_chars(bytes: Seq<u8>) -> Seq<char> {
    Seq::new(bytes.len(), |i: int| bytes[i] as char)
}

/// Relies on `String::from_utf8` from std: ASCII bytes are valid UTF-8, and
/// decode to the characters with the same code points, one per byte.
#[verifier::external_body]
pub fn string_from_ascii(bytes: Vec<u8>) -> (r: String)
    requires
        forall|i: int| 0 <= i < bytes@.len() ==> bytes@[i] < 128,
    ensures
        r@ == ascii_chars(bytes@),
{
    match String::from_utf8(bytes) {
        Ok(s) => s,
        Err(_) => String::new(),
    }
}

} // verus!
