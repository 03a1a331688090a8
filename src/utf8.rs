use vstd::prelude::*;

verus! {

/// The text that UTF-8 bytes spell, or nothing when they are not valid UTF-8.
pub uninterp spec fn utf8_text(b: Seq<u8>) -> Option<Seq<char>>;

/// Bytes below 128 only.
pub open spec fn is_ascii_bytes(b: Seq<u8>) -> bool {
    forall|i: int| 0 <= i < b.len() ==> #[trigger] b[i] < 128
}

/// Relies on std's `String::from_utf8`: it succeeds exactly on valid UTF-8,
/// and ASCII bytes are valid UTF-8 spelling the same characters.
#[verifier::external_body]
pub(crate) fn string_from_utf8(b: &[u8]) -> (r: Option<String>)
    ensures
        r is Some <==> utf8_text(b@) is Some,
        r is Some ==> r->0@ == utf8_text(b@)->0,
        is_ascii_bytes(b@) ==> r is Some && r->0@ == b@.map_values(|c: u8| c as char),
{
    String::from_utf8(b.to_vec()).ok()
}

} // verus!
