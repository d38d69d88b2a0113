//! Fresh record ids: random (version 4) UUIDs in their hyphenated text form.
use vstd::prelude::*;

verus! {

/// A lower-case hexadecimal digit.
pub open spec fn is_lower_hex(c: char) -> bool {
    ('0' <= c && c <= '9') || ('a' <= c && c <= 'f')
}

/// The hyphenated UUID text shape: 36 characters, hyphens at positions 8,
/// 13, 18 and 23, lower-case hex digits everywhere else.
pub open spec fn is_uuid_text(s: Seq<char>) -> bool {
    &&& s.len() == 36
    &&& forall|i: int| 0 <= i < 36 ==> (if i == 8 || i == 13 || i == 18 || i == 23 {
        #[trigger] s[i] == '-'
    } else {
        is_lower_hex(s[i])
    })
}

/// `uuid::Uuid::new_v4().to_string()`: a random UUID written hyphenated in
/// lower case (the crate's `Display`, `format_hyphenated`). Nothing is
/// promised of the digits beyond their shape: they are random.
#[verifier::external_body]
pub(crate) fn new_uuid() -> (r: String)
    ensures
        is_uuid_text(r@),
{
    uuid::Uuid::new_v4().to_string()
}

} // verus!
