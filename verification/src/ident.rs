//! Identifiers of snapshots.

use vstd::prelude::*;

verus! {

/// A lower-case hexadecimal digit.
pub open spec fn is_hex_digit(c: char) -> bool {
    ('0' <= c && c <= '9') || ('a' <= c && c <= 'f')
}

/// The text of a random UUID: thirty-two hexadecimal digits in five groups,
/// with the version number four at the head of the third.
pub open spec fn is_random_uuid(s: Seq<char>) -> bool {
    &&& s.len() == 36
    &&& s[14] == '4'
    &&& forall|i: int|
        0 <= i < 36 ==> if i == 8 || i == 13 || i == 18 || i == 23 {
            #[trigger] s[i] == '-'
        } else {
            is_hex_digit(s[i])
        }
}

/// `uuid::Uuid::new_v4`, as text: some random UUID, hyphenated and in lower
/// case. That it differs from those given out before is left to chance.
#[verifier::external_body]
pub(crate) fn fresh_id() -> (r: String)
    ensures
        is_random_uuid(r@),
{
    uuid::Uuid::new_v4().to_string()
}

} // verus!
