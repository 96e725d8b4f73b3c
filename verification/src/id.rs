//! Identifiers.
use vstd::prelude::*;

verus! {

/// Whether a character is a hexadecimal digit in lower case.
pub open spec fn hex_digit(c: char) -> bool {
    '0' <= c <= '9' || 'a' <= c <= 'f'
}

/// Whether a text is an identifier: a random UUID, with hyphens and in lower case.
pub open spec fn identifier(s: Seq<char>) -> bool {
    &&& s.len() == 36
    &&& forall|i: int|
        0 <= i < 36 ==> if i == 8 || i == 13 || i == 18 || i == 23 {
            #[trigger] s[i] == '-'
        } else {
            hex_digit(s[i])
        }
    &&& s[14] == '4'
    &&& s[19] == '8' || s[19] == '9' || s[19] == 'a' || s[19] == 'b'
}

/// `uuid::Uuid::new_v4`, written out: a random UUID of version 4. Nothing is said of which one it
/// is, and it is not said that no two are the same.
#[verifier::external_body]
pub(crate) fn random_uuid() -> (r: String)
    ensures
        identifier(r@),
{
    uuid::Uuid::new_v4().to_string()
}

/// A new identifier.
pub fn new_id() -> (r: String)
    ensures
        identifier(r@),
{
    random_uuid()
}

} // verus!
