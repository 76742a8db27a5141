//! Random identifiers.
use vstd::prelude::*;

verus! {

/// Whether `c` is a hexadecimal digit, in lower case where it is a letter.
pub open spec fn is_hexadecimal(c: char) -> bool {
    '0' <= c <= '9' || 'a' <= c <= 'f'
}

/// Whether `s` is the text of a random identifier of version 4: hexadecimal digits
/// in groups of 8, 4, 4, 4 and 12 with hyphens in between, the third group with
/// the version and the fourth with the variant in front.
pub open spec fn is_random_identifier(s: Seq<char>) -> bool {
    &&& s.len() == 36
    &&& forall|i: int|
        0 <= i < 36 ==> if i == 8 || i == 13 || i == 18 || i == 23 {
            #[trigger] s[i] == '-'
        } else {
            is_hexadecimal(s[i])
        }
    &&& s[14] == '4'
    &&& (s[19] == '8' || s[19] == '9' || s[19] == 'a' || s[19] == 'b')
}

/// `uuid::Uuid::new_v4`, written out: a random identifier. Which one it is rests on
/// chance, so nothing is claimed but its form.
#[verifier::external_body]
pub(crate) fn random_identifier() -> (id: String)
    ensures
        is_random_identifier(id@),
{
    uuid::Uuid::new_v4().to_string()
}

} // verus!
