//! Identifiers of keys: universally unique identifiers in their usual text form.
use crate::text::{ascii_lower, digit_value};
use uuid::Uuid;
use vstd::prelude::*;

verus! {

/// Where the hyphens stand.
pub open spec fn hyphen_at(i: int) -> bool {
    i == 8 || i == 13 || i == 18 || i == 23
}

/// Five groups of hexadecimal digits with hyphens between them.
pub open spec fn hyphenated(s: Seq<char>) -> bool {
    &&& s.len() == 36
    &&& forall|i: int|
        0 <= i < 36 ==> if hyphen_at(i) {
            #[trigger] s[i] == '-'
        } else {
            digit_value(s[i], 16) is Some
        }
}

/// The form in which identifiers are written: hyphenated, in small letters.
pub open spec fn uuid_shaped(s: Seq<char>) -> bool {
    hyphenated(s) && ascii_lower(s) == s
}

/// The usual form of an identifier that was drawn at random: version 4, and the
/// variant that goes with it.
pub open spec fn random_shaped(s: Seq<char>) -> bool {
    uuid_shaped(s) && s[14] == '4' && (s[19] == '8' || s[19] == '9' || s[19] == 'a' || s[19] == 'b')
}

/// The same 32 digits with hyphens between the groups.
pub open spec fn with_hyphens(s: Seq<char>) -> Seq<char> {
    s.subrange(0, 8) + seq!['-'] + s.subrange(8, 12) + seq!['-'] + s.subrange(12, 16) + seq!['-']
        + s.subrange(16, 20) + seq!['-'] + s.subrange(20, 32)
}

/// What stands in braces or behind `urn:uuid:`.
pub open spec fn unwrapped(s: Seq<char>) -> Seq<char> {
    if s.len() == 38 && s[0] == '{' && s[37] == '}' {
        s.subrange(1, 37)
    } else if s.len() == 45 && ascii_lower(s.take(9)) == "urn:uuid:"@ {
        s.skip(9)
    } else {
        s
    }
}

/// The usual form of an identifier, if the text is one: 32 digits, or the
/// hyphenated form, which may be in braces or a URN.
pub open spec fn uuid_canonical(s: Seq<char>) -> Option<Seq<char>> {
    if s.len() == 32 && (forall|i: int| 0 <= i < 32 ==> digit_value(#[trigger] s[i], 16) is Some) {
        Some(ascii_lower(with_hyphens(s)))
    } else if hyphenated(unwrapped(s)) {
        Some(ascii_lower(unwrapped(s)))
    } else {
        None
    }
}

/// `uuid::Uuid::new_v4`, printed: a random identifier in the usual form, marked as
/// random.
#[verifier::external_body]
pub(crate) fn random_uuid() -> (r: String)
    ensures
        random_shaped(r@),
{
    Uuid::new_v4().to_string()
}

/// `uuid::Uuid::parse_str`, printed: an identifier in one of the accepted forms
/// comes out in the usual one, and anything else is refused.
#[verifier::external_body]
pub(crate) fn canonical_uuid(s: &str) -> (r: Option<String>)
    ensures
        match r {
            Some(c) => uuid_canonical(s@) == Some(c@),
            None => uuid_canonical(s@) is None,
        },
{
    Uuid::parse_str(s).ok().map(|u| u.to_string())
}

/// An identifier in the usual form stays as it is.
pub proof fn usual_form_is_kept(s: Seq<char>)
    requires
        uuid_shaped(s),
    ensures
        uuid_canonical(s) == Some(s),
{
}

} // verus!
