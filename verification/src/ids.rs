//! Identifiers as types of their own, so that one kind cannot be taken for another.
use crate::text::{decimal, decimal_text, is_less, join3, text_eq, text_less};
use vstd::prelude::*;
use vstd::string::*;
use vstd::utf8::*;

verus! {

/// Longest identifier that is taken from outside, in bytes.
pub const MAX_ID_LEN: usize = 64;

pub open spec fn id_byte(b: u8) -> bool {
    ||| 0x30 <= b <= 0x39
    ||| 0x41 <= b <= 0x5A
    ||| 0x61 <= b <= 0x7A
    ||| b == 0x2E || b == 0x5F || b == 0x3A || b == 0x40 || b == 0x2B || b == 0x2D
}

/// Letters, digits and `. _ : @ + -`, between one and [`MAX_ID_LEN`] of them, with
/// no two dots in a row.
pub open spec fn valid_id(s: Seq<char>) -> bool {
    let b = encode_utf8(s);
    &&& 1 <= b.len() <= MAX_ID_LEN
    &&& forall|i: int| 0 <= i < b.len() ==> id_byte(#[trigger] b[i])
    &&& forall|i: int| 0 <= i < b.len() - 1 ==> !(#[trigger] b[i] == 0x2E && b[i + 1] == 0x2E)
}

/// Whether an identifier from outside is acceptable.
pub fn is_valid_id(s: &str) -> (r: bool)
    ensures
        r == valid_id(s@),
{
    let b = s.as_bytes();
    if b.len() == 0 || b.len() > MAX_ID_LEN {
        return false;
    }
    let mut i: usize = 0;
    while i < b.len()
        invariant
            b@ == encode_utf8(s@),
            i <= b@.len(),
            forall|j: int| 0 <= j < i ==> id_byte(#[trigger] b@[j]),
            forall|j: int| 0 <= j < i - 1 ==> !(#[trigger] b@[j] == 0x2E && b@[j + 1] == 0x2E),
        decreases b@.len() - i,
    {
        let c: u8 = b[i];
        if !(0x30 <= c && c <= 0x39 || 0x41 <= c && c <= 0x5A || 0x61 <= c && c <= 0x7A || c == 0x2E
            || c == 0x5F || c == 0x3A || c == 0x40 || c == 0x2B || c == 0x2D) {
            assert(!id_byte(b@[i as int]));
            return false;
        }
        if c == 0x2E && i > 0 && b[i - 1] == 0x2E {
            assert(b@[i - 1] == 0x2E && b@[i - 1 + 1] == 0x2E);
            return false;
        }
        i = i + 1;
    }
    true
}

/// An identifier that was refused.
#[derive(Debug, Clone, PartialEq, Eq)]
pub struct InvalidId(pub String);

impl InvalidId {
    pub open spec fn text_spec(self) -> Seq<char> {
        "id inv\u{e1}lido ("@ + decimal(encode_utf8(self.0@).len())
            + " bytes; se admiten 1..=64 de [A-Za-z0-9._:@+-])"@
    }

    /// The refusal in words. The identifier itself is left out: it may hold
    /// anything.
    pub fn text(&self) -> (r: String)
        ensures
            r@ == self.text_spec(),
    {
        let n: usize = self.0.as_str().as_bytes().len();
        join3(
            "id inv\u{e1}lido (",
            decimal_text(n as u64).as_str(),
            " bytes; se admiten 1..=64 de [A-Za-z0-9._:@+-])",
        )
    }
}

/// A node of the network.
#[derive(Clone, Debug, Eq, Hash, Ord, PartialEq, PartialOrd)]
pub struct NodeId(pub String);

impl View for NodeId {
    type V = Seq<char>;

    open spec fn view(&self) -> Seq<char> {
        self.0@
    }
}

impl NodeId {
    pub fn new(v: &str) -> (r: Self)
        ensures
            r@ == v@,
    {
        NodeId(v.to_owned())
    }

    /// For identifiers from outside: what [`is_valid_id`] does not take is refused.
    pub fn try_new(v: &str) -> (r: Result<Self, InvalidId>)
        ensures
            match r {
                Ok(id) => valid_id(v@) && id@ == v@,
                Err(e) => !valid_id(v@) && e.0@ == v@,
            },
    {
        if is_valid_id(v) {
            Ok(NodeId(v.to_owned()))
        } else {
            Err(InvalidId(v.to_owned()))
        }
    }

    pub fn as_str(&self) -> (r: &str)
        ensures
            r@ == self@,
    {
        self.0.as_str()
    }

    pub fn into_inner(self) -> (r: String)
        ensures
            r@ == self@,
    {
        self.0
    }

    /// A copy of the identifier.
    pub fn copy(&self) -> (r: Self)
        ensures
            r@ == self@,
    {
        NodeId(self.0.clone())
    }

    /// Whether two identifiers are the same text.
    pub fn is(&self, other: &Self) -> (r: bool)
        ensures
            r == (self@ == other@),
    {
        text_eq(self.0.as_str(), other.0.as_str())
    }

    /// Whether the identifier comes before another in the order of their bytes.
    pub fn precedes(&self, other: &Self) -> (r: bool)
        ensures
            r == text_less(self@, other@),
    {
        is_less(self.0.as_str(), other.0.as_str())
    }
}

impl From<String> for NodeId {
    fn from(v: String) -> (r: Self) {
        NodeId(v)
    }
}

impl vstd::std_specs::convert::FromSpecImpl<String> for NodeId {
    open spec fn obeys_from_spec() -> bool {
        true
    }

    open spec fn from_spec(v: String) -> NodeId {
        NodeId(v)
    }
}

impl<'a> From<&'a str> for NodeId {
    fn from(v: &'a str) -> (r: Self)
        ensures
            r@ == v@,
    {
        NodeId(v.to_owned())
    }
}

impl<'a> vstd::std_specs::convert::FromSpecImpl<&'a str> for NodeId {
    open spec fn obeys_from_spec() -> bool {
        false
    }

    open spec fn from_spec(v: &'a str) -> NodeId {
        arbitrary()
    }
}

/// A secure application entity.
#[derive(Clone, Debug, Eq, Hash, Ord, PartialEq, PartialOrd)]
pub struct SaeId(pub String);

impl View for SaeId {
    type V = Seq<char>;

    open spec fn view(&self) -> Seq<char> {
        self.0@
    }
}

impl SaeId {
    pub fn new(v: &str) -> (r: Self)
        ensures
            r@ == v@,
    {
        SaeId(v.to_owned())
    }

    /// For identifiers from outside: what [`is_valid_id`] does not take is refused.
    pub fn try_new(v: &str) -> (r: Result<Self, InvalidId>)
        ensures
            match r {
                Ok(id) => valid_id(v@) && id@ == v@,
                Err(e) => !valid_id(v@) && e.0@ == v@,
            },
    {
        if is_valid_id(v) {
            Ok(SaeId(v.to_owned()))
        } else {
            Err(InvalidId(v.to_owned()))
        }
    }

    pub fn as_str(&self) -> (r: &str)
        ensures
            r@ == self@,
    {
        self.0.as_str()
    }

    pub fn into_inner(self) -> (r: String)
        ensures
            r@ == self@,
    {
        self.0
    }

    /// A copy of the identifier.
    pub fn copy(&self) -> (r: Self)
        ensures
            r@ == self@,
    {
        SaeId(self.0.clone())
    }

    /// Whether two identifiers are the same text.
    pub fn is(&self, other: &Self) -> (r: bool)
        ensures
            r == (self@ == other@),
    {
        text_eq(self.0.as_str(), other.0.as_str())
    }

    /// Whether the identifier comes before another in the order of their bytes.
    pub fn precedes(&self, other: &Self) -> (r: bool)
        ensures
            r == text_less(self@, other@),
    {
        is_less(self.0.as_str(), other.0.as_str())
    }
}

impl From<String> for SaeId {
    fn from(v: String) -> (r: Self) {
        SaeId(v)
    }
}

impl vstd::std_specs::convert::FromSpecImpl<String> for SaeId {
    open spec fn obeys_from_spec() -> bool {
        true
    }

    open spec fn from_spec(v: String) -> SaeId {
        SaeId(v)
    }
}

impl<'a> From<&'a str> for SaeId {
    fn from(v: &'a str) -> (r: Self)
        ensures
            r@ == v@,
    {
        SaeId(v.to_owned())
    }
}

impl<'a> vstd::std_specs::convert::FromSpecImpl<&'a str> for SaeId {
    open spec fn obeys_from_spec() -> bool {
        false
    }

    open spec fn from_spec(v: &'a str) -> SaeId {
        arbitrary()
    }
}

/// One key.
#[derive(Clone, Debug, Eq, Hash, Ord, PartialEq, PartialOrd)]
pub struct KeyId(pub String);

impl View for KeyId {
    type V = Seq<char>;

    open spec fn view(&self) -> Seq<char> {
        self.0@
    }
}

impl KeyId {
    pub fn new(v: &str) -> (r: Self)
        ensures
            r@ == v@,
    {
        KeyId(v.to_owned())
    }

    /// For identifiers from outside: what [`is_valid_id`] does not take is refused.
    pub fn try_new(v: &str) -> (r: Result<Self, InvalidId>)
        ensures
            match r {
                Ok(id) => valid_id(v@) && id@ == v@,
                Err(e) => !valid_id(v@) && e.0@ == v@,
            },
    {
        if is_valid_id(v) {
            Ok(KeyId(v.to_owned()))
        } else {
            Err(InvalidId(v.to_owned()))
        }
    }

    pub fn as_str(&self) -> (r: &str)
        ensures
            r@ == self@,
    {
        self.0.as_str()
    }

    pub fn into_inner(self) -> (r: String)
        ensures
            r@ == self@,
    {
        self.0
    }

    /// A copy of the identifier.
    pub fn copy(&self) -> (r: Self)
        ensures
            r@ == self@,
    {
        KeyId(self.0.clone())
    }

    /// Whether two identifiers are the same text.
    pub fn is(&self, other: &Self) -> (r: bool)
        ensures
            r == (self@ == other@),
    {
        text_eq(self.0.as_str(), other.0.as_str())
    }

    /// Whether the identifier comes before another in the order of their bytes.
    pub fn precedes(&self, other: &Self) -> (r: bool)
        ensures
            r == text_less(self@, other@),
    {
        is_less(self.0.as_str(), other.0.as_str())
    }
}

impl From<String> for KeyId {
    fn from(v: String) -> (r: Self) {
        KeyId(v)
    }
}

impl vstd::std_specs::convert::FromSpecImpl<String> for KeyId {
    open spec fn obeys_from_spec() -> bool {
        true
    }

    open spec fn from_spec(v: String) -> KeyId {
        KeyId(v)
    }
}

impl<'a> From<&'a str> for KeyId {
    fn from(v: &'a str) -> (r: Self)
        ensures
            r@ == v@,
    {
        KeyId(v.to_owned())
    }
}

impl<'a> vstd::std_specs::convert::FromSpecImpl<&'a str> for KeyId {
    open spec fn obeys_from_spec() -> bool {
        false
    }

    open spec fn from_spec(v: &'a str) -> KeyId {
        arbitrary()
    }
}

/// A link of the topology.
#[derive(Clone, Debug, Eq, Hash, Ord, PartialEq, PartialOrd)]
pub struct LinkId(pub String);

impl View for LinkId {
    type V = Seq<char>;

    open spec fn view(&self) -> Seq<char> {
        self.0@
    }
}

impl LinkId {
    pub fn new(v: &str) -> (r: Self)
        ensures
            r@ == v@,
    {
        LinkId(v.to_owned())
    }

    /// For identifiers from outside: what [`is_valid_id`] does not take is refused.
    pub fn try_new(v: &str) -> (r: Result<Self, InvalidId>)
        ensures
            match r {
                Ok(id) => valid_id(v@) && id@ == v@,
                Err(e) => !valid_id(v@) && e.0@ == v@,
            },
    {
        if is_valid_id(v) {
            Ok(LinkId(v.to_owned()))
        } else {
            Err(InvalidId(v.to_owned()))
        }
    }

    pub fn as_str(&self) -> (r: &str)
        ensures
            r@ == self@,
    {
        self.0.as_str()
    }

    pub fn into_inner(self) -> (r: String)
        ensures
            r@ == self@,
    {
        self.0
    }

    /// A copy of the identifier.
    pub fn copy(&self) -> (r: Self)
        ensures
            r@ == self@,
    {
        LinkId(self.0.clone())
    }

    /// Whether two identifiers are the same text.
    pub fn is(&self, other: &Self) -> (r: bool)
        ensures
            r == (self@ == other@),
    {
        text_eq(self.0.as_str(), other.0.as_str())
    }

    /// Whether the identifier comes before another in the order of their bytes.
    pub fn precedes(&self, other: &Self) -> (r: bool)
        ensures
            r == text_less(self@, other@),
    {
        is_less(self.0.as_str(), other.0.as_str())
    }
}

impl From<String> for LinkId {
    fn from(v: String) -> (r: Self) {
        LinkId(v)
    }
}

impl vstd::std_specs::convert::FromSpecImpl<String> for LinkId {
    open spec fn obeys_from_spec() -> bool {
        true
    }

    open spec fn from_spec(v: String) -> LinkId {
        LinkId(v)
    }
}

impl<'a> From<&'a str> for LinkId {
    fn from(v: &'a str) -> (r: Self)
        ensures
            r@ == v@,
    {
        LinkId(v.to_owned())
    }
}

impl<'a> vstd::std_specs::convert::FromSpecImpl<&'a str> for LinkId {
    open spec fn obeys_from_spec() -> bool {
        false
    }

    open spec fn from_spec(v: &'a str) -> LinkId {
        arbitrary()
    }
}

/// An identifier is safe wherever it is put: it is neither empty nor long, and holds
/// no white space, no slash, no quotes, nothing that cannot be printed and no two dots
/// in a row.
pub proof fn identifiers_are_safe(s: Seq<char>)
    requires
        valid_id(s),
    ensures
        ({
            let b = encode_utf8(s);
            &&& 1 <= b.len() <= 64
            &&& forall|i: int|
                0 <= i < b.len() ==> 0x21 <= (#[trigger] b[i]) < 0x7F && b[i] != 0x2F && b[i] != 0x5C
                    && b[i] != 0x22 && b[i] != 0x27 && b[i] != 0x25 && b[i] != 0x3F && b[i] != 0x23
                    && b[i] != 0x26 && b[i] != 0x3C && b[i] != 0x3E && b[i] != 0x24 && b[i] != 0x2A
                    && b[i] != 0x2C && b[i] != 0x3B
            &&& forall|i: int| 0 <= i < b.len() - 1 && #[trigger] b[i] == 0x2E ==> b[i + 1] != 0x2E
        }),
{
    let b = encode_utf8(s);
    assert forall|i: int| 0 <= i < b.len() implies 0x21 <= (#[trigger] b[i]) < 0x7F && b[i] != 0x2F
        && b[i] != 0x5C && b[i] != 0x22 && b[i] != 0x27 && b[i] != 0x25 && b[i] != 0x3F && b[i]
        != 0x23 && b[i] != 0x26 && b[i] != 0x3C && b[i] != 0x3E && b[i] != 0x24 && b[i] != 0x2A
        && b[i] != 0x2C && b[i] != 0x3B by {
        assert(id_byte(b[i]));
    }
}

/// Letters and digits make an identifier, and so do the signs `. _ : @ + -` among
/// them, up to 64 in all, as long as no two dots meet.
pub proof fn letters_digits_and_signs_make_identifiers(s: Seq<char>)
    requires
        1 <= encode_utf8(s).len() <= 64,
        forall|i: int|
            0 <= i < encode_utf8(s).len() ==> {
                let c = #[trigger] encode_utf8(s)[i];
                0x61 <= c <= 0x7A || 0x41 <= c <= 0x5A || 0x30 <= c <= 0x39 || c == 0x2D || c == 0x5F
                    || c == 0x3A || c == 0x40 || c == 0x2B || (c == 0x2E && (i + 1
                    < encode_utf8(s).len() ==> encode_utf8(s)[i + 1] != 0x2E))
            },
    ensures
        valid_id(s),
{
    let b = encode_utf8(s);
    assert forall|i: int| 0 <= i < b.len() - 1 implies !(#[trigger] b[i] == 0x2E && b[i + 1]
        == 0x2E) by {
    }
}

} // verus!
