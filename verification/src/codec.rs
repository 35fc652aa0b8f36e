//! Bytes as text: hexadecimal and base64.
use crate::text::digit_value;
use base64::engine::general_purpose::STANDARD;
use base64::Engine;
use vstd::prelude::*;

verus! {

/// A number below 16 as a hexadecimal digit in small letters.
pub open spec fn hex_digit(n: int) -> char {
    if n < 10 {
        (0x30 + n) as char
    } else {
        (0x57 + n) as char
    }
}

/// Two digits for each byte, the high one first.
pub open spec fn hex_text(b: Seq<u8>) -> Seq<char> {
    Seq::new(
        2 * b.len(),
        |i: int|
            if i % 2 == 0 {
                hex_digit(b[i / 2] as int / 16)
            } else {
                hex_digit(b[i / 2] as int % 16)
            },
    )
}

/// The bytes that pairs of hexadecimal digits, small or capital, stand for.
pub open spec fn hex_bytes(s: Seq<char>) -> Option<Seq<u8>> {
    if s.len() % 2 == 0 && (forall|i: int|
        0 <= i < s.len() ==> digit_value(#[trigger] s[i], 16) is Some) {
        Some(
            Seq::new(
                s.len() / 2,
                |i: int|
                    (16 * digit_value(s[2 * i], 16)->0 + digit_value(s[2 * i + 1], 16)->0) as u8,
            ),
        )
    } else {
        None
    }
}

/// Hexadecimal text reads back as the bytes it was made of.
pub proof fn hex_reads_back(b: Seq<u8>)
    ensures
        hex_bytes(hex_text(b)) == Some(b),
        hex_text(b).len() == 2 * b.len(),
{
    let s = hex_text(b);
    assert forall|i: int| 0 <= i < s.len() implies digit_value(#[trigger] s[i], 16) == Some(
        (if i % 2 == 0 {
            b[i / 2] as int / 16
        } else {
            b[i / 2] as int % 16
        }) as nat,
    ) by {
    }
    let r = hex_bytes(s)->0;
    assert forall|i: int| 0 <= i < b.len() implies #[trigger] r[i] == b[i] by {
        assert(digit_value(s[2 * i], 16) == Some((b[i] as int / 16) as nat));
        assert(digit_value(s[2 * i + 1], 16) == Some((b[i] as int % 16) as nat));
    }
    assert(r =~= b);
}

/// `hex::encode`: small letters, two digits for each byte.
#[verifier::external_body]
pub(crate) fn hex_encode(b: &[u8]) -> (r: String)
    ensures
        r@ == hex_text(b@),
{
    hex::encode(b)
}

/// `hex::decode`: an even number of hexadecimal digits of either case; anything
/// else is refused.
#[verifier::external_body]
pub(crate) fn hex_decode(s: &str) -> (r: Option<Vec<u8>>)
    ensures
        match r {
            Some(b) => hex_bytes(s@) == Some(b@),
            None => hex_bytes(s@) is None,
        },
{
    hex::decode(s).ok()
}

/// The character of the standard base64 alphabet that stands for six bits.
pub open spec fn base64_char(n: int) -> char {
    if n < 26 {
        ('A' as int + n) as char
    } else if n < 52 {
        ('a' as int + n - 26) as char
    } else if n < 62 {
        ('0' as int + n - 52) as char
    } else if n == 62 {
        '+'
    } else {
        '/'
    }
}

/// The base64 text of some bytes, in the standard alphabet, padded: four characters
/// for three bytes.
pub open spec fn base64_text(b: Seq<u8>) -> Seq<char>
    decreases b.len(),
{
    if b.len() == 0 {
        Seq::empty()
    } else if b.len() == 1 {
        seq![base64_char(b[0] as int / 4), base64_char(b[0] as int % 4 * 16), '=', '=']
    } else if b.len() == 2 {
        seq![
            base64_char(b[0] as int / 4),
            base64_char(b[0] as int % 4 * 16 + b[1] as int / 16),
            base64_char(b[1] as int % 16 * 4),
            '=',
        ]
    } else {
        seq![
            base64_char(b[0] as int / 4),
            base64_char(b[0] as int % 4 * 16 + b[1] as int / 16),
            base64_char(b[1] as int % 16 * 4 + b[2] as int / 64),
            base64_char(b[2] as int % 64),
        ] + base64_text(b.skip(3))
    }
}

/// The bytes of a base64 text, or why it is none.
pub uninterp spec fn base64_bytes(s: Seq<char>) -> Result<Seq<u8>, Seq<char>>;

/// `Engine::encode` of `base64`'s `STANDARD` engine: the padded text in the standard
/// alphabet. Decoding gives the bytes back.
#[verifier::external_body]
pub(crate) fn base64_encode(b: &[u8]) -> (r: String)
    ensures
        r@ == base64_text(b@),
        base64_bytes(r@) is Ok && base64_bytes(r@)->Ok_0 == b@,
{
    STANDARD.encode(b)
}

/// `Engine::decode` of `base64`'s `STANDARD` engine, which takes nothing but what
/// encoding gives: padding is required, and bits that stand for nothing are zero. An
/// error is handed on in its own words.
#[verifier::external_body]
pub(crate) fn base64_decode(s: &str) -> (r: Result<Vec<u8>, String>)
    ensures
        match (r, base64_bytes(s@)) {
            (Ok(b), Ok(c)) => b@ == c && base64_text(b@) == s@,
            (Err(e), Err(t)) => e@ == t,
            _ => false,
        },
{
    STANDARD.decode(s).map_err(|e| e.to_string())
}

} // verus!
