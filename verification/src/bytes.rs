//! Fixed-width integers and length-prefixed fields as byte sequences.
use vstd::prelude::*;

verus! {

pub open spec fn be16(x: u16) -> Seq<u8> {
    seq![(x / 0x100) as u8, (x % 0x100) as u8]
}

pub open spec fn be32(x: u32) -> Seq<u8> {
    seq![
        (x / 0x100_0000) as u8,
        (x / 0x1_0000 % 0x100) as u8,
        (x / 0x100 % 0x100) as u8,
        (x % 0x100) as u8,
    ]
}

pub open spec fn be64(x: u64) -> Seq<u8> {
    be32((x / 0x1_0000_0000) as u32) + be32((x % 0x1_0000_0000) as u32)
}

pub open spec fn le16(x: u16) -> Seq<u8> {
    seq![(x % 0x100) as u8, (x / 0x100) as u8]
}

pub open spec fn le32(x: u32) -> Seq<u8> {
    seq![
        (x % 0x100) as u8,
        (x / 0x100 % 0x100) as u8,
        (x / 0x1_0000 % 0x100) as u8,
        (x / 0x100_0000) as u8,
    ]
}

/// The number that two bytes hold, lowest first.
pub open spec fn le16_value(b: Seq<u8>) -> int {
    b[0] + 0x100 * b[1]
}

/// The number that four bytes hold, lowest first.
pub open spec fn le32_value(b: Seq<u8>) -> int {
    b[0] + 0x100 * b[1] + 0x1_0000 * b[2] + 0x100_0000 * b[3]
}

/// `x` behind its length in two bytes; of a longer one the low two bytes stand.
pub open spec fn lp16(x: Seq<u8>) -> Seq<u8> {
    be16(x.len() as u16) + x
}

/// `x` behind its length in four bytes; of a longer one the low four bytes stand.
pub open spec fn lp32(x: Seq<u8>) -> Seq<u8> {
    be32(x.len() as u32) + x
}

pub proof fn lemma_be16_injective(a: u16, b: u16)
    requires
        be16(a) == be16(b),
    ensures
        a == b,
{
    assert(be16(a)[0] == be16(b)[0]);
    assert(be16(a)[1] == be16(b)[1]);
}

pub proof fn lemma_be32_injective(a: u32, b: u32)
    requires
        be32(a) == be32(b),
    ensures
        a == b,
{
    assert(be32(a)[0] == be32(b)[0]);
    assert(be32(a)[1] == be32(b)[1]);
    assert(be32(a)[2] == be32(b)[2]);
    assert(be32(a)[3] == be32(b)[3]);
}

pub proof fn lemma_be64_injective(a: u64, b: u64)
    requires
        be64(a) == be64(b),
    ensures
        a == b,
{
    let ah = (a / 0x1_0000_0000) as u32;
    let al = (a % 0x1_0000_0000) as u32;
    let bh = (b / 0x1_0000_0000) as u32;
    let bl = (b % 0x1_0000_0000) as u32;
    assert(be64(a).subrange(0, 4) =~= be32(ah));
    assert(be64(b).subrange(0, 4) =~= be32(bh));
    assert(be64(a).subrange(4, 8) =~= be32(al));
    assert(be64(b).subrange(4, 8) =~= be32(bl));
    lemma_be32_injective(ah, bh);
    lemma_be32_injective(al, bl);
}

/// Two sequences that agree as a whole agree on a first part of one length
/// and on what is left.
pub proof fn lemma_split_equal<T>(a: Seq<T>, x: Seq<T>, b: Seq<T>, y: Seq<T>)
    requires
        a + x == b + y,
        a.len() == b.len(),
    ensures
        a == b,
        x == y,
{
    assert((a + x).subrange(0, a.len() as int) =~= a);
    assert((b + y).subrange(0, b.len() as int) =~= b);
    assert((a + x).subrange(a.len() as int, (a + x).len() as int) =~= x);
    assert((b + y).subrange(b.len() as int, (b + y).len() as int) =~= y);
}

/// A field with its length in front cannot trade bytes with what follows it.
pub proof fn lemma_lp16_split(a: Seq<u8>, x: Seq<u8>, b: Seq<u8>, y: Seq<u8>)
    requires
        lp16(a) + x == lp16(b) + y,
        a.len() <= u16::MAX,
        b.len() <= u16::MAX,
    ensures
        a == b,
        x == y,
{
    let al = be16(a.len() as u16);
    let bl = be16(b.len() as u16);
    assert(lp16(a) + x =~= al + (a + x));
    assert(lp16(b) + y =~= bl + (b + y));
    lemma_split_equal(al, a + x, bl, b + y);
    lemma_be16_injective(a.len() as u16, b.len() as u16);
    lemma_split_equal(a, x, b, y);
}

/// The same with a four-byte length.
pub proof fn lemma_lp32_split(a: Seq<u8>, x: Seq<u8>, b: Seq<u8>, y: Seq<u8>)
    requires
        lp32(a) + x == lp32(b) + y,
        a.len() <= u32::MAX,
        b.len() <= u32::MAX,
    ensures
        a == b,
        x == y,
{
    let al = be32(a.len() as u32);
    let bl = be32(b.len() as u32);
    assert(lp32(a) + x =~= al + (a + x));
    assert(lp32(b) + y =~= bl + (b + y));
    lemma_split_equal(al, a + x, bl, b + y);
    lemma_be32_injective(a.len() as u32, b.len() as u32);
    lemma_split_equal(a, x, b, y);
}

pub fn push_all(out: &mut Vec<u8>, x: &[u8])
    ensures
        final(out)@ == old(out)@ + x@,
{
    let ghost before = out@;
    out.extend_from_slice(x);
    assert(out@ =~= before + x@);
}

pub fn push_be16(out: &mut Vec<u8>, x: u16)
    ensures
        final(out)@ == old(out)@ + be16(x),
{
    let ghost before = out@;
    out.push((x / 0x100) as u8);
    out.push((x % 0x100) as u8);
    assert(out@ =~= before + be16(x));
}

pub fn push_be32(out: &mut Vec<u8>, x: u32)
    ensures
        final(out)@ == old(out)@ + be32(x),
{
    let ghost before = out@;
    out.push((x / 0x100_0000) as u8);
    out.push((x / 0x1_0000 % 0x100) as u8);
    out.push((x / 0x100 % 0x100) as u8);
    out.push((x % 0x100) as u8);
    assert(out@ =~= before + be32(x));
}

pub fn push_be64(out: &mut Vec<u8>, x: u64)
    ensures
        final(out)@ == old(out)@ + be64(x),
{
    let ghost before = out@;
    push_be32(out, (x / 0x1_0000_0000) as u32);
    push_be32(out, (x % 0x1_0000_0000) as u32);
    assert(out@ =~= before + be64(x));
}

pub fn push_le16(out: &mut Vec<u8>, x: u16)
    ensures
        final(out)@ == old(out)@ + le16(x),
{
    let ghost before = out@;
    out.push((x % 0x100) as u8);
    out.push((x / 0x100) as u8);
    assert(out@ =~= before + le16(x));
}

pub fn push_le32(out: &mut Vec<u8>, x: u32)
    ensures
        final(out)@ == old(out)@ + le32(x),
{
    let ghost before = out@;
    out.push((x % 0x100) as u8);
    out.push((x / 0x100 % 0x100) as u8);
    out.push((x / 0x1_0000 % 0x100) as u8);
    out.push((x / 0x100_0000) as u8);
    assert(out@ =~= before + le32(x));
}

pub fn push_lp16(out: &mut Vec<u8>, x: &[u8])
    ensures
        final(out)@ == old(out)@ + lp16(x@),
{
    let ghost before = out@;
    push_be16(out, x.len() as u16);
    push_all(out, x);
    assert(out@ =~= before + lp16(x@));
}

pub fn push_lp32(out: &mut Vec<u8>, x: &[u8])
    ensures
        final(out)@ == old(out)@ + lp32(x@),
{
    let ghost before = out@;
    push_be32(out, x.len() as u32);
    push_all(out, x);
    assert(out@ =~= before + lp32(x@));
}

pub fn read_le16(b: &[u8], at: usize) -> (r: u16)
    requires
        at + 2 <= b@.len(),
    ensures
        r == le16_value(b@.subrange(at as int, at + 2)),
{
    b[at] as u16 + 0x100 * (b[at + 1] as u16)
}

pub fn read_le32(b: &[u8], at: usize) -> (r: u32)
    requires
        at + 4 <= b@.len(),
    ensures
        r == le32_value(b@.subrange(at as int, at + 4)),
{
    b[at] as u32 + 0x100 * (b[at + 1] as u32) + 0x1_0000 * (b[at + 2] as u32) + 0x100_0000 * (b[at
        + 3] as u32)
}

/// A copy of `len` bytes from `at` on.
pub fn copy_range(b: &[u8], at: usize, len: usize) -> (r: Vec<u8>)
    requires
        at + len <= b@.len(),
    ensures
        r@ == b@.subrange(at as int, at + len),
{
    let n: usize = b.len();
    assert(at + len <= n);
    vstd::slice::slice_to_vec(vstd::slice::slice_subrange(b, at, at + len))
}

/// Whether two byte strings are the same.
pub fn bytes_equal(a: &[u8], b: &[u8]) -> (r: bool)
    ensures
        r == (a@ == b@),
{
    if a.len() != b.len() {
        return false;
    }
    let mut i: usize = 0;
    while i < a.len()
        invariant
            i <= a@.len(),
            a@.len() == b@.len(),
            a@.subrange(0, i as int) == b@.subrange(0, i as int),
        decreases a@.len() - i,
    {
        if a[i] != b[i] {
            return false;
        }
        assert(a@.subrange(0, i + 1) =~= a@.subrange(0, i as int).push(a@[i as int]));
        assert(b@.subrange(0, i + 1) =~= b@.subrange(0, i as int).push(b@[i as int]));
        i = i + 1;
    }
    assert(a@ =~= a@.subrange(0, i as int));
    assert(b@ =~= b@.subrange(0, i as int));
    true
}

/// Thirty-two bytes as an array.
pub fn array32(b: &[u8]) -> (r: [u8; 32])
    requires
        b@.len() == 32,
    ensures
        r@ == b@,
{
    let mut a: [u8; 32] = [0u8; 32];
    let mut i: usize = 0;
    while i < 32
        invariant
            i <= 32,
            b@.len() == 32,
            forall|j: int| 0 <= j < i ==> a@[j] == b@[j],
        decreases 32 - i,
    {
        a[i] = b[i];
        i = i + 1;
    }
    assert(a@ =~= b@);
    a
}

/// Sixteen bytes as an array.
pub fn array16(b: &[u8]) -> (r: [u8; 16])
    requires
        b@.len() == 16,
    ensures
        r@ == b@,
{
    let mut a: [u8; 16] = [0u8; 16];
    let mut i: usize = 0;
    while i < 16
        invariant
            i <= 16,
            b@.len() == 16,
            forall|j: int| 0 <= j < i ==> a@[j] == b@[j],
        decreases 16 - i,
    {
        a[i] = b[i];
        i = i + 1;
    }
    assert(a@ =~= b@);
    a
}

/// The low byte of a number comes first.
pub proof fn little_end_comes_first(x: u32, y: u16)
    ensures
        le32(x).len() == 4,
        le32(x)[0] + 256 * le32(x)[1] + 65536 * le32(x)[2] + 16777216 * le32(x)[3] == x,
        le16(y).len() == 2,
        le16(y)[0] + 256 * le16(y)[1] == y,
{
}

/// The high byte of a number comes first.
pub proof fn big_end_comes_first(x: u32, y: u16)
    ensures
        be32(x).len() == 4,
        be32(x)[3] + 256 * be32(x)[2] + 65536 * be32(x)[1] + 16777216 * be32(x)[0] == x,
        be16(y).len() == 2,
        be16(y)[1] + 256 * be16(y)[0] == y,
{
}

/// The high byte of a long number comes first too.
pub proof fn big_end_of_long_numbers_comes_first(x: u64)
    ensures
        be64(x).len() == 8,
        be64(x).take(4) == be32((x / 0x1_0000_0000) as u32),
        be64(x).skip(4) == be32((x % 0x1_0000_0000) as u32),
{
    assert(be64(x).take(4) =~= be32((x / 0x1_0000_0000) as u32));
    assert(be64(x).skip(4) =~= be32((x % 0x1_0000_0000) as u32));
}

} // verus!
