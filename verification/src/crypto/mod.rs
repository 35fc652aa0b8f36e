use vstd::prelude::*;

pub mod aead;
pub mod bitmap;
pub mod frame_mac;
pub mod link_mac;
pub mod otp;
pub mod pqc;
pub mod pqc_sign;
pub mod primitives;

verus! {

/// `std::hint::black_box` hands its argument back.
pub assume_specification<T>[ std::hint::black_box::<T> ](dummy: T) -> (r: T)
    ensures
        r == dummy,
;

/// Whether two byte strings are the same, in a time that depends on their
/// lengths alone.
pub fn ct_eq(a: &[u8], b: &[u8]) -> (r: bool)
    ensures
        r == (a@ == b@),
{
    if a.len() != b.len() {
        return false;
    }
    let n: usize = a.len();
    let mut acc: u8 = 0;
    let mut i: usize = 0;
    while i < n
        invariant
            n == a@.len() == b@.len(),
            i <= n,
            acc == 0 <==> (forall|j: int| 0 <= j < i ==> a@[j] == b@[j]),
        decreases n - i,
    {
        let x: u8 = a[i];
        let y: u8 = b[i];
        let d: u8 = std::hint::black_box(x ^ y);
        assert((acc | d) == 0 <==> acc == 0 && x == y) by (bit_vector)
            requires
                d == x ^ y,
        ;
        acc = acc | d;
        i = i + 1;
    }
    if std::hint::black_box(acc) == 0 {
        assert(a@ =~= b@);
        true
    } else {
        false
    }
}

} // verus!
