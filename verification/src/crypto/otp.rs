//! One-time pad over key material.
//!
//! Freshness of the key is the caller's business.
use vstd::prelude::*;

verus! {

#[derive(Debug, PartialEq, Eq, Structural)]
pub enum OtpError {
    KeyTooShort { key: usize, pt: usize },
}

/// `data` with the first bytes of `key` laid over it.
pub open spec fn xored(data: Seq<u8>, key: Seq<u8>) -> Seq<u8> {
    Seq::new(data.len(), |i: int| data[i] ^ key[i])
}

/// Laying the same key over twice gives the data back.
pub proof fn xor_undoes_itself(data: Seq<u8>, key: Seq<u8>)
    requires
        key.len() >= data.len(),
    ensures
        xored(xored(data, key), key) == data,
        xored(data, key).len() == data.len(),
{
    assert forall|i: int| 0 <= i < data.len() implies xored(xored(data, key), key)[i]
        == data[i] by {
        let d = data[i];
        let k = key[i];
        assert((d ^ k) ^ k == d) by (bit_vector);
    }
    assert(xored(xored(data, key), key) =~= data);
}

/// XORs `plaintext` with `key` in place and returns how many bytes were treated.
pub fn xor_in_place(plaintext: &mut [u8], key: &[u8]) -> (r: Result<usize, OtpError>)
    ensures
        match r {
            Ok(n) => {
                &&& key@.len() >= old(plaintext)@.len()
                &&& n == old(plaintext)@.len()
                &&& final(plaintext)@ == xored(old(plaintext)@, key@)
            },
            Err(e) => {
                &&& key@.len() < old(plaintext)@.len()
                &&& e == (OtpError::KeyTooShort {
                    key: key@.len() as usize,
                    pt: old(plaintext)@.len() as usize,
                })
                &&& final(plaintext)@ == old(plaintext)@
            },
        },
{
    let n: usize = plaintext.len();
    if key.len() < n {
        return Err(OtpError::KeyTooShort { key: key.len(), pt: n });
    }
    let ghost before = plaintext@;
    let mut i: usize = 0;
    while i < n
        invariant
            n == plaintext@.len() == before.len(),
            key@.len() >= n,
            i <= n,
            forall|j: int| 0 <= j < i ==> plaintext@[j] == before[j] ^ key@[j],
            forall|j: int| i <= j < n ==> plaintext@[j] == before[j],
        decreases n - i,
    {
        plaintext[i] = plaintext[i] ^ key[i];
        i = i + 1;
    }
    assert(plaintext@ =~= xored(before, key@));
    Ok(n)
}

/// The same into a new buffer.
pub fn xor(plaintext: &[u8], key: &[u8]) -> (r: Result<Vec<u8>, OtpError>)
    ensures
        match r {
            Ok(c) => key@.len() >= plaintext@.len() && c@ == xored(plaintext@, key@),
            Err(e) => {
                &&& key@.len() < plaintext@.len()
                &&& e == (OtpError::KeyTooShort {
                    key: key@.len() as usize,
                    pt: plaintext@.len() as usize,
                })
            },
        },
{
    let n: usize = plaintext.len();
    if key.len() < n {
        return Err(OtpError::KeyTooShort { key: key.len(), pt: n });
    }
    let mut out: Vec<u8> = Vec::with_capacity(n);
    let mut i: usize = 0;
    while i < n
        invariant
            n == plaintext@.len(),
            key@.len() >= n,
            i <= n,
            out@ =~= xored(plaintext@, key@).subrange(0, i as int),
        decreases n - i,
    {
        out.push(plaintext[i] ^ key[i]);
        i = i + 1;
    }
    assert(out@ =~= xored(plaintext@, key@));
    Ok(out)
}

} // verus!
