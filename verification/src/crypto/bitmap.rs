//! Bitmaps held in 64-bit words, lowest bit first.
use vstd::prelude::*;

verus! {

/// Bit `i` of the bitmap `words`.
pub open spec fn bit(words: Seq<u64>, i: int) -> bool {
    (words[i / 64] >> ((i % 64) as u64)) & 1 == 1
}

/// Every bit of an all-zero bitmap is clear.
pub proof fn lemma_zero_words(words: Seq<u64>)
    requires
        forall|i: int| 0 <= i < words.len() ==> words[i] == 0,
    ensures
        forall|i: int| 0 <= i < 64 * words.len() ==> !#[trigger] bit(words, i),
{
    assert forall|i: int| 0 <= i < 64 * words.len() implies !#[trigger] bit(words, i) by {
        let s = (i % 64) as u64;
        assert(words[i / 64] == 0);
        assert((0u64 >> s) & 1 == 0) by (bit_vector);
    }
}

proof fn lemma_set_bit(w: u64, s: u64, t: u64)
    requires
        s < 64,
        t < 64,
    ensures
        ((w | (1u64 << s)) >> t) & 1 == 1 <==> (s == t || (w >> t) & 1 == 1),
{
    assert(((w | (1u64 << s)) >> t) & 1 == 1 <==> (s == t || (w >> t) & 1 == 1)) by (bit_vector)
        requires
            s < 64,
            t < 64,
    ;
}

/// The word that a shift left by `r` bits makes out of the word `lo` below and `hi`.
proof fn lemma_shift_word(hi: u64, lo: u64, r: u64, t: u64)
    requires
        0 < r < 64,
        t < 64,
    ensures
        t >= r ==> (((hi << r) | (lo >> sub64(r))) >> t) & 1 == (hi >> ((t - r) as u64)) & 1,
        t < r ==> (((hi << r) | (lo >> sub64(r))) >> t) & 1 == (lo >> ((64 - r + t) as u64)) & 1,
{
    let u = (t - r) as u64;
    let v = (64 - r + t) as u64;
    let k = sub64(r);
    assert(t >= r ==> (((hi << r) | (lo >> k)) >> t) & 1 == (hi >> u) & 1) by (bit_vector)
        requires
            0 < r < 64,
            t < 64,
            k == 64 - r,
            t >= r ==> u == t - r,
    ;
    assert(t < r ==> (((hi << r) | (lo >> k)) >> t) & 1 == (lo >> v) & 1) by (bit_vector)
        requires
            0 < r < 64,
            t < 64,
            k == 64 - r,
            t < r ==> v == 64 - r + t,
    ;
}

spec fn sub64(r: u64) -> u64 {
    (64 - r) as u64
}

pub fn test_bit(words: &Vec<u64>, i: usize) -> (r: bool)
    requires
        i < 64 * words@.len(),
    ensures
        r == bit(words@, i as int),
{
    let w: u64 = words[i / 64];
    let s: u64 = (i % 64) as u64;
    assert((w >> s) & 1 == 1 <==> w & (1u64 << s) != 0) by (bit_vector)
        requires
            s < 64,
    ;
    w & (1u64 << s) != 0
}

pub fn set_bit(words: &mut Vec<u64>, i: usize)
    requires
        i < 64 * old(words)@.len(),
    ensures
        final(words)@.len() == old(words)@.len(),
        forall|k: int|
            0 <= k < 64 * old(words)@.len() ==> #[trigger] bit(final(words)@, k) == (k == i || bit(
                old(words)@,
                k,
            )),
{
    let s: u64 = (i % 64) as u64;
    let w: u64 = words[i / 64];
    let ghost before = words@;
    words[i / 64] = w | (1u64 << s);
    proof {
        assert forall|k: int| 0 <= k < 64 * before.len() implies #[trigger] bit(words@, k) == (k
            == i || bit(before, k)) by {
            if k / 64 == i as int / 64 {
                lemma_set_bit(w, s, (k % 64) as u64);
            }
        }
    }
}

pub fn clear_bits(words: &mut Vec<u64>)
    ensures
        final(words)@.len() == old(words)@.len(),
        forall|k: int|
            0 <= k < 64 * old(words)@.len() ==> !#[trigger] bit(final(words)@, k),
{
    let n: usize = words.len();
    let mut i: usize = 0;
    while i < n
        invariant
            n == words@.len() == old(words)@.len(),
            i <= n,
            forall|j: int| 0 <= j < i ==> words@[j] == 0,
        decreases n - i,
    {
        words[i] = 0;
        i = i + 1;
    }
    proof {
        lemma_zero_words(words@);
    }
}

pub fn zero_bits(n: usize) -> (r: Vec<u64>)
    ensures
        r@.len() == n,
        forall|k: int| 0 <= k < 64 * n ==> !#[trigger] bit(r@, k),
{
    let r: Vec<u64> = vec![0u64; n];
    proof {
        lemma_zero_words(r@);
    }
    r
}

/// Moves every bit `by` places up; the low `by` bits come in clear.
pub fn shift_bits(bits: &mut Vec<u64>, by: u64)
    ensures
        final(bits)@.len() == old(bits)@.len(),
        forall|k: int|
            0 <= k < 64 * old(bits)@.len() ==> #[trigger] bit(final(bits)@, k) == (k >= by && bit(
                old(bits)@,
                k - by,
            )),
{
    let words: u64 = by / 64;
    let rem: u64 = by % 64;
    let n: usize = bits.len();
    let ghost before = bits@;
    let mut i: usize = n;
    while i > 0
        invariant
            n == bits@.len() == before.len(),
            i <= n,
            words == by / 64,
            rem == by % 64,
            forall|j: int| 0 <= j < i ==> bits@[j] == before[j],
            forall|k: int|
                64 * i <= k < 64 * n ==> #[trigger] bit(bits@, k) == (k >= by && bit(
                    before,
                    k - by,
                )),
        decreases i,
    {
        i = i - 1;
        let hi: u64 = if i as u64 >= words { bits[i - words as usize] } else { 0 };
        let lo: u64 = if i as u64 > words { bits[i - words as usize - 1] } else { 0 };
        let ghost prior = bits@;
        if rem == 0 {
            bits[i] = hi;
        } else {
            bits[i] = (hi << rem) | (lo >> (64 - rem));
        }
        proof {
            assert forall|k: int| 64 * i <= k < 64 * n implies #[trigger] bit(bits@, k) == (k >= by
                && bit(before, k - by)) by {
                if k >= 64 * (i + 1) {
                    assert(bits@[k / 64] == prior[k / 64]);
                    assert(bit(prior, k) == bit(bits@, k));
                } else {
                    let t = (k % 64) as u64;
                    assert(k / 64 == i as int);
                    assert((0u64 >> t) & 1 == 0) by (bit_vector);
                    if rem == 0 {
                        if k >= by {
                            assert((k - by) / 64 == i - words);
                            assert((k - by) % 64 == t);
                        }
                    } else {
                        lemma_shift_word(hi, lo, rem, t);
                        if t >= rem {
                            assert(k >= by <==> i as int >= words);
                            let u = (t - rem) as u64;
                            assert((0u64 >> u) & 1 == 0) by (bit_vector);
                            if k >= by {
                                assert((k - by) / 64 == i - words);
                                assert((k - by) % 64 == u);
                            }
                        } else {
                            let v = (64 - rem + t) as u64;
                            assert((0u64 >> v) & 1 == 0) by (bit_vector);
                            assert(k >= by <==> i as int > words);
                            if k >= by {
                                assert((k - by) / 64 == i - words - 1);
                                assert((k - by) % 64 == v);
                            }
                        }
                    }
                }
            }
        }
    }
}

} // verus!
