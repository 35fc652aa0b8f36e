//! What is authenticated with a sealed payload, and the key it is sealed with.
use crate::bytes::{copy_range, lemma_lp32_split, lemma_split_equal, lp32, push_all, push_lp32};
use crate::crypto::aead::NONCE_LEN;
use crate::crypto::primitives::{hkdf_sha256, hkdf_sha256_of};
use crate::e2e::HDR_E2E_TAG;
use crate::table::{
    ascending, has_key, lemma_map_of, lemma_sorted_pairs_unique, map_of, sorted_pairs, Headers,
};
use crate::text::{lemma_text_order, lemma_utf8_injective, text_eq, text_less};
use vstd::prelude::*;
use vstd::string::*;
use vstd::utf8::*;

verus! {

/// `dkms.e2e.v1`, the domain of key derivation and of the authenticated data.
pub const DOMAIN: [u8; 11] = [
    0x64, 0x6B, 0x6D, 0x73, 0x2E, 0x65, 0x32, 0x65, 0x2E, 0x76, 0x31,
];

/// The header fields but for the tag, each name and value behind its length.
pub open spec fn field_bytes(pairs: Seq<(Seq<char>, Seq<char>)>) -> Seq<u8>
    decreases pairs.len(),
{
    if pairs.len() == 0 {
        Seq::empty()
    } else {
        let front = field_bytes(pairs.drop_last());
        let (k, v) = pairs.last();
        if k == HDR_E2E_TAG@ {
            front
        } else {
            front + lp32(encode_utf8(k)) + lp32(encode_utf8(v))
        }
    }
}

/// The authenticated data of a payload from `from` to `to` with a header.
pub open spec fn aad_of(from: Seq<char>, to: Seq<char>, header: Map<Seq<char>, Seq<char>>) -> Seq<
    u8,
> {
    lp32(DOMAIN@) + lp32(encode_utf8(from)) + lp32(encode_utf8(to)) + field_bytes(
        sorted_pairs(header),
    )
}

pub fn aad_bytes(from: &str, to: &str, header: &Headers) -> (r: Vec<u8>)
    requires
        header.inv(),
    ensures
        r@ == aad_of(from@, to@, header@),
{
    let mut out: Vec<u8> = Vec::new();
    push_lp32(&mut out, &DOMAIN);
    push_lp32(&mut out, from.as_bytes());
    push_lp32(&mut out, to.as_bytes());
    let ghost head = out@;
    let ghost pairs = sorted_pairs(header@);
    let n: usize = header.len();
    let mut i: usize = 0;
    assert(pairs.take(0) =~= Seq::<(Seq<char>, Seq<char>)>::empty());
    assert(out@ =~= head + field_bytes(pairs.take(0)));
    while i < n
        invariant
            header.inv(),
            pairs == sorted_pairs(header@),
            n == pairs.len(),
            i <= n,
            out@ == head + field_bytes(pairs.take(i as int)),
        decreases n - i,
    {
        let (k, v) = header.pair(i);
        assert(pairs.take(i + 1).drop_last() =~= pairs.take(i as int));
        assert(pairs.take(i + 1).last() == pairs[i as int]);
        if !text_eq(k, HDR_E2E_TAG) {
            push_lp32(&mut out, k.as_bytes());
            push_lp32(&mut out, v.as_bytes());
            assert(out@ =~= head + field_bytes(pairs.take(i + 1)));
        }
        i = i + 1;
    }
    assert(pairs.take(n as int) =~= pairs);
    assert(head =~= lp32(DOMAIN@) + lp32(encode_utf8(from@)) + lp32(encode_utf8(to@)));
    out
}

/// Pairs without the tag.
pub open spec fn untagged(pairs: Seq<(Seq<char>, Seq<char>)>) -> Seq<(Seq<char>, Seq<char>)>
    decreases pairs.len(),
{
    if pairs.len() == 0 {
        Seq::empty()
    } else if pairs.last().0 == HDR_E2E_TAG@ {
        untagged(pairs.drop_last())
    } else {
        untagged(pairs.drop_last()).push(pairs.last())
    }
}

/// Names and values are short enough for their length prefix.
pub open spec fn pairs_fit(pairs: Seq<(Seq<char>, Seq<char>)>) -> bool {
    forall|i: int|
        #![trigger pairs[i]]
        0 <= i < pairs.len() ==> encode_utf8(pairs[i].0).len() <= u32::MAX && encode_utf8(
            pairs[i].1,
        ).len() <= u32::MAX
}

spec fn plain_bytes(pairs: Seq<(Seq<char>, Seq<char>)>) -> Seq<u8>
    decreases pairs.len(),
{
    if pairs.len() == 0 {
        Seq::empty()
    } else {
        lp32(encode_utf8(pairs[0].0)) + lp32(encode_utf8(pairs[0].1)) + plain_bytes(
            pairs.drop_first(),
        )
    }
}

proof fn lemma_plain_push(pairs: Seq<(Seq<char>, Seq<char>)>, last: (Seq<char>, Seq<char>))
    ensures
        plain_bytes(pairs.push(last)) == plain_bytes(pairs) + lp32(encode_utf8(last.0)) + lp32(
            encode_utf8(last.1),
        ),
    decreases pairs.len(),
{
    let all = pairs.push(last);
    if pairs.len() == 0 {
        assert(all.drop_first() =~= Seq::<(Seq<char>, Seq<char>)>::empty());
        assert(plain_bytes(all.drop_first()) =~= Seq::<u8>::empty());
        assert(plain_bytes(all) =~= plain_bytes(pairs) + lp32(encode_utf8(last.0)) + lp32(
            encode_utf8(last.1),
        ));
    } else {
        assert(all.drop_first() =~= pairs.drop_first().push(last));
        lemma_plain_push(pairs.drop_first(), last);
        assert(plain_bytes(all) =~= plain_bytes(pairs) + lp32(encode_utf8(last.0)) + lp32(
            encode_utf8(last.1),
        ));
    }
}

proof fn lemma_field_bytes(pairs: Seq<(Seq<char>, Seq<char>)>)
    requires
        pairs_fit(pairs),
    ensures
        field_bytes(pairs) == plain_bytes(untagged(pairs)),
        pairs_fit(untagged(pairs)),
    decreases pairs.len(),
{
    if pairs.len() > 0 {
        let front = pairs.drop_last();
        assert forall|i: int| #![trigger front[i]] 0 <= i < front.len() implies encode_utf8(
            front[i].0,
        ).len() <= u32::MAX && encode_utf8(front[i].1).len() <= u32::MAX by {
            assert(front[i] == pairs[i]);
        }
        lemma_field_bytes(front);
        if pairs.last().0 != HDR_E2E_TAG@ {
            lemma_plain_push(untagged(front), pairs.last());
        }
    }
}

proof fn lemma_plain_injective(p: Seq<(Seq<char>, Seq<char>)>, q: Seq<(Seq<char>, Seq<char>)>)
    requires
        plain_bytes(p) == plain_bytes(q),
        pairs_fit(p),
        pairs_fit(q),
    ensures
        p == q,
    decreases p.len(),
{
    if p.len() == 0 {
        if q.len() > 0 {
            assert(plain_bytes(q).len() >= 4);
        }
        assert(p =~= q);
    } else if q.len() == 0 {
        assert(plain_bytes(p).len() >= 4);
    } else {
        let (pk, pv) = (encode_utf8(p[0].0), encode_utf8(p[0].1));
        let (qk, qv) = (encode_utf8(q[0].0), encode_utf8(q[0].1));
        let pr = plain_bytes(p.drop_first());
        let qr = plain_bytes(q.drop_first());
        assert(plain_bytes(p) =~= lp32(pk) + (lp32(pv) + pr));
        assert(plain_bytes(q) =~= lp32(qk) + (lp32(qv) + qr));
        lemma_lp32_split(pk, lp32(pv) + pr, qk, lp32(qv) + qr);
        lemma_lp32_split(pv, pr, qv, qr);
        lemma_utf8_injective(p[0].0, q[0].0);
        lemma_utf8_injective(p[0].1, q[0].1);
        lemma_plain_injective(p.drop_first(), q.drop_first());
        assert(p =~= seq![p[0]] + p.drop_first());
        assert(q =~= seq![q[0]] + q.drop_first());
    }
}

/// Payloads with the same authenticated data come from the same sender, go to
/// the same receiver and carry the same header fields but for the tag.
pub proof fn aad_binds_sender_receiver_and_header(
    from_a: Seq<char>,
    to_a: Seq<char>,
    header_a: Map<Seq<char>, Seq<char>>,
    from_b: Seq<char>,
    to_b: Seq<char>,
    header_b: Map<Seq<char>, Seq<char>>,
)
    requires
        aad_of(from_a, to_a, header_a) == aad_of(from_b, to_b, header_b),
        encode_utf8(from_a).len() <= u32::MAX,
        encode_utf8(to_a).len() <= u32::MAX,
        encode_utf8(from_b).len() <= u32::MAX,
        encode_utf8(to_b).len() <= u32::MAX,
        pairs_fit(sorted_pairs(header_a)),
        pairs_fit(sorted_pairs(header_b)),
    ensures
        from_a == from_b,
        to_a == to_b,
        untagged(sorted_pairs(header_a)) == untagged(sorted_pairs(header_b)),
{
    let fa = field_bytes(sorted_pairs(header_a));
    let fb = field_bytes(sorted_pairs(header_b));
    let (ua, va) = (encode_utf8(from_a), encode_utf8(to_a));
    let (ub, vb) = (encode_utf8(from_b), encode_utf8(to_b));
    assert(aad_of(from_a, to_a, header_a) =~= lp32(DOMAIN@) + (lp32(ua) + (lp32(va) + fa)));
    assert(aad_of(from_b, to_b, header_b) =~= lp32(DOMAIN@) + (lp32(ub) + (lp32(vb) + fb)));
    lemma_split_equal(
        lp32(DOMAIN@),
        lp32(ua) + (lp32(va) + fa),
        lp32(DOMAIN@),
        lp32(ub) + (lp32(vb) + fb),
    );
    lemma_lp32_split(ua, lp32(va) + fa, ub, lp32(vb) + fb);
    lemma_lp32_split(va, fa, vb, fb);
    lemma_utf8_injective(from_a, from_b);
    lemma_utf8_injective(to_a, to_b);
    lemma_field_bytes(sorted_pairs(header_a));
    lemma_field_bytes(sorted_pairs(header_b));
    lemma_plain_injective(
        untagged(sorted_pairs(header_a)),
        untagged(sorted_pairs(header_b)),
    );
}

proof fn lemma_field_bytes_skip_tag(pairs: Seq<(Seq<char>, Seq<char>)>, i: int)
    requires
        0 <= i < pairs.len(),
        pairs[i].0 == HDR_E2E_TAG@,
    ensures
        field_bytes(pairs) == field_bytes(pairs.remove(i)),
    decreases pairs.len(),
{
    if i == pairs.len() - 1 {
        assert(pairs.remove(i) =~= pairs.drop_last());
    } else {
        lemma_field_bytes_skip_tag(pairs.drop_last(), i);
        assert(pairs.remove(i).drop_last() =~= pairs.drop_last().remove(i));
        assert(pairs.remove(i).last() == pairs.last());
    }
}

/// Whether a map can be listed in the order of its keys, as every header can.
pub open spec fn listable(h: Map<Seq<char>, Seq<char>>) -> bool {
    exists|p: Seq<(Seq<char>, Seq<char>)>| ascending(p) && #[trigger] map_of(p) == h
}

/// The tag does not authenticate itself: with or without it, the authenticated
/// data are the same.
pub proof fn aad_leaves_the_tag_out(
    from: Seq<char>,
    to: Seq<char>,
    header: Map<Seq<char>, Seq<char>>,
)
    requires
        listable(header),
    ensures
        aad_of(from, to, header) == aad_of(from, to, header.remove(HDR_E2E_TAG@)),
{
    let tag = HDR_E2E_TAG@;
    let p = sorted_pairs(header);
    let q = choose|q: Seq<(Seq<char>, Seq<char>)>| ascending(q) && #[trigger] map_of(q) == header;
    assert(ascending(p) && map_of(p) == header);
    lemma_map_of(p);
    if header.dom().contains(tag) {
        assert(has_key(p, tag));
        let i = choose|i: int| 0 <= i < p.len() && #[trigger] p[i].0 == tag;
        let r = p.remove(i);
        lemma_field_bytes_skip_tag(p, i);
        assert forall|a: int, b: int| 0 <= a < b < r.len() implies text_less(
            #[trigger] r[a].0,
            #[trigger] r[b].0,
        ) by {
            let c = if a < i { a } else { a + 1 };
            let d = if b < i { b } else { b + 1 };
            assert(r[a] == p[c] && r[b] == p[d]);
        }
        lemma_map_of(r);
        lemma_text_order(tag, tag);
        assert forall|k: Seq<char>| #[trigger] map_of(r).dom().contains(k) == (k != tag && map_of(
            p,
        ).dom().contains(k)) by {
            if map_of(r).dom().contains(k) {
                let a = choose|a: int| 0 <= a < r.len() && #[trigger] r[a].0 == k;
                let c = if a < i { a } else { a + 1 };
                assert(p[c].0 == k);
                if c < i {
                    assert(text_less(p[c].0, p[i].0));
                } else {
                    assert(text_less(p[i].0, p[c].0));
                }
            }
            if k != tag && map_of(p).dom().contains(k) {
                let c = choose|c: int| 0 <= c < p.len() && #[trigger] p[c].0 == k;
                let a = if c < i { c } else { c - 1 };
                assert(r[a].0 == k);
            }
        }
        assert forall|k: Seq<char>| #[trigger] map_of(r).dom().contains(k) implies map_of(r)[k]
            == map_of(p)[k] by {
            let a = choose|a: int| 0 <= a < r.len() && #[trigger] r[a].0 == k;
            let c = if a < i { a } else { a + 1 };
            assert(r[a] == p[c]);
        }
        assert(map_of(r) =~= header.remove(tag));
        assert(ascending(r) && map_of(r) == header.remove(tag));
        lemma_sorted_pairs_unique(r, sorted_pairs(header.remove(tag)));
    } else {
        assert(header.remove(tag) =~= header);
    }
}

/// Key and nonce that belong to a key id under a shared secret.
pub open spec fn derived(secret: Seq<u8>, key_id: Seq<char>) -> (Seq<u8>, Seq<u8>) {
    let okm = hkdf_sha256_of(DOMAIN@, secret, encode_utf8(key_id) + DOMAIN@, 44);
    (okm.subrange(0, 32), okm.subrange(32, 44))
}

pub fn derive_pair(secret: &[u8; 32], key_id: &str) -> (r: (Vec<u8>, [u8; NONCE_LEN]))
    ensures
        (r.0@, r.1@) == derived(secret@, key_id@),
        r.0@.len() == 32,
{
    let mut info: Vec<u8> = Vec::new();
    push_all(&mut info, key_id.as_bytes());
    push_all(&mut info, &DOMAIN);
    assert(info@ =~= encode_utf8(key_id@) + DOMAIN@);
    let okm = hkdf_sha256(&DOMAIN, secret, &info, 44);
    let key = copy_range(&okm, 0, 32);
    let mut nonce: [u8; NONCE_LEN] = [0u8; NONCE_LEN];
    let mut i: usize = 0;
    while i < NONCE_LEN
        invariant
            i <= NONCE_LEN,
            okm@.len() == 44,
            forall|j: int| 0 <= j < i ==> nonce@[j] == okm@[32 + j],
        decreases NONCE_LEN - i,
    {
        nonce[i] = okm[32 + i];
        i = i + 1;
    }
    assert(nonce@ =~= okm@.subrange(32, 44));
    (key, nonce)
}

/// Key and nonce come out of one expansion of the shared secret, which belongs to the
/// name of the key: of another name another one is asked for.
pub proof fn key_and_nonce_belong_to_the_name(secret: Seq<u8>, a: Seq<char>, b: Seq<char>)
    requires
        hkdf_sha256_of(DOMAIN@, secret, encode_utf8(a) + DOMAIN@, 44).len() == 44,
    ensures
        derived(secret, a).0.len() == 32,
        derived(secret, a).1.len() == 12,
        derived(secret, a).0 + derived(secret, a).1 == hkdf_sha256_of(
            DOMAIN@,
            secret,
            encode_utf8(a) + DOMAIN@,
            44,
        ),
        a != b ==> encode_utf8(a) + DOMAIN@ != encode_utf8(b) + DOMAIN@,
{
    let okm = hkdf_sha256_of(DOMAIN@, secret, encode_utf8(a) + DOMAIN@, 44);
    assert(okm.subrange(0, 32) + okm.subrange(32, 44) =~= okm);
    if encode_utf8(a) + DOMAIN@ == encode_utf8(b) + DOMAIN@ {
        let x = encode_utf8(a);
        let y = encode_utf8(b);
        assert((x + DOMAIN@).len() == (y + DOMAIN@).len());
        assert(x =~= (x + DOMAIN@).take(x.len() as int));
        assert(y =~= (y + DOMAIN@).take(y.len() as int));
        lemma_utf8_injective(a, b);
    }
}

/// What is authenticated names the sender before the receiver, and then the fields of
/// the header in their order, each but the tag.
pub proof fn authenticated_data_has_its_order(
    from: Seq<char>,
    to: Seq<char>,
    header: Map<Seq<char>, Seq<char>>,
    a: Seq<(Seq<char>, Seq<char>)>,
    b: Seq<(Seq<char>, Seq<char>)>,
    name: Seq<char>,
    value: Seq<char>,
)
    ensures
        ({
            let front = lp32(DOMAIN@) + lp32(encode_utf8(from)) + lp32(encode_utf8(to));
            &&& aad_of(from, to, header).len() >= front.len()
            &&& aad_of(from, to, header).take(front.len() as int) == front
        }),
        field_bytes(a + b) == field_bytes(a) + field_bytes(b),
        name != HDR_E2E_TAG@ ==> field_bytes(seq![(name, value)]) == lp32(encode_utf8(name)) + lp32(
            encode_utf8(value),
        ),
        field_bytes(seq![(HDR_E2E_TAG@, value)]) == Seq::<u8>::empty(),
    decreases b.len(),
{
    let front = lp32(DOMAIN@) + lp32(encode_utf8(from)) + lp32(encode_utf8(to));
    assert(aad_of(from, to, header).take(front.len() as int) =~= front);
    if b.len() == 0 {
        assert(a + b =~= a);
        assert(field_bytes(a) + field_bytes(b) =~= field_bytes(a));
    } else {
        assert((a + b).drop_last() =~= a + b.drop_last());
        authenticated_data_has_its_order(from, to, header, a, b.drop_last(), name, value);
        assert(field_bytes(a + b) =~= field_bytes(a) + field_bytes(b));
    }
    let one = seq![(name, value)];
    let tag = seq![(HDR_E2E_TAG@, value)];
    assert(one.drop_last() =~= Seq::empty());
    assert(tag.drop_last() =~= Seq::empty());
    reveal_with_fuel(field_bytes, 2);
    assert(name != HDR_E2E_TAG@ ==> field_bytes(one) =~= lp32(encode_utf8(name)) + lp32(
        encode_utf8(value),
    ));
    assert(field_bytes(tag) =~= Seq::empty());
}

} // verus!
