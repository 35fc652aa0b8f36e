//! Binary wire format of the frames between link endpoints.
//!
//! A frame is a prefix of ten bytes (magic, kind, a reserved zero, length of the
//! rest) and a body. Integers stand lowest byte first:
//!
//! ```text
//! sender u32 | receiver u32 | final destination u32 | key size u16
//! number of key ids u8 | length of a key id u8 | key ids
//! header length u16 | header | payload length u32 | payload
//! ```
use crate::bytes::{
    copy_range, le16, le16_value, le32, le32_value, little_end_comes_first, push_all, push_le16,
    push_le32, read_le16, read_le32,
};
use crate::text::{decimal, decimal_text, join2, string_from_utf8};
use vstd::prelude::*;
use vstd::string::*;
use vstd::utf8::*;

verus! {

/// 'Q', 'K', 'C', version 1.
pub const MAGIC: [u8; 4] = [0x51, 0x4B, 0x43, 0x01];

pub const FRAME_RECV: u8 = 0x01;

pub const FRAME_RELAY: u8 = 0x02;

/// Length of the prefix in bytes.
pub const FIXED_PREFIX: usize = 10;

/// Longest body that is read.
pub const MAX_TOTAL_LEN: u32 = 67_108_864;

#[derive(Debug)]
pub enum WireError {
    BadMagic,
    TooLarge(u32),
    Truncated(&'static str),
}

impl WireError {
    pub open spec fn text_spec(self) -> Seq<char> {
        match self {
            WireError::BadMagic => "bad magic / version"@,
            WireError::TooLarge(n) => "frame too large: "@ + decimal(n as nat) + " bytes"@,
            WireError::Truncated(what) => "truncated frame: "@ + what@,
        }
    }

    /// The error in words.
    pub fn text(&self) -> (r: String)
        ensures
            r@ == self.text_spec(),
    {
        match self {
            WireError::BadMagic => "bad magic / version".to_owned(),
            WireError::TooLarge(n) => crate::text::join3(
                "frame too large: ",
                decimal_text(*n as u64).as_str(),
                " bytes",
            ),
            WireError::Truncated(what) => join2("truncated frame: ", what),
        }
    }
}

#[derive(Debug)]
pub struct Frame {
    pub kind: u8,
    pub sender_id: u32,
    pub receiver_id: u32,
    pub dest_final: u32,
    pub key_size_bits: u16,
    pub key_ids: Vec<String>,
    pub header_mp: Vec<u8>,
    pub payload: Vec<u8>,
}

#[verifier::ext_equal]
pub struct FrameView {
    pub kind: u8,
    pub sender_id: u32,
    pub receiver_id: u32,
    pub dest_final: u32,
    pub key_size_bits: u16,
    pub key_ids: Seq<Seq<char>>,
    pub header_mp: Seq<u8>,
    pub payload: Seq<u8>,
}

impl View for Frame {
    type V = FrameView;

    open spec fn view(&self) -> FrameView {
        FrameView {
            kind: self.kind,
            sender_id: self.sender_id,
            receiver_id: self.receiver_id,
            dest_final: self.dest_final,
            key_size_bits: self.key_size_bits,
            key_ids: self.key_ids@.map_values(|s: String| s@),
            header_mp: self.header_mp@,
            payload: self.payload@,
        }
    }
}

/// Key ids one behind the other.
pub open spec fn joined(ids: Seq<Seq<char>>) -> Seq<u8>
    decreases ids.len(),
{
    if ids.len() == 0 {
        Seq::empty()
    } else {
        joined(ids.drop_last()) + encode_utf8(ids.last())
    }
}

impl FrameView {
    /// Length in bytes that the key ids of the frame share.
    pub open spec fn key_id_len(self) -> nat {
        if self.key_ids.len() == 0 {
            0
        } else {
            encode_utf8(self.key_ids[0]).len()
        }
    }

    /// All key ids have one length, which fits a byte.
    pub open spec fn uniform(self) -> bool {
        &&& self.key_id_len() <= u8::MAX
        &&& forall|i: int|
            0 <= i < self.key_ids.len() ==> encode_utf8(#[trigger] self.key_ids[i]).len()
                == self.key_id_len()
    }

    /// Every count and length fits its field on the wire.
    pub open spec fn fits(self) -> bool {
        &&& self.uniform()
        &&& self.key_ids.len() <= u8::MAX
        &&& self.header_mp.len() <= u16::MAX
        &&& self.payload.len() <= u32::MAX
    }

    pub open spec fn head(self) -> Seq<u8> {
        le32(self.sender_id) + le32(self.receiver_id) + le32(self.dest_final) + le16(
            self.key_size_bits,
        ) + seq![self.key_ids.len() as u8, self.key_id_len() as u8]
    }

    pub open spec fn body(self) -> Seq<u8> {
        self.head() + joined(self.key_ids) + le16(self.header_mp.len() as u16) + self.header_mp
            + le32(self.payload.len() as u32) + self.payload
    }

    pub open spec fn bytes(self) -> Seq<u8> {
        MAGIC@ + seq![self.kind, 0u8] + le32(self.body().len() as u32) + self.body()
    }
}

/// The `i`-th of the key ids of length `n` that stand behind the head.
pub open spec fn key_id_bytes(body: Seq<u8>, n: int, i: int) -> Seq<u8> {
    body.subrange(16 + n * i, 16 + n * i + n)
}

/// The fields of a body; or, where it is cut short or holds bytes that are no
/// text, the part that is missing.
pub open spec fn decoded(body: Seq<u8>) -> Result<FrameView, Seq<char>> {
    if body.len() < 16 {
        Err("header"@)
    } else {
        let count = body[14] as int;
        let n = body[15] as int;
        let ids_end = 16 + n * count;
        if body.len() < ids_end + 2 {
            Err("key_ids"@)
        } else if exists|i: int| 0 <= i < count && !valid_utf8(#[trigger] key_id_bytes(body, n, i)) {
            Err("key_id utf-8"@)
        } else {
            let header_len = le16_value(body.subrange(ids_end, ids_end + 2));
            let header_end = ids_end + 2 + header_len;
            if body.len() < header_end + 4 {
                Err("header_mp"@)
            } else {
                let payload_len = le32_value(body.subrange(header_end, header_end + 4));
                if body.len() < header_end + 4 + payload_len {
                    Err("payload"@)
                } else {
                    Ok(
                        FrameView {
                            kind: 0,
                            sender_id: le32_value(body.subrange(0, 4)) as u32,
                            receiver_id: le32_value(body.subrange(4, 8)) as u32,
                            dest_final: le32_value(body.subrange(8, 12)) as u32,
                            key_size_bits: le16_value(body.subrange(12, 14)) as u16,
                            key_ids: Seq::new(
                                count as nat,
                                |i: int| decode_utf8(key_id_bytes(body, n, i)),
                            ),
                            header_mp: body.subrange(ids_end + 2, header_end),
                            payload: body.subrange(header_end + 4, header_end + 4 + payload_len),
                        },
                    )
                }
            }
        }
    }
}

proof fn lemma_joined(ids: Seq<Seq<char>>, n: int)
    requires
        forall|i: int| 0 <= i < ids.len() ==> encode_utf8(#[trigger] ids[i]).len() == n,
    ensures
        joined(ids).len() == n * ids.len(),
        forall|i: int|
            0 <= i < ids.len() ==> #[trigger] joined(ids).subrange(n * i, n * i + n)
                == encode_utf8(ids[i]),
    decreases ids.len(),
{
    if ids.len() > 0 {
        let front = ids.drop_last();
        lemma_joined(front, n);
        let k = front.len() as int;
        assert(n * (k + 1) == n * k + n) by (nonlinear_arith);
        assert(n * ids.len() == n * (k + 1));
        assert forall|i: int| 0 <= i < ids.len() implies #[trigger] joined(ids).subrange(
            n * i,
            n * i + n,
        ) == encode_utf8(ids[i]) by {
            if i < k {
                assert(n * i + n <= n * k) by (nonlinear_arith)
                    requires
                        i < k,
                        n >= 0,
                ;
                assert(0 <= n * i) by (nonlinear_arith)
                    requires
                        0 <= i,
                        n >= 0,
                ;
                assert(joined(ids).subrange(n * i, n * i + n) =~= joined(front).subrange(
                    n * i,
                    n * i + n,
                ));
                assert(front[i] == ids[i]);
            } else {
                assert(joined(ids).subrange(n * k, n * k + n) =~= encode_utf8(ids.last()));
            }
        }
    } else {
        assert(n * 0 == 0);
    }
}

proof fn lemma_le(x: u32, y: u16)
    ensures
        le32_value(le32(x)) == x,
        le16_value(le16(y)) == y,
{
}

proof fn lemma_head(f: FrameView)
    ensures
        f.head().len() == 16,
        f.head().subrange(0, 4) == le32(f.sender_id),
        f.head().subrange(4, 8) == le32(f.receiver_id),
        f.head().subrange(8, 12) == le32(f.dest_final),
        f.head().subrange(12, 14) == le16(f.key_size_bits),
        f.head()[14] == f.key_ids.len() as u8,
        f.head()[15] == f.key_id_len() as u8,
{
    assert(f.head().subrange(0, 4) =~= le32(f.sender_id));
    assert(f.head().subrange(4, 8) =~= le32(f.receiver_id));
    assert(f.head().subrange(8, 12) =~= le32(f.dest_final));
    assert(f.head().subrange(12, 14) =~= le16(f.key_size_bits));
}

/// What was encoded is decoded: the body of a frame whose lengths fit the wire
/// gives the frame back, but for its kind, which stands in the prefix.
pub proof fn decoding_undoes_encoding(f: FrameView)
    requires
        f.fits(),
    ensures
        decoded(f.body()) == Ok::<FrameView, Seq<char>>(FrameView { kind: 0, ..f }),
{
    let body = f.body();
    let n = f.key_id_len() as int;
    let count = f.key_ids.len() as int;
    let hl = f.header_mp.len() as int;
    let pl = f.payload.len() as int;
    lemma_head(f);
    lemma_joined(f.key_ids, n);
    assert(n * count >= 0) by (nonlinear_arith)
        requires
            n >= 0,
            count >= 0,
    ;
    let ids_end = 16 + n * count;
    let header_end = ids_end + 2 + hl;
    lemma_le(f.sender_id, f.key_size_bits);
    lemma_le(f.receiver_id, f.header_mp.len() as u16);
    lemma_le(f.dest_final, 0);
    lemma_le(f.payload.len() as u32, 0);
    assert(body.len() == header_end + 4 + pl);
    assert(body[14] == f.head()[14]);
    assert(body[15] == f.head()[15]);
    assert(body.subrange(0, 4) =~= f.head().subrange(0, 4));
    assert(body.subrange(4, 8) =~= f.head().subrange(4, 8));
    assert(body.subrange(8, 12) =~= f.head().subrange(8, 12));
    assert(body.subrange(12, 14) =~= f.head().subrange(12, 14));
    assert(body.subrange(ids_end, ids_end + 2) =~= le16(hl as u16));
    assert(body.subrange(ids_end + 2, header_end) =~= f.header_mp);
    assert(body.subrange(header_end, header_end + 4) =~= le32(pl as u32));
    assert(body.subrange(header_end + 4, header_end + 4 + pl) =~= f.payload);
    assert forall|i: int| 0 <= i < count implies #[trigger] key_id_bytes(body, n, i) == encode_utf8(
        f.key_ids[i],
    ) by {
        assert(n * i + n <= n * count) by (nonlinear_arith)
            requires
                i < count,
                n >= 0,
        ;
        assert(0 <= n * i) by (nonlinear_arith)
            requires
                0 <= i,
                n >= 0,
        ;
        assert(key_id_bytes(body, n, i) =~= joined(f.key_ids).subrange(n * i, n * i + n));
    }
    assert forall|i: int| 0 <= i < count implies valid_utf8(#[trigger] key_id_bytes(body, n, i))
        && decode_utf8(key_id_bytes(body, n, i)) == f.key_ids[i] by {
        encode_utf8_valid_utf8(f.key_ids[i]);
        encode_utf8_decode_utf8(f.key_ids[i]);
    }
    let d = decoded(body);
    assert(d is Ok);
    assert(d->Ok_0.key_ids =~= f.key_ids);
}

impl Frame {
    /// The frame as it goes over the wire. Key ids must be of one length; a
    /// count or length that does not fit its field is cut to its low bytes.
    pub fn encode(&self) -> (r: Vec<u8>)
        requires
            self@.uniform(),
            self@.body().len() <= usize::MAX,
        ensures
            r@ == self@.bytes(),
    {
        let key_id_len: u8 = if self.key_ids.len() == 0 {
            0
        } else {
            self.key_ids[0].as_str().as_bytes().len() as u8
        };
        let ghost ids = self@.key_ids;
        proof {
            if ids.len() > 0 {
                assert(ids[0] == self.key_ids@[0]@);
            }
        }
        let mut body: Vec<u8> = Vec::new();
        push_le32(&mut body, self.sender_id);
        push_le32(&mut body, self.receiver_id);
        push_le32(&mut body, self.dest_final);
        push_le16(&mut body, self.key_size_bits);
        body.push(self.key_ids.len() as u8);
        body.push(key_id_len);
        assert(body@ =~= self@.head());
        let n: usize = self.key_ids.len();
        let mut i: usize = 0;
        assert(ids.take(0) =~= Seq::<Seq<char>>::empty());
        assert(body@ =~= self@.head() + joined(ids.take(0)));
        while i < n
            invariant
                n == self.key_ids@.len() == ids.len(),
                ids == self@.key_ids,
                i <= n,
                body@ == self@.head() + joined(ids.take(i as int)),
            decreases n - i,
        {
            push_all(&mut body, self.key_ids[i].as_str().as_bytes());
            assert(ids.take(i + 1).drop_last() =~= ids.take(i as int));
            assert(ids.take(i + 1).last() == self.key_ids@[i as int]@);
            assert(body@ =~= self@.head() + joined(ids.take(i + 1)));
            i = i + 1;
        }
        assert(ids.take(n as int) =~= ids);
        push_le16(&mut body, self.header_mp.len() as u16);
        push_all(&mut body, &self.header_mp);
        push_le32(&mut body, self.payload.len() as u32);
        push_all(&mut body, &self.payload);
        assert(body@ =~= self@.body());
        let mut out: Vec<u8> = Vec::new();
        push_all(&mut out, &MAGIC);
        out.push(self.kind);
        out.push(0);
        push_le32(&mut out, body.len() as u32);
        push_all(&mut out, &body);
        assert(out@ =~= self@.bytes());
        out
    }

    /// The frame that a body holds. Its kind is 0 until the caller fills it in
    /// from the prefix; bytes behind the payload are ignored.
    pub fn decode_body(body: &[u8]) -> (r: Result<Frame, WireError>)
        ensures
            match r {
                Ok(f) => decoded(body@) == Ok::<FrameView, Seq<char>>(f@),
                Err(e) => e matches WireError::Truncated(what) && decoded(body@) == Err::<
                    FrameView,
                    Seq<char>,
                >(what@),
            },
    {
        let len: usize = body.len();
        if len < 16 {
            return Err(WireError::Truncated("header"));
        }
        let sender_id: u32 = read_le32(body, 0);
        let receiver_id: u32 = read_le32(body, 4);
        let dest_final: u32 = read_le32(body, 8);
        let key_size_bits: u16 = read_le16(body, 12);
        let count: usize = body[14] as usize;
        let n: usize = body[15] as usize;
        assert(0 <= n * count <= 255 * 255) by (nonlinear_arith)
            requires
                0 <= n <= 255,
                0 <= count <= 255,
        ;
        let ids_end: usize = 16 + n * count;
        if len < ids_end + 2 {
            return Err(WireError::Truncated("key_ids"));
        }
        let mut key_ids: Vec<String> = Vec::new();
        let mut i: usize = 0;
        while i < count
            invariant
                len == body@.len(),
                count == body@[14],
                n == body@[15],
                count <= 255,
                n <= 255,
                len >= 16 + n * count + 2,
                i <= count,
                key_ids@.len() == i,
                forall|j: int|
                    0 <= j < i ==> valid_utf8(#[trigger] key_id_bytes(body@, n as int, j)),
                forall|j: int|
                    0 <= j < i ==> encode_utf8(#[trigger] key_ids@[j]@) == key_id_bytes(
                        body@,
                        n as int,
                        j,
                    ),
            decreases count - i,
        {
            assert(n * i + n <= n * count) by (nonlinear_arith)
                requires
                    i < count,
                    n >= 0,
            ;
            assert(0 <= n * i <= 255 * 255) by (nonlinear_arith)
                requires
                    0 <= i <= 255,
                    0 <= n <= 255,
            ;
            let raw = copy_range(body, 16 + n * i, n);
            assert(raw@ == key_id_bytes(body@, n as int, i as int));
            match string_from_utf8(raw) {
                Some(s) => {
                    key_ids.push(s);
                },
                None => {
                    return Err(WireError::Truncated("key_id utf-8"));
                },
            }
            i = i + 1;
        }
        let header_len: usize = read_le16(body, ids_end) as usize;
        if len - ids_end - 2 < header_len + 4 {
            return Err(WireError::Truncated("header_mp"));
        }
        let header_end: usize = ids_end + 2 + header_len;
        let header_mp = copy_range(body, ids_end + 2, header_len);
        let payload_len: u32 = read_le32(body, header_end);
        if ((len - header_end - 4) as u64) < payload_len as u64 {
            return Err(WireError::Truncated("payload"));
        }
        let payload = copy_range(body, header_end + 4, payload_len as usize);
        let f = Frame {
            kind: 0,
            sender_id,
            receiver_id,
            dest_final,
            key_size_bits,
            key_ids,
            header_mp,
            payload,
        };
        proof {
            let want = decoded(body@)->Ok_0;
            assert forall|j: int| 0 <= j < count implies f@.key_ids[j] == want.key_ids[j] by {
                assert(f@.key_ids[j] == key_ids@[j]@);
                encode_utf8_decode_utf8(key_ids@[j]@);
            }
            assert(f@.key_ids =~= want.key_ids);
            assert(f@ =~= want);
        }
        Ok(f)
    }
}

/// What the prefix of a frame announces: its kind and the length of its body.
pub fn decode_prefix(prefix: &[u8; FIXED_PREFIX]) -> (r: Result<(u8, u32), WireError>)
    ensures
        ({
            let total = le32_value(prefix@.subrange(6, 10));
            match r {
                Ok(p) => {
                    &&& prefix@.subrange(0, 4) == MAGIC@
                    &&& total <= MAX_TOTAL_LEN
                    &&& p.0 == prefix@[4]
                    &&& p.1 == total
                },
                Err(WireError::BadMagic) => prefix@.subrange(0, 4) != MAGIC@,
                Err(WireError::TooLarge(n)) => {
                    &&& prefix@.subrange(0, 4) == MAGIC@
                    &&& total > MAX_TOTAL_LEN
                    &&& n == total
                },
                Err(_) => false,
            }
        }),
{
    if prefix[0] != MAGIC[0] || prefix[1] != MAGIC[1] || prefix[2] != MAGIC[2] || prefix[3]
        != MAGIC[3] {
        assert(prefix@.subrange(0, 4)[0] != MAGIC@[0] || prefix@.subrange(0, 4)[1] != MAGIC@[1]
            || prefix@.subrange(0, 4)[2] != MAGIC@[2] || prefix@.subrange(0, 4)[3] != MAGIC@[3]);
        return Err(WireError::BadMagic);
    }
    assert(prefix@.subrange(0, 4) =~= MAGIC@);
    let total: u32 = read_le32(prefix, 6);
    if total > MAX_TOTAL_LEN {
        return Err(WireError::TooLarge(total));
    }
    Ok((prefix[4], total))
}

/// The frame of kind `kind` whose body is `body`.
pub fn decode_frame(kind: u8, body: &[u8]) -> (r: Result<Frame, WireError>)
    ensures
        match r {
            Ok(f) => decoded(body@) is Ok && f@ == (FrameView { kind, ..decoded(body@)->Ok_0 }),
            Err(e) => e matches WireError::Truncated(what) && decoded(body@) == Err::<
                FrameView,
                Seq<char>,
            >(what@),
        },
{
    match Frame::decode_body(body) {
        Ok(f) => {
            let mut f = f;
            f.kind = kind;
            Ok(f)
        },
        Err(e) => Err(e),
    }
}

/// What stands behind a frame is not part of it: a body that is read goes on being
/// read as the same frame, whatever follows.
pub proof fn trailing_bytes_change_nothing(body: Seq<u8>, extra: Seq<u8>)
    requires
        decoded(body) is Ok,
    ensures
        decoded(body + extra) == decoded(body),
{
    let all = body + extra;
    let count = body[14] as int;
    let n = body[15] as int;
    assert(n * count >= 0) by (nonlinear_arith)
        requires
            n >= 0,
            count >= 0,
    ;
    let ids_end = 16 + n * count;
    assert(all[14] == body[14] && all[15] == body[15]);
    assert forall|i: int| 0 <= i < count implies #[trigger] key_id_bytes(all, n, i) == key_id_bytes(
        body,
        n,
        i,
    ) by {
        assert(0 <= n * i && n * i + n <= n * count) by (nonlinear_arith)
            requires
                0 <= i < count,
                n >= 0,
        ;
        assert(key_id_bytes(all, n, i) =~= key_id_bytes(body, n, i));
    }
    assert forall|i: int| 0 <= i < count implies valid_utf8(#[trigger] key_id_bytes(all, n, i)) by {
        assert(valid_utf8(key_id_bytes(body, n, i)));
    }
    assert(all.subrange(ids_end, ids_end + 2) =~= body.subrange(ids_end, ids_end + 2));
    let header_end = ids_end + 2 + le16_value(body.subrange(ids_end, ids_end + 2));
    assert(all.subrange(header_end, header_end + 4) =~= body.subrange(header_end, header_end + 4));
    let payload_end = header_end + 4 + le32_value(body.subrange(header_end, header_end + 4));
    assert(all.subrange(header_end + 4, payload_end) =~= body.subrange(header_end + 4, payload_end));
    assert(all.subrange(ids_end + 2, header_end) =~= body.subrange(ids_end + 2, header_end));
    assert(all.subrange(0, 4) =~= body.subrange(0, 4));
    assert(all.subrange(4, 8) =~= body.subrange(4, 8));
    assert(all.subrange(8, 12) =~= body.subrange(8, 12));
    assert(all.subrange(12, 14) =~= body.subrange(12, 14));
    assert(decoded(all)->Ok_0.key_ids =~= decoded(body)->Ok_0.key_ids);
}

/// A frame that is cut short anywhere is refused, never read as another.
pub proof fn truncated_frames_are_refused(f: FrameView, k: int)
    requires
        f.fits(),
        0 <= k < f.body().len(),
    ensures
        decoded(f.body().take(k)) is Err,
{
    let body = f.body();
    let cut = body.take(k);
    if decoded(cut) is Ok {
        let rest = body.skip(k);
        assert(cut + rest =~= body);
        trailing_bytes_change_nothing(cut, rest);
        decoding_undoes_encoding(f);
        lemma_read_frame_fills_its_body(cut);
        lemma_body_len(f);
        assert(cut[14] == body[14] && cut[15] == body[15]);
        let d = decoded(cut)->Ok_0;
        assert(d.header_mp == f.header_mp && d.payload == f.payload);
        assert(cut.len() == k);
        assert(false);
    }
}

proof fn lemma_body_len(f: FrameView)
    requires
        f.fits(),
    ensures
        f.body().len() == 16 + (f.body()[15] as int) * (f.body()[14] as int) + 2 + f.header_mp.len()
            + 4 + f.payload.len(),
{
    lemma_head(f);
    lemma_joined(f.key_ids, f.key_id_len() as int);
    let body = f.body();
    assert(body[14] == f.head()[14]);
    assert(body[15] == f.head()[15]);
}

/// A body is at least as long as the frame that is read from it.
proof fn lemma_read_frame_fills_its_body(body: Seq<u8>)
    requires
        decoded(body) is Ok,
    ensures
        ({
            let d = decoded(body)->Ok_0;
            body.len() >= 16 + (body[15] as int) * (body[14] as int) + 2 + d.header_mp.len() + 4
                + d.payload.len()
        }),
        decoded(body)->Ok_0.key_ids.len() == body[14],
{
    let count = body[14] as int;
    let n = body[15] as int;
    assert(n * count >= 0) by (nonlinear_arith)
        requires
            n >= 0,
            count >= 0,
    ;
}

/// Where the fields of a frame stand: the magic, the kind and the length in front,
/// then who sends, who receives and whom it is for, each with its low byte first.
pub proof fn fields_have_their_places(f: FrameView)
    requires
        f.fits(),
        f.body().len() <= u32::MAX,
    ensures
        ({
            let b = f.bytes();
            &&& b.len() == 10 + f.body().len()
            &&& b.take(4) == MAGIC@
            &&& b[4] == f.kind
            &&& b[5] == 0
            &&& b[6] + 256 * b[7] + 65536 * b[8] + 16777216 * b[9] == f.body().len()
            &&& b[10] + 256 * b[11] + 65536 * b[12] + 16777216 * b[13] == f.sender_id
            &&& b[14] + 256 * b[15] + 65536 * b[16] + 16777216 * b[17] == f.receiver_id
            &&& b[18] + 256 * b[19] + 65536 * b[20] + 16777216 * b[21] == f.dest_final
            &&& b[22] + 256 * b[23] == f.key_size_bits
            &&& b[24] == f.key_ids.len()
            &&& b[25] == f.key_id_len()
            &&& b.skip(b.len() - f.payload.len()) == f.payload
        }),
{
    let b = f.bytes();
    let len = f.body().len() as u32;
    little_end_comes_first(len, 0);
    little_end_comes_first(f.sender_id, f.key_size_bits);
    little_end_comes_first(f.receiver_id, 0);
    little_end_comes_first(f.dest_final, 0);
    assert(b.take(4) =~= MAGIC@);
    assert(b.subrange(6, 10) =~= le32(len));
    assert(b[6] == b.subrange(6, 10)[0] && b[7] == b.subrange(6, 10)[1] && b[8] == b.subrange(
        6,
        10,
    )[2] && b[9] == b.subrange(6, 10)[3]);
    assert(b.subrange(10, 26) =~= f.head());
    let h = f.head();
    assert forall|i: int| 10 <= i < 26 implies #[trigger] b[i] == h[i - 10] by {
        assert(b.subrange(10, 26)[i - 10] == b[i]);
    }
    assert(h.subrange(0, 4) =~= le32(f.sender_id));
    assert(h.subrange(4, 8) =~= le32(f.receiver_id));
    assert(h.subrange(8, 12) =~= le32(f.dest_final));
    assert(h.subrange(12, 14) =~= le16(f.key_size_bits));
    assert(b.skip(b.len() - f.payload.len()) =~= f.payload);
}

} // verus!
