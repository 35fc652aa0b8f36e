//! Authentication and freshness of the data frames on a link.
//!
//! A frame carries an HMAC-SHA256 tag over a canonical message that holds every
//! field of the frame, and a pair (session, counter) that a receiver admits at
//! most once: [`ReplayWindow`].
use crate::bytes::{
    array32, be16, be32, be64, lemma_be16_injective, lemma_be32_injective, lemma_be64_injective,
    lemma_lp16_split, lemma_split_equal, lp16, push_all, push_be16, push_be32, push_be64, push_lp16,
};
use crate::clock::Clock;
use crate::crypto::bitmap::{bit, clear_bits, set_bit, shift_bits, test_bit, zero_bits};
use crate::crypto::primitives::{
    hkdf_sha256, hkdf_sha256_of, hmac_sha256, hmac_sha256_matches, hmac_sha256_of,
};
use crate::text::{decimal, decimal_text, join2, join3, lemma_utf8_injective};
use vstd::prelude::*;
use vstd::string::*;
use vstd::utf8::*;

verus! {

/// Length of a frame tag in bytes.
pub const TAG_LEN: usize = 32;

/// Default width of a replay window, in frames.
pub const DEFAULT_WINDOW: u64 = 1024;

/// Silence that a quiet-gated window asks for by default, in nanoseconds.
pub const ADOPT_AFTER_QUIET_NS: u64 = 10_000_000_000;

/// How many retired sessions a window remembers.
pub const RETIRED_KEPT: usize = 8;

#[derive(Debug, Clone, Copy, PartialEq, Eq, Structural)]
pub enum MacError {
    Invalid,
}

#[derive(Debug, Clone, Copy, PartialEq, Eq, Structural)]
pub enum ReplayError {
    /// The counter was already seen in this session.
    Replayed { session: u64, counter: u64 },
    /// The counter lies below the window, which ends at `floor`.
    TooOld { session: u64, counter: u64, floor: u64 },
    /// The session was given up, or may not be adopted.
    RetiredSession { session: u64 },
    /// Counters start at 1.
    ZeroCounter,
}

impl MacError {
    /// The error in words.
    pub fn text(&self) -> (r: String)
        ensures
            r@ == "invalid frame MAC"@,
    {
        "invalid frame MAC".to_owned()
    }
}

impl ReplayError {
    pub open spec fn text_spec(self) -> Seq<char> {
        match self {
            ReplayError::Replayed { session, counter } => "replayed frame (session "@ + decimal(
                session as nat,
            ) + ", counter "@ + decimal(counter as nat) + ")"@,
            ReplayError::TooOld { session, counter, floor } => "frame too old (session "@ + decimal(
                session as nat,
            ) + ", counter "@ + decimal(counter as nat) + ", window ends at "@ + decimal(
                floor as nat,
            ) + ")"@,
            ReplayError::RetiredSession { session } => "retired session "@ + decimal(
                session as nat,
            ),
            ReplayError::ZeroCounter => "zero counter is not valid"@,
        }
    }

    /// The error in words.
    pub fn text(&self) -> (r: String)
        ensures
            r@ == self.text_spec(),
    {
        match self {
            ReplayError::Replayed { session, counter } => {
                let mut t = join3(
                    "replayed frame (session ",
                    decimal_text(*session).as_str(),
                    ", counter ",
                );
                t.append(decimal_text(*counter).as_str());
                t.append(")");
                t
            },
            ReplayError::TooOld { session, counter, floor } => {
                let mut t = join3(
                    "frame too old (session ",
                    decimal_text(*session).as_str(),
                    ", counter ",
                );
                t.append(decimal_text(*counter).as_str());
                t.append(", window ends at ");
                t.append(decimal_text(*floor).as_str());
                t.append(")");
                t
            },
            ReplayError::RetiredSession { session } => join2(
                "retired session ",
                decimal_text(*session).as_str(),
            ),
            ReplayError::ZeroCounter => "zero counter is not valid".to_owned(),
        }
    }
}

/// When a verified frame of another session makes that session the current one.
#[derive(Debug, Clone, Copy, PartialEq, Eq, Structural)]
pub enum SessionAdopt {
    /// Any session that was not seen before.
    Any,
    /// Only a greater session number.
    Monotonic,
    /// Only once the current session has been silent for a while.
    AfterQuiet,
}

/// `QKCFRAME`
pub const TAG_FRAME: [u8; 8] = [0x51, 0x4B, 0x43, 0x46, 0x52, 0x41, 0x4D, 0x45];

/// `dkms/link-mac/frame/v1`
pub const HKDF_INFO: [u8; 22] = [
    0x64, 0x6B, 0x6D, 0x73, 0x2F, 0x6C, 0x69, 0x6E, 0x6B, 0x2D, 0x6D, 0x61, 0x63, 0x2F, 0x66, 0x72,
    0x61, 0x6D, 0x65, 0x2F, 0x76, 0x31,
];

// ---------------------------------------------------------------------------
// Frame tags
// ---------------------------------------------------------------------------

/// The fields of a frame that its tag covers. `body` is the ciphertext without
/// the trailer that carries the tag.
#[derive(Debug, Clone, Copy)]
pub struct FrameAad<'a> {
    pub kind: u8,
    pub grade: u8,
    pub session: u64,
    pub counter: u64,
    pub sender_id: u32,
    pub receiver_id: u32,
    pub dest_final: u32,
    pub key_size_bits: u16,
    pub epoch_id: u32,
    pub key_ids: &'a [String],
    pub header_orr_mp: &'a [u8],
    pub header_dkms_mp: &'a [u8],
    pub body: &'a [u8],
}

/// The same as plain values.
#[verifier::ext_equal]
pub struct FrameView {
    pub kind: u8,
    pub grade: u8,
    pub session: u64,
    pub counter: u64,
    pub sender_id: u32,
    pub receiver_id: u32,
    pub dest_final: u32,
    pub key_size_bits: u16,
    pub epoch_id: u32,
    pub key_ids: Seq<Seq<char>>,
    pub header_orr_mp: Seq<u8>,
    pub header_dkms_mp: Seq<u8>,
    pub body: Seq<u8>,
}

/// Key ids one behind the other, each behind its length.
pub open spec fn key_id_fields(ids: Seq<Seq<char>>) -> Seq<u8>
    decreases ids.len(),
{
    if ids.len() == 0 {
        Seq::empty()
    } else {
        key_id_fields(ids.drop_last()) + lp16(encode_utf8(ids.last()))
    }
}

impl FrameView {
    spec fn freshness_bytes(self) -> Seq<u8> {
        TAG_FRAME@ + seq![self.kind, self.grade] + be64(self.session) + be64(self.counter)
    }

    spec fn route_bytes(self) -> Seq<u8> {
        be32(self.sender_id) + be32(self.receiver_id) + be32(self.dest_final) + be16(
            self.key_size_bits,
        ) + be32(self.epoch_id) + be32(self.key_ids.len() as u32)
    }

    spec fn content_bytes(self) -> Seq<u8> {
        key_id_fields(self.key_ids) + lp16(self.header_orr_mp) + lp16(self.header_dkms_mp) + be32(
            self.body.len() as u32,
        ) + self.body
    }

    /// The canonical bytes that are authenticated.
    pub open spec fn message(self) -> Seq<u8> {
        TAG_FRAME@ + seq![self.kind, self.grade] + be64(self.session) + be64(self.counter) + be32(
            self.sender_id,
        ) + be32(self.receiver_id) + be32(self.dest_final) + be16(self.key_size_bits) + be32(
            self.epoch_id,
        ) + be32(self.key_ids.len() as u32) + key_id_fields(self.key_ids) + lp16(self.header_orr_mp)
            + lp16(self.header_dkms_mp) + be32(self.body.len() as u32) + self.body
    }

    /// Whether the fields with a two-byte length fit it. Longer ones are never
    /// authenticated.
    pub open spec fn fits(self) -> bool {
        &&& forall|i: int|
            0 <= i < self.key_ids.len() ==> encode_utf8(#[trigger] self.key_ids[i]).len()
                <= u16::MAX
        &&& self.header_orr_mp.len() <= u16::MAX
        &&& self.header_dkms_mp.len() <= u16::MAX
    }
}

impl<'a> View for FrameAad<'a> {
    type V = FrameView;

    open spec fn view(&self) -> FrameView {
        FrameView {
            kind: self.kind,
            grade: self.grade,
            session: self.session,
            counter: self.counter,
            sender_id: self.sender_id,
            receiver_id: self.receiver_id,
            dest_final: self.dest_final,
            key_size_bits: self.key_size_bits,
            epoch_id: self.epoch_id,
            key_ids: self.key_ids@.map_values(|s: String| s@),
            header_orr_mp: self.header_orr_mp@,
            header_dkms_mp: self.header_dkms_mp@,
            body: self.body@,
        }
    }
}

proof fn lemma_key_id_fields_front(ids: Seq<Seq<char>>)
    requires
        ids.len() > 0,
    ensures
        key_id_fields(ids) == lp16(encode_utf8(ids[0])) + key_id_fields(ids.drop_first()),
    decreases ids.len(),
{
    let front = lp16(encode_utf8(ids[0]));
    if ids.len() == 1 {
        assert(key_id_fields(ids.drop_last()) =~= Seq::<u8>::empty());
        assert(key_id_fields(ids.drop_first()) =~= Seq::<u8>::empty());
        assert(key_id_fields(ids) =~= front + key_id_fields(ids.drop_first()));
    } else {
        lemma_key_id_fields_front(ids.drop_last());
        assert(ids.drop_last().drop_first() =~= ids.drop_first().drop_last());
        assert(key_id_fields(ids) =~= front + key_id_fields(ids.drop_first()));
    }
}

/// Key ids cannot trade bytes with each other or with what follows them.
proof fn lemma_key_ids_split(a: Seq<Seq<char>>, x: Seq<u8>, b: Seq<Seq<char>>, y: Seq<u8>)
    requires
        key_id_fields(a) + x == key_id_fields(b) + y,
        a.len() == b.len(),
        forall|i: int| 0 <= i < a.len() ==> encode_utf8(#[trigger] a[i]).len() <= u16::MAX,
        forall|i: int| 0 <= i < b.len() ==> encode_utf8(#[trigger] b[i]).len() <= u16::MAX,
    ensures
        a == b,
        x == y,
    decreases a.len(),
{
    if a.len() == 0 {
        assert(a =~= b);
        assert(key_id_fields(a) + x =~= x);
        assert(key_id_fields(b) + y =~= y);
    } else {
        lemma_key_id_fields_front(a);
        lemma_key_id_fields_front(b);
        let ra = key_id_fields(a.drop_first());
        let rb = key_id_fields(b.drop_first());
        let fa = encode_utf8(a[0]);
        let fb = encode_utf8(b[0]);
        assert(key_id_fields(a) + x =~= lp16(fa) + (ra + x));
        assert(key_id_fields(b) + y =~= lp16(fb) + (rb + y));
        lemma_lp16_split(fa, ra + x, fb, rb + y);
        lemma_utf8_injective(a[0], b[0]);
        lemma_key_ids_split(a.drop_first(), x, b.drop_first(), y);
        assert(a =~= seq![a[0]] + a.drop_first());
        assert(b =~= seq![b[0]] + b.drop_first());
    }
}

proof fn lemma_message_parts(a: FrameView)
    ensures
        a.message() == a.freshness_bytes() + (a.route_bytes() + a.content_bytes()),
        a.freshness_bytes().len() == 26,
        a.route_bytes().len() == 22,
{
    assert(a.message() =~= a.freshness_bytes() + (a.route_bytes() + a.content_bytes()));
}

proof fn lemma_freshness_bytes(a: FrameView, b: FrameView)
    requires
        a.freshness_bytes() == b.freshness_bytes(),
    ensures
        a.kind == b.kind,
        a.grade == b.grade,
        a.session == b.session,
        a.counter == b.counter,
{
    let ga = TAG_FRAME@ + seq![a.kind, a.grade];
    let gb = TAG_FRAME@ + seq![b.kind, b.grade];
    lemma_split_equal(ga + be64(a.session), be64(a.counter), gb + be64(b.session), be64(b.counter));
    lemma_split_equal(ga, be64(a.session), gb, be64(b.session));
    assert(ga[8] == gb[8]);
    assert(ga[9] == gb[9]);
    lemma_be64_injective(a.session, b.session);
    lemma_be64_injective(a.counter, b.counter);
}

proof fn lemma_route_bytes(a: FrameView, b: FrameView)
    requires
        a.route_bytes() == b.route_bytes(),
        a.key_ids.len() <= u32::MAX,
        b.key_ids.len() <= u32::MAX,
    ensures
        a.sender_id == b.sender_id,
        a.receiver_id == b.receiver_id,
        a.dest_final == b.dest_final,
        a.key_size_bits == b.key_size_bits,
        a.epoch_id == b.epoch_id,
        a.key_ids.len() == b.key_ids.len(),
{
    let s1 = be32(a.sender_id);
    let t1 = be32(b.sender_id);
    let s2 = s1 + be32(a.receiver_id);
    let t2 = t1 + be32(b.receiver_id);
    let s3 = s2 + be32(a.dest_final);
    let t3 = t2 + be32(b.dest_final);
    let s4 = s3 + be16(a.key_size_bits);
    let t4 = t3 + be16(b.key_size_bits);
    let s5 = s4 + be32(a.epoch_id);
    let t5 = t4 + be32(b.epoch_id);
    lemma_split_equal(s5, be32(a.key_ids.len() as u32), t5, be32(b.key_ids.len() as u32));
    lemma_split_equal(s4, be32(a.epoch_id), t4, be32(b.epoch_id));
    lemma_split_equal(s3, be16(a.key_size_bits), t3, be16(b.key_size_bits));
    lemma_split_equal(s2, be32(a.dest_final), t2, be32(b.dest_final));
    lemma_split_equal(s1, be32(a.receiver_id), t1, be32(b.receiver_id));
    lemma_be32_injective(a.sender_id, b.sender_id);
    lemma_be32_injective(a.receiver_id, b.receiver_id);
    lemma_be32_injective(a.dest_final, b.dest_final);
    lemma_be16_injective(a.key_size_bits, b.key_size_bits);
    lemma_be32_injective(a.epoch_id, b.epoch_id);
    lemma_be32_injective(a.key_ids.len() as u32, b.key_ids.len() as u32);
}

proof fn lemma_content_bytes(a: FrameView, b: FrameView)
    requires
        a.fits(),
        b.fits(),
        a.key_ids.len() == b.key_ids.len(),
        a.content_bytes() == b.content_bytes(),
    ensures
        a.key_ids == b.key_ids,
        a.header_orr_mp == b.header_orr_mp,
        a.header_dkms_mp == b.header_dkms_mp,
        a.body == b.body,
{
    let ta = be32(a.body.len() as u32) + a.body;
    let tb = be32(b.body.len() as u32) + b.body;
    let da = lp16(a.header_dkms_mp) + ta;
    let db = lp16(b.header_dkms_mp) + tb;
    let oa = lp16(a.header_orr_mp) + da;
    let ob = lp16(b.header_orr_mp) + db;
    assert(a.content_bytes() =~= key_id_fields(a.key_ids) + oa);
    assert(b.content_bytes() =~= key_id_fields(b.key_ids) + ob);
    lemma_key_ids_split(a.key_ids, oa, b.key_ids, ob);
    lemma_lp16_split(a.header_orr_mp, da, b.header_orr_mp, db);
    lemma_lp16_split(a.header_dkms_mp, ta, b.header_dkms_mp, tb);
    lemma_split_equal(be32(a.body.len() as u32), a.body, be32(b.body.len() as u32), b.body);
}

/// Two frames with the same canonical bytes are the same in every field: no
/// limit between two fields can be moved.
pub proof fn frame_message_binds_every_field(a: FrameView, b: FrameView)
    requires
        a.fits(),
        b.fits(),
        a.key_ids.len() <= u32::MAX,
        b.key_ids.len() <= u32::MAX,
        a.message() == b.message(),
    ensures
        a == b,
{
    lemma_message_parts(a);
    lemma_message_parts(b);
    lemma_split_equal(
        a.freshness_bytes(),
        a.route_bytes() + a.content_bytes(),
        b.freshness_bytes(),
        b.route_bytes() + b.content_bytes(),
    );
    lemma_split_equal(a.route_bytes(), a.content_bytes(), b.route_bytes(), b.content_bytes());
    lemma_freshness_bytes(a, b);
    lemma_route_bytes(a, b);
    lemma_content_bytes(a, b);
}

/// The frame key of one session, derived from the root of the link. The
/// session number is the salt, so two sessions of a sender have keys of their own.
pub fn derive_key(root: &[u8], session: u64) -> (r: [u8; 32])
    ensures
        r@ == hkdf_sha256_of(be64(session), root@, HKDF_INFO@, 32),
{
    let mut salt: Vec<u8> = Vec::new();
    push_be64(&mut salt, session);
    assert(salt@ =~= be64(session));
    let okm = hkdf_sha256(&salt, root, &HKDF_INFO, 32);
    array32(&okm)
}

fn frame_bytes(aad: &FrameAad<'_>) -> (r: Vec<u8>)
    ensures
        r@ == aad@.message(),
{
    let mut m: Vec<u8> = Vec::new();
    push_all(&mut m, &TAG_FRAME);
    m.push(aad.kind);
    m.push(aad.grade);
    push_be64(&mut m, aad.session);
    push_be64(&mut m, aad.counter);
    push_be32(&mut m, aad.sender_id);
    push_be32(&mut m, aad.receiver_id);
    push_be32(&mut m, aad.dest_final);
    push_be16(&mut m, aad.key_size_bits);
    push_be32(&mut m, aad.epoch_id);
    push_be32(&mut m, aad.key_ids.len() as u32);
    let ghost head = m@;
    let ghost ids = aad@.key_ids;
    let n: usize = aad.key_ids.len();
    let mut i: usize = 0;
    assert(ids.take(0) =~= Seq::<Seq<char>>::empty());
    assert(m@ =~= head + key_id_fields(ids.take(0)));
    while i < n
        invariant
            n == aad.key_ids@.len() == ids.len(),
            ids == aad.key_ids@.map_values(|s: String| s@),
            i <= n,
            m@ == head + key_id_fields(ids.take(i as int)),
        decreases n - i,
    {
        push_lp16(&mut m, aad.key_ids[i].as_str().as_bytes());
        assert(ids.take(i + 1).drop_last() =~= ids.take(i as int));
        assert(ids.take(i + 1).last() == aad.key_ids@[i as int]@);
        assert(m@ =~= head + key_id_fields(ids.take(i + 1)));
        i = i + 1;
    }
    assert(ids.take(n as int) =~= ids);
    push_lp16(&mut m, aad.header_orr_mp);
    push_lp16(&mut m, aad.header_dkms_mp);
    push_be32(&mut m, aad.body.len() as u32);
    push_all(&mut m, aad.body);
    assert(m@ =~= aad@.message());
    m
}

/// The tag of a frame.
pub fn tag(key: &[u8; 32], aad: &FrameAad<'_>) -> (r: [u8; TAG_LEN])
    requires
        aad@.fits(),
    ensures
        r@ == hmac_sha256_of(key@, aad@.message()),
{
    hmac_sha256(key, &frame_bytes(aad))
}

/// Whether `mac` is the tag of the frame.
pub fn verify(key: &[u8; 32], aad: &FrameAad<'_>, mac: &[u8]) -> (r: Result<(), MacError>)
    requires
        aad@.fits(),
    ensures
        r is Ok <==> mac@ == hmac_sha256_of(key@, aad@.message()),
        r is Err ==> r == Err::<(), MacError>(MacError::Invalid),
{
    if hmac_sha256_matches(key, &frame_bytes(aad), mac) {
        Ok(())
    } else {
        Err(MacError::Invalid)
    }
}

// ---------------------------------------------------------------------------
// Replay window: model
// ---------------------------------------------------------------------------

/// What is known of one session: its number, the highest counter admitted and
/// which counters of the window below it were admitted.
#[verifier::ext_equal]
pub struct TrackView {
    pub session: u64,
    pub highest: u64,
    pub seen: Set<u64>,
}

#[verifier::ext_equal]
pub struct WindowView {
    pub width: u64,
    pub current: Option<TrackView>,
    pub previous: Option<TrackView>,
    pub retired: Seq<u64>,
    pub adopt: SessionAdopt,
    pub last_accept: Option<u64>,
    pub quiet_ns: u64,
}

impl TrackView {
    pub open spec fn fresh(session: u64) -> TrackView {
        TrackView { session, highest: 0, seen: Set::empty() }
    }

    /// Whether `counter` can no longer be admitted here.
    pub open spec fn spent(self, width: u64, counter: u64) -> bool {
        self.highest - counter >= width || self.seen.contains(counter)
    }

    pub open spec fn verdict(self, width: u64, counter: u64) -> Result<(), ReplayError> {
        if self.highest - counter >= width {
            Err(
                ReplayError::TooOld {
                    session: self.session,
                    counter,
                    floor: if self.highest > width - 1 {
                        (self.highest - (width - 1)) as u64
                    } else {
                        0
                    },
                },
            )
        } else if self.seen.contains(counter) {
            Err(ReplayError::Replayed { session: self.session, counter })
        } else {
            Ok(())
        }
    }

    /// The track once `counter` was admitted.
    pub open spec fn record(self, width: u64, counter: u64) -> TrackView {
        if counter > self.highest {
            TrackView {
                session: self.session,
                highest: counter,
                seen: self.seen.filter(|c: u64| counter - c < width).insert(counter),
            }
        } else {
            TrackView { session: self.session, highest: self.highest, seen: self.seen.insert(counter) }
        }
    }

    pub open spec fn step(self, width: u64, counter: u64) -> (Result<(), ReplayError>, TrackView) {
        match self.verdict(width, counter) {
            Ok(_) => (Ok(()), self.record(width, counter)),
            Err(e) => (Err(e), self),
        }
    }
}

impl WindowView {
    pub open spec fn empty(width: u64, adopt: SessionAdopt) -> WindowView {
        WindowView {
            width: if width < 64 { 64 } else { width },
            current: None,
            previous: None,
            retired: Seq::empty(),
            adopt,
            last_accept: None,
            quiet_ns: ADOPT_AFTER_QUIET_NS,
        }
    }

    /// Whether a session other than the current `cur` may become current.
    pub open spec fn adopts(self, cur: u64, session: u64, now_ns: u64) -> bool {
        match self.adopt {
            SessionAdopt::Any => true,
            SessionAdopt::Monotonic => session > cur,
            SessionAdopt::AfterQuiet => match self.last_accept {
                None => true,
                Some(t) => now_ns - t >= self.quiet_ns || self.quiet_ns == 0,
            },
        }
    }

    /// `retired` with one more session; the oldest is forgotten beyond the limit.
    pub open spec fn retire(retired: Seq<u64>, session: u64) -> Seq<u64> {
        let longer = retired.push(session);
        if longer.len() > RETIRED_KEPT {
            longer.remove(0)
        } else {
            longer
        }
    }

    /// The window once `session` became current, with nothing admitted in it yet.
    pub open spec fn rotated(self, session: u64) -> WindowView {
        match self.current {
            None => WindowView { current: Some(TrackView::fresh(session)), ..self },
            Some(cur) => WindowView {
                current: Some(TrackView::fresh(session)),
                previous: Some(cur),
                retired: match self.previous {
                    Some(p) => Self::retire(self.retired, p.session),
                    None => self.retired,
                },
                ..self
            },
        }
    }

    /// Admission into the current session, which `session` already is.
    pub open spec fn step_current(self, counter: u64, now_ns: u64) -> (
        Result<(), ReplayError>,
        WindowView,
    ) {
        let (r, t) = self.current->0.step(self.width, counter);
        (r, WindowView { current: Some(t), last_accept: Some(now_ns), ..self })
    }

    /// What becomes of a frame (session, counter) that arrives at `now_ns`.
    pub open spec fn step(self, session: u64, counter: u64, now_ns: u64) -> (
        Result<(), ReplayError>,
        WindowView,
    ) {
        if counter == 0 {
            (Err(ReplayError::ZeroCounter), self)
        } else if self.retired.contains(session) {
            (Err(ReplayError::RetiredSession { session }), self)
        } else if self.previous is Some && self.previous->0.session == session {
            let (r, t) = self.previous->0.step(self.width, counter);
            (r, WindowView { previous: Some(t), ..self })
        } else {
            match self.current {
                None => self.rotated(session).step_current(counter, now_ns),
                Some(cur) => if cur.session == session {
                    self.step_current(counter, now_ns)
                } else if self.adopts(cur.session, session, now_ns) {
                    self.rotated(session).step_current(counter, now_ns)
                } else {
                    (Err(ReplayError::RetiredSession { session }), self)
                },
            }
        }
    }

    /// What every window keeps: at least 64 wide, the followed sessions are told
    /// apart from each other and from the retired ones, and nothing above the
    /// highest counter was admitted.
    pub open spec fn wf(self) -> bool {
        &&& self.width >= 64
        &&& self.retired.len() <= RETIRED_KEPT
        &&& self.current matches Some(c) ==> {
            &&& !self.retired.contains(c.session)
            &&& forall|k: u64| #[trigger] c.seen.contains(k) ==> k <= c.highest
        }
        &&& self.previous matches Some(p) ==> {
            &&& self.current is Some
            &&& self.current->0.session != p.session
            &&& !self.retired.contains(p.session)
            &&& forall|k: u64| #[trigger] p.seen.contains(k) ==> k <= p.highest
        }
    }

    /// In a window whose sessions are numbered upwards, sessions were followed
    /// in that order.
    pub open spec fn ascending(self) -> bool {
        &&& self.adopt == SessionAdopt::Monotonic
        &&& self.previous is Some ==> self.previous->0.session < self.current->0.session
        &&& forall|i: int|
            0 <= i < self.retired.len() ==> self.previous is Some && #[trigger] self.retired[i]
                < self.previous->0.session
    }

    /// Whether the frame (session, counter) can no longer be admitted, for a
    /// reason that the window itself holds.
    pub open spec fn spent(self, session: u64, counter: u64) -> bool {
        ||| self.retired.contains(session)
        ||| self.previous is Some && self.previous->0.session == session
            && self.previous->0.spent(self.width, counter)
        ||| self.current is Some && self.current->0.session == session
            && self.current->0.spent(self.width, counter)
        ||| self.adopt == SessionAdopt::Monotonic && self.current is Some && session
            < self.current->0.session && !(self.previous is Some && self.previous->0.session
            == session)
    }

    /// The window after a series of frames (session, counter, arrival time).
    pub open spec fn run(self, frames: Seq<(u64, u64, u64)>) -> WindowView
        decreases frames.len(),
    {
        if frames.len() == 0 {
            self
        } else {
            self.step(frames[0].0, frames[0].1, frames[0].2).1.run(frames.drop_first())
        }
    }

    /// The session that is followed.
    pub open spec fn followed(self) -> Option<u64> {
        match self.current {
            Some(c) => Some(c.session),
            None => None,
        }
    }

    /// How often another session becomes the current one along a series of frames.
    pub open spec fn changes(self, frames: Seq<(u64, u64, u64)>) -> nat
        decreases frames.len(),
    {
        if frames.len() == 0 {
            0
        } else {
            let next = self.step(frames[0].0, frames[0].1, frames[0].2).1;
            let rest = next.changes(frames.drop_first());
            if next.followed() == self.followed() {
                rest
            } else {
                rest + 1
            }
        }
    }

    /// How many changes of the current session leave a session remembered that is
    /// the current one or the one before.
    pub open spec fn kept_for(self, session: u64) -> nat {
        if self.followed() == Some(session) {
            (RETIRED_KEPT + 1) as nat
        } else {
            RETIRED_KEPT as nat
        }
    }

    /// Whether the current session changes `n` times before the window has
    /// forgotten `session`, which it follows or has retired.
    spec fn remembers(self, session: u64, n: int) -> bool {
        ||| self.current is Some && self.current->0.session == session && n <= RETIRED_KEPT + 2
        ||| self.previous is Some && self.previous->0.session == session && n <= RETIRED_KEPT + 1
        ||| exists|i: int|
            0 <= i < self.retired.len() && #[trigger] self.retired[i] == session && n
                <= RETIRED_KEPT - self.retired.len() + i + 1
    }
}

// ---------------------------------------------------------------------------
// Replay window: laws
// ---------------------------------------------------------------------------

/// Every window keeps its invariant, whatever frame it is shown.
pub proof fn window_stays_well_formed(v: WindowView, session: u64, counter: u64, now_ns: u64)
    requires
        v.wf(),
    ensures
        v.step(session, counter, now_ns).1.wf(),
{
    let w = v.step(session, counter, now_ns).1;
    assert(forall|r: Seq<u64>, x: u64, y: u64|
        #[trigger] WindowView::retire(r, x).contains(y) ==> r.contains(y) || y == x) by {
        assert forall|r: Seq<u64>, x: u64, y: u64| #[trigger]
            WindowView::retire(r, x).contains(y) implies r.contains(y) || y == x by {
            let q = WindowView::retire(r, x);
            let i = choose|i: int| 0 <= i < q.len() && q[i] == y;
            let j = if r.push(x).len() > RETIRED_KEPT { i + 1 } else { i };
            assert(r.push(x)[j] == y);
            if j < r.len() {
                assert(r[j] == y);
            }
        }
    }
}

/// Once a frame was admitted, the window has a reason to refuse it.
pub proof fn admitted_frame_is_spent(v: WindowView, session: u64, counter: u64, now_ns: u64)
    requires
        v.wf(),
        v.step(session, counter, now_ns).0 is Ok,
    ensures
        v.step(session, counter, now_ns).1.spent(session, counter),
{
}

/// A spent frame is refused, and the refusal changes nothing but the time of
/// the last frame.
pub proof fn spent_frame_is_refused(v: WindowView, session: u64, counter: u64, now_ns: u64)
    requires
        v.wf(),
        v.spent(session, counter),
    ensures
        v.step(session, counter, now_ns).0 is Err,
        (WindowView { last_accept: v.last_accept, ..v.step(session, counter, now_ns).1 }) == v,
{
}

/// A refused frame leaves the window as it was, but for the time of the last
/// frame of the current session.
pub proof fn refusal_keeps_the_window(v: WindowView, session: u64, counter: u64, now_ns: u64)
    requires
        v.wf(),
        v.step(session, counter, now_ns).0 is Err,
    ensures
        (WindowView { last_accept: v.last_accept, ..v.step(session, counter, now_ns).1 }) == v,
{
}

/// Only a quiet-gated window looks at the clock.
pub proof fn verdict_ignores_the_clock(
    v: WindowView,
    session: u64,
    counter: u64,
    now_ns: u64,
    other_ns: u64,
)
    requires
        v.adopt != SessionAdopt::AfterQuiet,
    ensures
        v.step(session, counter, now_ns).0 == v.step(session, counter, other_ns).0,
        (WindowView { last_accept: None, ..v.step(session, counter, now_ns).1 }) == (WindowView {
            last_accept: None,
            ..v.step(session, counter, other_ns).1
        }),
{
}

proof fn lemma_retire(r: Seq<u64>, x: u64, i: int)
    requires
        r.len() <= RETIRED_KEPT,
        0 <= i < r.len(),
        r.len() == RETIRED_KEPT ==> i >= 1,
    ensures
        r.len() < RETIRED_KEPT ==> WindowView::retire(r, x)[i] == r[i],
        r.len() == RETIRED_KEPT ==> WindowView::retire(r, x)[i - 1] == r[i],
        WindowView::retire(r, x).last() == x,
{
}

/// While the window remembers a session, a spent frame of it stays spent.
proof fn lemma_spent_stays(
    v: WindowView,
    session: u64,
    counter: u64,
    n: int,
    frame: (u64, u64, u64),
)
    requires
        v.wf(),
        v.spent(session, counter),
        v.remembers(session, n),
        v.step(frame.0, frame.1, frame.2).1.followed() == v.followed() || n >= 2,
    ensures
        v.step(frame.0, frame.1, frame.2).1.spent(session, counter),
        v.step(frame.0, frame.1, frame.2).1.remembers(
            session,
            if v.step(frame.0, frame.1, frame.2).1.followed() == v.followed() {
                n
            } else {
                n - 1
            },
        ),
{
    let w = v.step(frame.0, frame.1, frame.2).1;
    if v.current is Some && v.current->0.session == session && n <= RETIRED_KEPT + 2 {
    } else if v.previous is Some && v.previous->0.session == session && n <= RETIRED_KEPT + 1 {
        if w.previous->0.session != session {
            let q = w.retired;
            assert(q == WindowView::retire(v.retired, session));
            assert(q[q.len() - 1] == session);
        }
    } else {
        let i = choose|i: int|
            0 <= i < v.retired.len() && #[trigger] v.retired[i] == session && n <= RETIRED_KEPT
                - v.retired.len() + i + 1;
        if w.retired != v.retired {
            lemma_retire(v.retired, v.previous->0.session, i);
        } else {
            assert(w.retired[i] == session);
        }
    }
}

proof fn lemma_spent_stays_ascending(
    v: WindowView,
    session: u64,
    counter: u64,
    frame: (u64, u64, u64),
)
    requires
        v.wf(),
        v.ascending(),
        v.spent(session, counter),
    ensures
        v.step(frame.0, frame.1, frame.2).1.spent(session, counter),
        v.step(frame.0, frame.1, frame.2).1.ascending(),
{
    if v.retired.contains(session) {
        let i = choose|i: int| 0 <= i < v.retired.len() && v.retired[i] == session;
        assert(v.retired[i] == session);
    }
    ascending_is_kept(v, frame.0, frame.1, frame.2);
}

proof fn lemma_run_spent(
    v: WindowView,
    session: u64,
    counter: u64,
    n: int,
    frames: Seq<(u64, u64, u64)>,
)
    requires
        v.wf(),
        v.spent(session, counter),
        v.remembers(session, n),
        n > v.changes(frames),
    ensures
        v.run(frames).wf(),
        v.run(frames).spent(session, counter),
    decreases frames.len(),
{
    if frames.len() > 0 {
        let f = frames[0];
        window_stays_well_formed(v, f.0, f.1, f.2);
        let next = v.step(f.0, f.1, f.2).1;
        let m = if next.followed() == v.followed() {
            n
        } else {
            n - 1
        };
        lemma_spent_stays(v, session, counter, n, f);
        lemma_run_spent(next, session, counter, m, frames.drop_first());
    }
}

proof fn lemma_run_spent_ascending(
    v: WindowView,
    session: u64,
    counter: u64,
    frames: Seq<(u64, u64, u64)>,
)
    requires
        v.wf(),
        v.ascending(),
        v.spent(session, counter),
    ensures
        v.run(frames).wf(),
        v.run(frames).spent(session, counter),
    decreases frames.len(),
{
    if frames.len() > 0 {
        let f = frames[0];
        window_stays_well_formed(v, f.0, f.1, f.2);
        lemma_spent_stays_ascending(v, session, counter, f);
        lemma_run_spent_ascending(
            v.step(f.0, f.1, f.2).1,
            session,
            counter,
            frames.drop_first(),
        );
    }
}

/// A frame that was admitted is refused when it comes again, whatever frames come
/// in between, unless the current session changed so often that the window has
/// forgotten the session of the frame.
pub proof fn frame_is_admitted_once(
    v: WindowView,
    session: u64,
    counter: u64,
    now_ns: u64,
    between: Seq<(u64, u64, u64)>,
    later_ns: u64,
)
    requires
        v.wf(),
        v.step(session, counter, now_ns).0 is Ok,
        ({
            let w = v.step(session, counter, now_ns).1;
            w.changes(between) <= w.kept_for(session)
        }),
    ensures
        v.step(session, counter, now_ns).1.run(between).step(session, counter, later_ns).0 is Err,
{
    let w = v.step(session, counter, now_ns).1;
    window_stays_well_formed(v, session, counter, now_ns);
    admitted_frame_is_spent(v, session, counter, now_ns);
    let n = w.kept_for(session) as int + 1;
    assert(w.remembers(session, n));
    lemma_run_spent(w, session, counter, n, between);
    spent_frame_is_refused(w.run(between), session, counter, later_ns);
}

/// In a window whose sessions are numbered upwards a frame is admitted at most
/// once, whatever comes in between.
pub proof fn frame_is_admitted_once_when_sessions_ascend(
    v: WindowView,
    session: u64,
    counter: u64,
    now_ns: u64,
    between: Seq<(u64, u64, u64)>,
    later_ns: u64,
)
    requires
        v.wf(),
        v.ascending(),
        v.step(session, counter, now_ns).0 is Ok,
    ensures
        v.step(session, counter, now_ns).1.run(between).step(session, counter, later_ns).0 is Err,
{
    let w = v.step(session, counter, now_ns).1;
    window_stays_well_formed(v, session, counter, now_ns);
    admitted_frame_is_spent(v, session, counter, now_ns);
    ascending_is_kept(v, session, counter, now_ns);
    lemma_run_spent_ascending(w, session, counter, between);
    spent_frame_is_refused(w.run(between), session, counter, later_ns);
}

/// A window that takes only greater sessions keeps them in that order, and an
/// empty one is in order.
pub proof fn ascending_is_kept(v: WindowView, session: u64, counter: u64, now_ns: u64)
    requires
        v.wf(),
        v.ascending(),
    ensures
        v.step(session, counter, now_ns).1.ascending(),
        WindowView::empty(v.width, SessionAdopt::Monotonic).ascending(),
{
    let w = v.step(session, counter, now_ns).1;
    if v.retired.len() > 0 {
        assert(v.retired[0] < v.previous->0.session);
    }
    if w.retired != v.retired {
        assert forall|i: int| 0 <= i < w.retired.len() implies w.previous is Some
            && #[trigger] w.retired[i] < w.previous->0.session by {
            let longer = v.retired.push(v.previous->0.session);
            let j = if longer.len() > RETIRED_KEPT { i + 1 } else { i };
            assert(w.retired[i] == longer[j]);
            if j < v.retired.len() {
                assert(v.retired[j] < v.previous->0.session);
            }
        }
    } else {
        assert forall|i: int| 0 <= i < w.retired.len() implies w.previous is Some
            && #[trigger] w.retired[i] < w.previous->0.session by {
            assert(w.retired[i] == v.retired[i]);
        }
    }
}

/// A session that is neither followed nor greater than the current one never
/// displaces the current session of a window that takes greater sessions only.
pub proof fn old_session_does_not_mute_the_current_one(
    v: WindowView,
    session: u64,
    counter: u64,
    now_ns: u64,
)
    requires
        v.wf(),
        v.adopt == SessionAdopt::Monotonic,
        v.current is Some,
        session < v.current->0.session,
        !(v.previous is Some && v.previous->0.session == session),
    ensures
        v.step(session, counter, now_ns).0 is Err,
        v.step(session, counter, now_ns).1 == v,
{
}

// ---------------------------------------------------------------------------
// Replay window: code
// ---------------------------------------------------------------------------

#[derive(Debug)]
struct Track {
    session: u64,
    highest: u64,
    /// Bit `i` stands for the counter `highest - i`.
    bits: Vec<u64>,
}

spec fn seen_set(highest: u64, bits: Seq<u64>, width: u64) -> Set<u64> {
    Set::new(|c: u64| c <= highest && highest - c < width && bit(bits, highest - c))
}

impl Track {
    spec fn inv(self, width: u64) -> bool {
        64 * self.bits@.len() >= width
    }

    spec fn view_at(self, width: u64) -> TrackView {
        TrackView {
            session: self.session,
            highest: self.highest,
            seen: seen_set(self.highest, self.bits@, width),
        }
    }

    fn step(&mut self, width: u64, counter: u64) -> (r: Result<(), ReplayError>)
        requires
            old(self).inv(width),
            width >= 64,
            width <= usize::MAX,
        ensures
            final(self).inv(width),
            final(self).bits@.len() == old(self).bits@.len(),
            (r, final(self).view_at(width)) == old(self).view_at(width).step(width, counter),
    {
        let ghost before = self.view_at(width);
        let ghost bits0 = self.bits@;
        if counter > self.highest {
            let by: u64 = counter - self.highest;
            if by >= width {
                clear_bits(&mut self.bits);
            } else {
                shift_bits(&mut self.bits, by);
            }
            let ghost bits1 = self.bits@;
            let ghost highest0 = self.highest;
            self.highest = counter;
            set_bit(&mut self.bits, 0);
            proof {
                let after = self.view_at(width);
                assert forall|c: u64| #[trigger]
                    after.seen.contains(c) == before.record(width, counter).seen.contains(c) by {
                    if c <= counter && counter - c < width {
                        let k = counter - c;
                        assert(bit(self.bits@, k) == (k == 0 || bit(bits1, k)));
                        if by < width {
                            assert(bit(bits1, k) == (k >= by && bit(bits0, k - by)));
                        } else {
                            assert(!bit(bits1, k));
                        }
                    }
                }
                assert(after.seen =~= before.record(width, counter).seen);
            }
            return Ok(());
        }
        let back: u64 = self.highest - counter;
        if back >= width {
            return Err(
                ReplayError::TooOld {
                    session: self.session,
                    counter,
                    floor: self.highest.saturating_sub(width - 1),
                },
            );
        }
        if test_bit(&self.bits, back as usize) {
            return Err(ReplayError::Replayed { session: self.session, counter });
        }
        set_bit(&mut self.bits, back as usize);
        proof {
            let after = self.view_at(width);
            assert forall|c: u64| #[trigger]
                after.seen.contains(c) == before.record(width, counter).seen.contains(c) by {
                if c <= self.highest && self.highest - c < width {
                    let k = self.highest - c;
                    assert(bit(self.bits@, k) == (k == back || bit(bits0, k)));
                }
            }
            assert(after.seen =~= before.record(width, counter).seen);
        }
        Ok(())
    }
}

/// Sliding anti-replay window for one direction of a link.
///
/// The tag of a frame is to be verified first; only then may the frame be shown
/// to [`ReplayWindow::check_and_set`].
#[derive(Debug)]
pub struct ReplayWindow {
    width: u64,
    current: Option<Track>,
    previous: Option<Track>,
    retired: Vec<u64>,
    adopt: SessionAdopt,
    last_accept: Option<u64>,
    quiet_ns: u64,
    clock: Clock,
}

impl View for ReplayWindow {
    type V = WindowView;

    closed spec fn view(&self) -> WindowView {
        WindowView {
            width: self.width,
            current: match self.current {
                Some(t) => Some(t.view_at(self.width)),
                None => None,
            },
            previous: match self.previous {
                Some(t) => Some(t.view_at(self.width)),
                None => None,
            },
            retired: self.retired@,
            adopt: self.adopt,
            last_accept: self.last_accept,
            quiet_ns: self.quiet_ns,
        }
    }
}

fn index_of(v: &Vec<u64>, x: u64) -> (r: bool)
    ensures
        r == v@.contains(x),
{
    let mut i: usize = 0;
    while i < v.len()
        invariant
            i <= v@.len(),
            forall|j: int| 0 <= j < i ==> v@[j] != x,
        decreases v@.len() - i,
    {
        if v[i] == x {
            return true;
        }
        i = i + 1;
    }
    false
}

impl ReplayWindow {
    /// Bitmaps cover the width, and the width fits the machine's addresses.
    pub closed spec fn inv(self) -> bool {
        &&& 64 <= self.width <= usize::MAX
        &&& self.current matches Some(t) ==> t.inv(self.width)
        &&& self.previous matches Some(t) ==> t.inv(self.width)
        &&& self@.wf()
    }

    /// What the laws of the window ask for holds of every window.
    pub proof fn lemma_wf(self)
        requires
            self.inv(),
        ensures
            self@.wf(),
    {
    }

    fn with_adopt(width: u64, adopt: SessionAdopt) -> (r: Self)
        requires
            width <= usize::MAX,
        ensures
            r.inv(),
            r@ == WindowView::empty(width, adopt),
    {
        let width: u64 = if width < 64 { 64 } else { width };
        let r = ReplayWindow {
            width,
            current: None,
            previous: None,
            retired: Vec::new(),
            adopt,
            last_accept: None,
            quiet_ns: ADOPT_AFTER_QUIET_NS,
            clock: Clock::start(),
        };
        assert(r@.retired =~= Seq::<u64>::empty());
        r
    }

    /// A window of `width` counters, at least 64, that adopts any unseen session.
    pub fn new(width: u64) -> (r: Self)
        requires
            width <= usize::MAX,
        ensures
            r.inv(),
            r@ == WindowView::empty(width, SessionAdopt::Any),
    {
        Self::with_adopt(width, SessionAdopt::Any)
    }

    /// Silence, in nanoseconds, that is asked for before another session is
    /// adopted in a quiet-gated window.
    pub fn set_quiet(&mut self, quiet_ns: u64)
        requires
            old(self).inv(),
        ensures
            final(self).inv(),
            final(self)@ == (WindowView { quiet_ns, ..old(self)@ }),
    {
        self.quiet_ns = quiet_ns;
    }

    /// A window whose sessions are numbered upwards.
    pub fn new_monotonic(width: u64) -> (r: Self)
        requires
            width <= usize::MAX,
        ensures
            r.inv(),
            r@ == WindowView::empty(width, SessionAdopt::Monotonic),
    {
        Self::with_adopt(width, SessionAdopt::Monotonic)
    }

    /// A window that adopts another session only after a silence.
    pub fn new_quiet_gated(width: u64) -> (r: Self)
        requires
            width <= usize::MAX,
        ensures
            r.inv(),
            r@ == WindowView::empty(width, SessionAdopt::AfterQuiet),
    {
        Self::with_adopt(width, SessionAdopt::AfterQuiet)
    }

    /// The session that the window follows now.
    pub fn session(&self) -> (r: Option<u64>)
        ensures
            r == (match self@.current {
                Some(t) => Some(t.session),
                None => None,
            }),
    {
        match &self.current {
            Some(t) => Some(t.session),
            None => None,
        }
    }

    /// Highest counter admitted in the current session.
    pub fn highest(&self) -> (r: u64)
        ensures
            r == (match self@.current {
                Some(t) => t.highest,
                None => 0,
            }),
    {
        match &self.current {
            Some(t) => t.highest,
            None => 0,
        }
    }

    fn reset_to(&mut self, session: u64)
        requires
            old(self).inv(),
            old(self)@.current is Some ==> old(self)@.current->0.session != session,
        ensures
            final(self)@ == old(self)@.rotated(session),
            final(self).width == old(self).width,
            final(self).current matches Some(t) ==> t.inv(final(self).width),
            final(self).previous matches Some(t) ==> t.inv(final(self).width),
            final(self).clock == old(self).clock,
    {
        let ghost before = self@;
        let words: usize = ((self.width - 1) / 64 + 1) as usize;
        let bits = zero_bits(words);
        let ghost fresh_bits = bits@;
        let fresh = Track { session, highest: 0, bits };
        proof {
            assert forall|c: u64| !#[trigger] fresh.view_at(self.width).seen.contains(c) by {
                if c == 0 {
                    assert(!bit(fresh_bits, 0));
                }
            }
            assert(fresh.view_at(self.width).seen =~= Set::empty());
        }
        let old_current = self.current.take();
        if old_current.is_some() {
            if let Some(p) = self.previous.take() {
                self.retired.push(p.session);
                if self.retired.len() > RETIRED_KEPT {
                    self.retired.remove(0);
                }
            }
            self.previous = old_current;
        }
        self.current = Some(fresh);
        assert(self@ =~= before.rotated(session));
    }

    /// Admits `(session, counter)` at time `now_ns` if it is fresh, and marks it
    /// as seen.
    pub fn check_and_set_at(&mut self, session: u64, counter: u64, now_ns: u64) -> (r: Result<
        (),
        ReplayError,
    >)
        requires
            old(self).inv(),
        ensures
            final(self).inv(),
            (r, final(self)@) == old(self)@.step(session, counter, now_ns),
    {
        let ghost before = self@;
        proof {
            window_stays_well_formed(before, session, counter, now_ns);
        }
        if counter == 0 {
            return Err(ReplayError::ZeroCounter);
        }
        if index_of(&self.retired, session) {
            return Err(ReplayError::RetiredSession { session });
        }
        let is_prev: bool = match &self.previous {
            Some(p) => p.session == session,
            None => false,
        };
        if is_prev {
            let width: u64 = self.width;
            let mut p = self.previous.take().unwrap();
            let r = p.step(width, counter);
            self.previous = Some(p);
            assert(self@ =~= before.step(session, counter, now_ns).1);
            return r;
        }
        let cur: Option<u64> = self.session();
        match cur {
            Some(cur) => {
                if cur != session {
                    let adopt: bool = match self.adopt {
                        SessionAdopt::Any => true,
                        SessionAdopt::Monotonic => session > cur,
                        SessionAdopt::AfterQuiet => match self.last_accept {
                            None => true,
                            Some(t) => now_ns.saturating_sub(t) >= self.quiet_ns,
                        },
                    };
                    if !adopt {
                        return Err(ReplayError::RetiredSession { session });
                    }
                    self.reset_to(session);
                }
            },
            None => {
                self.reset_to(session);
            },
        }
        let ghost mid = self@;
        self.last_accept = Some(now_ns);
        let width: u64 = self.width;
        let mut c = self.current.take().unwrap();
        let r = c.step(width, counter);
        self.current = Some(c);
        assert(self@ =~= mid.step_current(counter, now_ns).1);
        r
    }

    /// Admits `(session, counter)` now if it is fresh, and marks it as seen.
    /// Only a quiet-gated window looks at the time.
    pub fn check_and_set(&mut self, session: u64, counter: u64) -> (r: Result<(), ReplayError>)
        requires
            old(self).inv(),
        ensures
            final(self).inv(),
            exists|now_ns: u64|
                (r, final(self)@) == #[trigger] old(self)@.step(session, counter, now_ns),
    {
        let now_ns: u64 = self.clock.now_ns();
        self.check_and_set_at(session, counter, now_ns)
    }
}

impl Default for ReplayWindow {
    fn default() -> (r: Self)
        ensures
            r.inv(),
            r@ == WindowView::empty(DEFAULT_WINDOW, SessionAdopt::Any),
    {
        Self::new(DEFAULT_WINDOW)
    }
}

/// A frame of the session that is followed is judged by its counter alone: one that
/// goes on is admitted; one that comes late is admitted if it still fits into the
/// window and did not come before, else it is called what it is.
pub proof fn frames_of_the_session_are_judged_by_their_counter(
    v: WindowView,
    session: u64,
    counter: u64,
    now_ns: u64,
)
    requires
        v.wf(),
        v.followed() == Some(session),
        counter > 0,
    ensures
        ({
            let t = v.current->0;
            let (r, after) = v.step(session, counter, now_ns);
            &&& counter > t.highest ==> r is Ok && after.current->0.highest == counter
            &&& counter <= t.highest && t.highest - counter >= v.width ==> r == Err::<(), ReplayError>(
                ReplayError::TooOld { session, counter, floor: (t.highest - v.width + 1) as u64 },
            )
            &&& counter <= t.highest && t.highest - counter < v.width && t.seen.contains(counter)
                ==> r == Err::<(), ReplayError>(ReplayError::Replayed { session, counter })
            &&& counter <= t.highest && t.highest - counter < v.width && !t.seen.contains(counter)
                ==> r is Ok && after.current->0.highest == t.highest
            &&& r is Ok ==> after.current->0.seen.contains(counter)
            &&& after.current->0.session == session
            &&& after.previous == v.previous && after.retired == v.retired
        }),
{
    let t = v.current->0;
    if counter > t.highest && t.seen.contains(counter) {
        assert(counter <= t.highest);
    }
}

/// Two frames of one session are both admitted in either order, as long as no more
/// than the window lies between them.
pub proof fn frames_may_overtake_each_other(
    v: WindowView,
    session: u64,
    first: u64,
    first_ns: u64,
    second: u64,
    second_ns: u64,
)
    requires
        v.wf(),
        v.followed() == Some(session),
        first > v.current->0.highest,
        second > v.current->0.highest,
        first != second,
        first - second < v.width,
    ensures
        v.step(session, first, first_ns).0 is Ok,
        v.step(session, first, first_ns).1.step(session, second, second_ns).0 is Ok,
{
    window_stays_well_formed(v, session, first, first_ns);
    let w = v.step(session, first, first_ns).1;
    frames_of_the_session_are_judged_by_their_counter(v, session, first, first_ns);
    frames_of_the_session_are_judged_by_their_counter(w, session, second, second_ns);
    if v.current->0.seen.contains(second) {
        assert(second <= v.current->0.highest);
    }
    assert(!w.current->0.seen.contains(second));
}

/// A session that was never followed becomes the current one with its first frame,
/// where sessions may change as they like; where they are numbered, only if it is
/// greater; where the old one must have fallen silent, only once it has. The session
/// before is still listened to, and a frame without a counter never counts.
pub proof fn new_sessions_are_taken_up_by_the_rule(
    v: WindowView,
    session: u64,
    counter: u64,
    now_ns: u64,
)
    requires
        v.wf(),
        v.followed() is Some,
        v.followed() != Some(session),
        v.previous matches Some(p) ==> p.session != session,
        !v.retired.contains(session),
    ensures
        ({
            let (r, after) = v.step(session, counter, now_ns);
            let taken = counter > 0 && match v.adopt {
                SessionAdopt::Any => true,
                SessionAdopt::Monotonic => session > v.current->0.session,
                SessionAdopt::AfterQuiet => v.last_accept is None || now_ns >= v.last_accept->0
                    + v.quiet_ns || v.quiet_ns == 0,
            };
            &&& r is Ok <==> taken
            &&& taken ==> {
                &&& after.followed() == Some(session)
                &&& after.current->0.highest == counter
                &&& after.previous == v.current
                &&& v.previous matches Some(p) ==> after.retired.contains(p.session)
            }
            &&& !taken ==> after == v
            &&& counter == 0 ==> r == Err::<(), ReplayError>(ReplayError::ZeroCounter)
            &&& counter > 0 && r is Err ==> r == Err::<(), ReplayError>(
                ReplayError::RetiredSession { session },
            )
        }),
{
    let (r, after) = v.step(session, counter, now_ns);
    if let Some(p) = v.previous {
        let longer = v.retired.push(p.session);
        assert(longer[longer.len() - 1] == p.session);
        let kept = WindowView::retire(v.retired, p.session);
        assert(kept[kept.len() - 1] == p.session);
    }
}

/// The first frame of all is admitted, whatever its session, and a window is never
/// narrower than 64 counters.
pub proof fn first_frame_is_admitted(
    width: u64,
    adopt: SessionAdopt,
    session: u64,
    counter: u64,
    now_ns: u64,
)
    requires
        counter > 0,
    ensures
        ({
            let v = WindowView::empty(width, adopt);
            let (r, after) = v.step(session, counter, now_ns);
            &&& v.width >= 64 && v.width >= width && (width >= 64 ==> v.width == width)
            &&& r is Ok
            &&& after.followed() == Some(session)
            &&& after.current->0.highest == counter
        }),
{
}

/// A frame of the session before is judged like one of the current session, which
/// it does not disturb.
pub proof fn frames_of_the_session_before_still_count(
    v: WindowView,
    session: u64,
    counter: u64,
    now_ns: u64,
)
    requires
        v.wf(),
        v.previous is Some,
        v.previous->0.session == session,
        counter > 0,
    ensures
        ({
            let t = v.previous->0;
            let (r, after) = v.step(session, counter, now_ns);
            &&& r is Ok <==> t.highest - counter < v.width && !t.seen.contains(counter)
            &&& after.current == v.current
            &&& after.retired == v.retired
            &&& after.last_accept == v.last_accept
        }),
{
}

proof fn lemma_joined_parts(a: Seq<u8>, b: Seq<u8>, c: Seq<u8>)
    ensures
        (a + b + c).subrange(a.len() as int, (a.len() + b.len()) as int) == b,
        (a + b + c).take(a.len() as int) == a,
        (a + b + c).skip((a.len() + b.len()) as int) == c,
{
    assert((a + b + c).subrange(a.len() as int, (a.len() + b.len()) as int) =~= b);
    assert((a + b + c).take(a.len() as int) =~= a);
    assert((a + b + c).skip((a.len() + b.len()) as int) =~= c);
}

proof fn lemma_freshness_places(f: FrameView)
    ensures
        ({
            let m = f.freshness_bytes();
            &&& m.len() == 26
            &&& m.take(8) == TAG_FRAME@
            &&& m[8] == f.kind
            &&& m[9] == f.grade
            &&& m.subrange(10, 18) == be64(f.session)
            &&& m.subrange(18, 26) == be64(f.counter)
        }),
{
    let m = f.freshness_bytes();
    assert(m.take(8) =~= TAG_FRAME@);
    assert(m.subrange(10, 18) =~= be64(f.session));
    assert(m.subrange(18, 26) =~= be64(f.counter));
}

proof fn lemma_route_places(f: FrameView)
    ensures
        ({
            let m = f.route_bytes();
            &&& m.len() == 22
            &&& m.subrange(0, 4) == be32(f.sender_id)
            &&& m.subrange(4, 8) == be32(f.receiver_id)
            &&& m.subrange(8, 12) == be32(f.dest_final)
            &&& m.subrange(12, 14) == be16(f.key_size_bits)
            &&& m.subrange(14, 18) == be32(f.epoch_id)
            &&& m.subrange(18, 22) == be32(f.key_ids.len() as u32)
        }),
{
    let m = f.route_bytes();
    assert(m.subrange(0, 4) =~= be32(f.sender_id));
    assert(m.subrange(4, 8) =~= be32(f.receiver_id));
    assert(m.subrange(8, 12) =~= be32(f.dest_final));
    assert(m.subrange(12, 14) =~= be16(f.key_size_bits));
    assert(m.subrange(14, 18) =~= be32(f.epoch_id));
    assert(m.subrange(18, 22) =~= be32(f.key_ids.len() as u32));
}

/// Where the fields of a frame stand in what is authenticated: behind the tag come the
/// kind, the grade, the session and the counter, then who sends, who receives and whom
/// it is for, the size of the keys, the epoch, and how many keys there are.
pub proof fn authenticated_fields_have_their_places(f: FrameView)
    ensures
        ({
            let m = f.message();
            &&& m.len() >= 48
            &&& m.take(26).take(8) == TAG_FRAME@
            &&& m.take(26)[8] == f.kind
            &&& m.take(26)[9] == f.grade
            &&& m.take(26).subrange(10, 18) == be64(f.session)
            &&& m.take(26).subrange(18, 26) == be64(f.counter)
            &&& m.subrange(26, 48).subrange(0, 4) == be32(f.sender_id)
            &&& m.subrange(26, 48).subrange(4, 8) == be32(f.receiver_id)
            &&& m.subrange(26, 48).subrange(8, 12) == be32(f.dest_final)
            &&& m.subrange(26, 48).subrange(12, 14) == be16(f.key_size_bits)
            &&& m.subrange(26, 48).subrange(14, 18) == be32(f.epoch_id)
            &&& m.subrange(26, 48).subrange(18, 22) == be32(f.key_ids.len() as u32)
        }),
{
    let a = f.freshness_bytes();
    let b = f.route_bytes();
    let c = f.content_bytes();
    lemma_freshness_places(f);
    lemma_route_places(f);
    assert(f.message() =~= a + b + c);
    lemma_joined_parts(a, b, c);
}

/// Key ids are authenticated in their order, each behind its length.
pub proof fn key_ids_are_authenticated_in_order(a: Seq<Seq<char>>, b: Seq<Seq<char>>, id: Seq<char>)
    ensures
        key_id_fields(a + b) == key_id_fields(a) + key_id_fields(b),
        key_id_fields(seq![id]) == be16(encode_utf8(id).len() as u16) + encode_utf8(id),
    decreases b.len(),
{
    if b.len() == 0 {
        assert(a + b =~= a);
        assert(key_id_fields(a) + key_id_fields(b) =~= key_id_fields(a));
    } else {
        assert((a + b).drop_last() =~= a + b.drop_last());
        key_ids_are_authenticated_in_order(a, b.drop_last(), id);
        assert(key_id_fields(a + b) =~= key_id_fields(a) + key_id_fields(b));
    }
    let one = seq![id];
    assert(one.drop_last() =~= Seq::empty());
    reveal_with_fuel(key_id_fields, 2);
    assert(key_id_fields(one) =~= lp16(encode_utf8(id)));
}

} // verus!
