//! Requests to other nodes: where they go and what an answer means.
use crate::error::DkmsError;
use crate::http::{pem_blocks, split_ca_bundle};
use crate::text::{join2, trim_end_matches, without_end};
use crate::unique::{canonical_uuid, uuid_canonical};
use vstd::prelude::*;
use vstd::string::*;

verus! {

/// Where session keys are handed over.
pub const EXT_KEYS_PATH: &'static str = "/kmapi/v1/ext_keys";

/// Where keys are acknowledged.
pub const EXT_KEYS_ACK_PATH: &'static str = "/kmapi/v1/ext_keys/ack";

/// A path below the address of a peer, which may end in slashes.
pub fn peer_url(endpoint: &str, path: &str) -> (r: String)
    ensures
        r@ == without_end(endpoint@, '/') + path@,
{
    join2(trim_end_matches(endpoint, '/').as_str(), path)
}

/// What came back from a peer.
#[derive(Debug)]
pub enum PeerReply {
    /// The request did not get through.
    Failed(String),
    /// An answer with its status and its text.
    Answered { status: u16, body: String },
    /// The peer did not answer in time.
    TimedOut,
}

/// Whether a status says that the request was served.
pub open spec fn is_success(status: u16) -> bool {
    200 <= status < 300
}

/// The text of a peer's answer if it served the request, else why it did not.
pub fn accepted_reply(peer: &str, reply: PeerReply) -> (r: Result<String, DkmsError>)
    ensures
        match (reply, r) {
            (PeerReply::Failed(m), Err(DkmsError::PeerUnreachable { peer: p, source })) => p@ == peer@
                && source@ == m@,
            (PeerReply::TimedOut, Err(DkmsError::PeerAckTimeout { peer: p })) => p@ == peer@,
            (PeerReply::Answered { status, body }, Ok(t)) => is_success(status) && t@ == body@,
            (
                PeerReply::Answered { status, body },
                Err(DkmsError::PeerRejected { peer: p, status: s, body: b }),
            ) => !is_success(status) && p@ == peer@ && s == status && b@ == body@,
            _ => false,
        },
{
    match reply {
        PeerReply::Failed(m) => Err(
            DkmsError::PeerUnreachable { peer: peer.to_owned(), source: m },
        ),
        PeerReply::TimedOut => Err(DkmsError::PeerAckTimeout { peer: peer.to_owned() }),
        PeerReply::Answered { status, body } => if 200 <= status && status < 300 {
            Ok(body)
        } else {
            Err(DkmsError::PeerRejected { peer: peer.to_owned(), status, body })
        },
    }
}

/// The failure of a peer that served a request but whose acknowledgement cannot be
/// read.
pub fn unreadable_ack(peer: &str, status: u16, why: &str) -> (r: DkmsError)
    ensures
        r matches DkmsError::PeerRejected { peer: p, status: s, body } && p@ == peer@ && s == status
            && body@ == "ack parse: "@ + why@,
{
    DkmsError::PeerRejected { peer: peer.to_owned(), status, body: join2("ack parse: ", why) }
}

/// The names of a list that are universally unique identifiers, in their usual
/// form.
pub open spec fn canonical_ids(ids: Seq<Seq<char>>) -> Seq<Seq<char>>
    decreases ids.len(),
{
    if ids.len() == 0 {
        Seq::empty()
    } else {
        match uuid_canonical(ids.last()) {
            Some(c) => canonical_ids(ids.drop_last()).push(c),
            None => canonical_ids(ids.drop_last()),
        }
    }
}

/// The keys that an acknowledgement names: other names than identifiers are left
/// out.
pub fn ack_key_ids(ids: &Vec<String>) -> (r: Vec<String>)
    ensures
        r@.map_values(|s: String| s@) == canonical_ids(ids@.map_values(|s: String| s@)),
{
    let ghost texts = ids@.map_values(|s: String| s@);
    let mut out: Vec<String> = Vec::new();
    let n: usize = ids.len();
    let mut i: usize = 0;
    assert(out@.map_values(|s: String| s@) =~= Seq::<Seq<char>>::empty());
    while i < n
        invariant
            n == ids@.len(),
            i <= n,
            texts == ids@.map_values(|s: String| s@),
            out@.map_values(|s: String| s@) == canonical_ids(texts.take(i as int)),
        decreases n - i,
    {
        let ghost prior = out@.map_values(|s: String| s@);
        assert(texts.take(i + 1).drop_last() =~= texts.take(i as int));
        assert(texts.take(i + 1).last() == ids@[i as int]@);
        match canonical_uuid(ids[i].as_str()) {
            Some(c) => {
                out.push(c);
                assert(out@.map_values(|s: String| s@) =~= prior.push(c@));
            },
            None => {},
        }
        i = i + 1;
    }
    assert(texts.take(n as int) =~= texts);
    out
}

/// The certificates that peers are verified with, one PEM text for each. A file
/// without any is refused.
pub fn parse_ca_bundle(pem: &str) -> (r: Result<Vec<String>, DkmsError>)
    ensures
        match r {
            Ok(v) => v@.len() > 0 && v@.map_values(|b: String| b@) == pem_blocks(
                pem@,
                0,
                Seq::empty(),
            ),
            Err(e) => pem_blocks(pem@, 0, Seq::empty()).len() == 0 && (e matches DkmsError::Crypto(m)
                && m@ == "peer_ca file has no BEGIN CERTIFICATE blocks"@),
        },
{
    let blocks = split_ca_bundle(pem);
    assert(blocks@.map_values(|b: String| b@).len() == blocks@.len());
    if blocks.len() == 0 {
        Err(DkmsError::Crypto("peer_ca file has no BEGIN CERTIFICATE blocks".to_owned()))
    } else {
        Ok(blocks)
    }
}

/// Every identifier that is one is handed on in its usual form, in the order of the
/// list, and nothing else is.
pub proof fn identifiers_are_handed_on_in_order(a: Seq<Seq<char>>, b: Seq<Seq<char>>, id: Seq<char>)
    ensures
        canonical_ids(a + b) == canonical_ids(a) + canonical_ids(b),
        uuid_canonical(id) matches Some(c) ==> canonical_ids(seq![id]) == seq![c],
        uuid_canonical(id) is None ==> canonical_ids(seq![id]) == Seq::<Seq<char>>::empty(),
    decreases b.len(),
{
    if b.len() == 0 {
        assert(a + b =~= a);
        assert(canonical_ids(a) + canonical_ids(b) =~= canonical_ids(a));
    } else {
        assert((a + b).drop_last() =~= a + b.drop_last());
        identifiers_are_handed_on_in_order(a, b.drop_last(), id);
        assert(canonical_ids(a + b) =~= canonical_ids(a) + canonical_ids(b));
    }
    let one = seq![id];
    assert(one.drop_last() =~= Seq::empty());
    reveal_with_fuel(canonical_ids, 2);
    assert(uuid_canonical(id) matches Some(c) ==> canonical_ids(one) =~= seq![c]);
}

/// A request was served exactly if the status is one of the two hundreds.
pub proof fn two_hundreds_are_success(status: u16)
    ensures
        is_success(status) <==> status / 100 == 2,
{
}

} // verus!
