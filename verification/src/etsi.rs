//! Requests and answers of the key delivery interfaces, as far as they are read.
use crate::text::{chars_of, text_eq, text_range, trim, trimmed};
use vstd::prelude::*;
use vstd::string::*;

verus! {

/// The value of an extension.
#[derive(Debug, Clone)]
pub enum ExtValue {
    Text(String),
    /// Anything but a text.
    Other,
}

/// Extensions by their names, each name once.
#[derive(Debug, Clone)]
pub struct Extensions {
    pub entries: Vec<(String, ExtValue)>,
}

/// What stands under a name.
pub open spec fn ext_value(entries: Seq<(String, ExtValue)>, name: Seq<char>) -> Option<ExtValue>
    decreases entries.len(),
{
    if entries.len() == 0 {
        None
    } else if entries[0].0@ == name {
        Some(entries[0].1)
    } else {
        ext_value(entries.drop_first(), name)
    }
}

impl Extensions {
    /// What stands under a name.
    pub fn value(&self, name: &str) -> (r: Option<&ExtValue>)
        ensures
            match r {
                Some(v) => ext_value(self.entries@, name@) == Some(*v),
                None => ext_value(self.entries@, name@) is None,
            },
    {
        let n: usize = self.entries.len();
        let mut i: usize = 0;
        assert(self.entries@.skip(0) =~= self.entries@);
        while i < n
            invariant
                n == self.entries@.len(),
                i <= n,
                ext_value(self.entries@, name@) == ext_value(self.entries@.skip(i as int), name@),
            decreases n - i,
        {
            assert(self.entries@.skip(i as int).drop_first() =~= self.entries@.skip(i + 1));
            let e = &self.entries[i];
            if text_eq(e.0.as_str(), name) {
                return Some(&e.1);
            }
            i = i + 1;
        }
        None
    }
}

/// What an application asks for.
#[derive(Debug, Clone)]
pub struct Etsi014KeyRequest {
    pub number: u32,
    /// Length of each key in bits.
    pub size: u32,
    pub additional_slave_sae_ids: Option<Vec<String>>,
    pub extension_mandatory: Option<Vec<Extensions>>,
    pub extension_optional: Option<Vec<Extensions>>,
}

impl Default for Etsi014KeyRequest {
    fn default() -> (r: Self)
        ensures
            r.number == 1,
            r.size == 256,
            r.additional_slave_sae_ids is None,
            r.extension_mandatory is None,
            r.extension_optional is None,
    {
        Etsi014KeyRequest {
            number: 1,
            size: 256,
            additional_slave_sae_ids: None,
            extension_mandatory: None,
            extension_optional: None,
        }
    }
}

/// The parameters with which keys are asked for in a URL.
#[derive(Debug)]
pub struct EncKeysQuery {
    pub number: Option<u32>,
    pub size: Option<u32>,
}

impl EncKeysQuery {
    /// The request that the parameters stand for.
    pub fn into_request(self) -> (r: Etsi014KeyRequest)
        ensures
            r.number == (match self.number {
                Some(n) => n,
                None => 1,
            }),
            r.size == (match self.size {
                Some(s) => s,
                None => 256,
            }),
            r.additional_slave_sae_ids is None,
            r.extension_mandatory is None,
            r.extension_optional is None,
    {
        let mut req = Etsi014KeyRequest::default();
        if let Some(n) = self.number {
            req.number = n;
        }
        if let Some(s) = self.size {
            req.size = s;
        }
        req
    }
}

/// The names in a list that commas separate: without white space round them, and
/// without empty ones. `current` is the part of the first that was already read.
pub open spec fn listed_names(s: Seq<char>, current: Seq<char>) -> Seq<Seq<char>>
    decreases s.len(),
{
    let done = if trim(current).len() > 0 {
        seq![trim(current)]
    } else {
        Seq::empty()
    };
    if s.len() == 0 {
        done
    } else if s[0] == ',' {
        done + listed_names(s.drop_first(), Seq::empty())
    } else {
        listed_names(s.drop_first(), current.push(s[0]))
    }
}

/// Adds a name to a list, unless it is empty.
fn push_name(out: &mut Vec<String>, name: &str)
    ensures
        final(out)@.map_values(|s: String| s@) == old(out)@.map_values(|s: String| s@) + (if trim(
            name@,
        ).len() > 0 {
            seq![trim(name@)]
        } else {
            Seq::empty()
        }),
{
    let ghost before = out@.map_values(|s: String| s@);
    let t = trimmed(name);
    if chars_of(t.as_str()).len() > 0 {
        out.push(t);
    }
    assert(out@.map_values(|s: String| s@) =~= before + (if trim(name@).len() > 0 {
        seq![trim(name@)]
    } else {
        Seq::empty()
    }));
}

/// Takes a list that commas separate apart.
pub fn split_names(list: &str) -> (r: Vec<String>)
    ensures
        r@.map_values(|s: String| s@) == listed_names(list@, Seq::empty()),
{
    let v = chars_of(list);
    let n: usize = v.len();
    let mut out: Vec<String> = Vec::new();
    let mut from: usize = 0;
    let mut i: usize = 0;
    let ghost all = listed_names(v@, Seq::empty());
    assert(v@.skip(0) =~= v@);
    assert(v@.subrange(0, 0) =~= Seq::<char>::empty());
    assert(out@.map_values(|s: String| s@) + all =~= all);
    while i < n
        invariant
            v@ == list@,
            n == v@.len(),
            from <= i <= n,
            all == listed_names(v@, Seq::empty()),
            out@.map_values(|s: String| s@) + listed_names(
                v@.skip(i as int),
                v@.subrange(from as int, i as int),
            ) == all,
        decreases n - i,
    {
        let ghost out0 = out@.map_values(|s: String| s@);
        let ghost cur = v@.subrange(from as int, i as int);
        assert(v@.skip(i as int)[0] == v@[i as int]);
        assert(v@.skip(i as int).drop_first() =~= v@.skip(i + 1));
        if v[i] == ',' {
            let name = text_range(&v, from, i);
            push_name(&mut out, name.as_str());
            from = i + 1;
            proof {
                let rest = listed_names(v@.skip(i + 1), Seq::empty());
                let done = if trim(cur).len() > 0 {
                    seq![trim(cur)]
                } else {
                    Seq::empty()
                };
                assert(v@.subrange(i + 1, i + 1) =~= Seq::<char>::empty());
                assert(out0 + (done + rest) =~= (out0 + done) + rest);
            }
        } else {
            assert(cur.push(v@[i as int]) =~= v@.subrange(from as int, i + 1));
        }
        i = i + 1;
    }
    let ghost out0 = out@.map_values(|s: String| s@);
    let name = text_range(&v, from, n);
    push_name(&mut out, name.as_str());
    assert(v@.skip(n as int) =~= Seq::<char>::empty());
    out
}

/// A key as it is handed to an application.
#[derive(Debug)]
pub struct Etsi014Key {
    pub key_id: String,
    pub key: Vec<u8>,
}

#[verifier::ext_equal]
pub struct DeliveredKey {
    pub key_id: Seq<char>,
    pub key: Seq<u8>,
}

impl View for Etsi014Key {
    type V = DeliveredKey;

    open spec fn view(&self) -> DeliveredKey {
        DeliveredKey { key_id: self.key_id@, key: self.key@ }
    }
}

pub open spec fn delivered(keys: Seq<Etsi014Key>) -> Seq<DeliveredKey> {
    keys.map_values(|k: Etsi014Key| k@)
}

/// What an application is told of its keys for another.
#[derive(Debug)]
pub struct Etsi014Status {
    pub source_kme_id: String,
    pub target_kme_id: String,
    pub master_sae_id: String,
    pub slave_sae_id: String,
    pub key_size: u32,
    pub stored_key_count: u64,
    pub max_key_count: u64,
    pub max_key_per_request: u32,
    pub max_key_size: u32,
    pub min_key_size: u32,
    pub max_sae_id_count: u32,
}

/// A session key on its way to another node, encrypted.
#[derive(Debug)]
pub struct Etsi020Key {
    pub key_id: String,
    pub value: Vec<u8>,
    /// The transport key that it is encrypted with.
    pub transport_key_id: Option<String>,
    /// The fingerprint of the session key.
    pub session_key_digest: Option<String>,
}

#[verifier::ext_equal]
pub struct WrappedKey {
    pub key_id: Seq<char>,
    pub value: Seq<u8>,
    pub transport_key_id: Option<Seq<char>>,
    pub session_key_digest: Option<Seq<char>>,
}

impl View for Etsi020Key {
    type V = WrappedKey;

    open spec fn view(&self) -> WrappedKey {
        WrappedKey {
            key_id: self.key_id@,
            value: self.value@,
            transport_key_id: crate::config::opt_text(self.transport_key_id),
            session_key_digest: crate::config::opt_text(self.session_key_digest),
        }
    }
}

pub open spec fn wrapped(keys: Seq<Etsi020Key>) -> Seq<WrappedKey> {
    keys.map_values(|k: Etsi020Key| k@)
}

/// Session keys on their way to another node.
#[derive(Debug)]
pub struct Etsi020ExtKeyContainer {
    pub keys: Vec<Etsi020Key>,
    pub initiator_sae_id: String,
    pub target_sae_ids: Vec<String>,
    pub ack_callback_url: String,
    /// How long the keys are kept.
    pub ttl_seconds: Option<u64>,
}

#[verifier::ext_equal]
pub struct ContainerView {
    pub keys: Seq<WrappedKey>,
    pub initiator_sae_id: Seq<char>,
    pub target_sae_ids: Seq<Seq<char>>,
    pub ack_callback_url: Seq<char>,
    pub ttl_seconds: Option<u64>,
}

impl View for Etsi020ExtKeyContainer {
    type V = ContainerView;

    open spec fn view(&self) -> ContainerView {
        ContainerView {
            keys: wrapped(self.keys@),
            initiator_sae_id: self.initiator_sae_id@,
            target_sae_ids: self.target_sae_ids@.map_values(|s: String| s@),
            ack_callback_url: self.ack_callback_url@,
            ttl_seconds: self.ttl_seconds,
        }
    }
}

/// What became of session keys that came from another node.
#[derive(Debug, Clone, Copy, PartialEq, Eq, Structural)]
pub enum Etsi020AckStatus {
    /// They are there for their applications.
    Relayed,
}

/// The answer to session keys that came from another node.
#[derive(Debug)]
pub struct Etsi020ExtKeyAckContainer {
    pub key_ids: Vec<String>,
    pub ack_status: Etsi020AckStatus,
    pub initiator_sae_id: String,
    pub target_sae_id: String,
}

proof fn lemma_listed(a: Seq<char>, b: Seq<char>, current: Seq<char>)
    ensures
        listed_names(a + seq![','] + b, current) == listed_names(a, current) + listed_names(
            b,
            Seq::empty(),
        ),
    decreases a.len(),
{
    let s = a + seq![','] + b;
    if a.len() == 0 {
        assert(s[0] == ',');
        assert(s.drop_first() =~= b);
    } else {
        assert(s[0] == a[0]);
        assert(s.drop_first() =~= a.drop_first() + seq![','] + b);
        if a[0] == ',' {
            lemma_listed(a.drop_first(), b, Seq::empty());
            let done = if trim(current).len() > 0 {
                seq![trim(current)]
            } else {
                Seq::empty()
            };
            assert(listed_names(s, current) =~= listed_names(a, current) + listed_names(
                b,
                Seq::empty(),
            ));
        } else {
            lemma_listed(a.drop_first(), b, current.push(a[0]));
        }
    }
}

proof fn lemma_one_name(s: Seq<char>, current: Seq<char>)
    requires
        forall|i: int| 0 <= i < s.len() ==> #[trigger] s[i] != ',',
    ensures
        listed_names(s, current) == (if trim(current + s).len() > 0 {
            seq![trim(current + s)]
        } else {
            Seq::empty()
        }),
    decreases s.len(),
{
    if s.len() == 0 {
        assert(current + s =~= current);
    } else {
        let rest = s.drop_first();
        assert forall|i: int| 0 <= i < rest.len() implies #[trigger] rest[i] != ',' by {
            assert(rest[i] == s[i + 1]);
        }
        lemma_one_name(rest, current.push(s[0]));
        assert(current.push(s[0]) + rest =~= current + s);
    }
}

/// A list names what stands between its commas, in that order and without white space
/// round it; where nothing stands, it names nobody.
pub proof fn names_stand_between_commas(a: Seq<char>, b: Seq<char>)
    requires
        forall|i: int| 0 <= i < a.len() ==> #[trigger] a[i] != ',',
    ensures
        trim(a).len() > 0 ==> listed_names(a, Seq::empty()) == seq![trim(a)],
        trim(a).len() == 0 ==> listed_names(a, Seq::empty()) == Seq::<Seq<char>>::empty(),
        listed_names(a + seq![','] + b, Seq::empty()) == listed_names(a, Seq::empty())
            + listed_names(b, Seq::empty()),
        listed_names(b + seq![','] + a, Seq::empty()) == listed_names(b, Seq::empty())
            + listed_names(a, Seq::empty()),
{
    assert(Seq::<char>::empty() + a =~= a);
    lemma_one_name(a, Seq::empty());
    lemma_listed(a, b, Seq::empty());
    lemma_listed(b, a, Seq::empty());
}

} // verus!
