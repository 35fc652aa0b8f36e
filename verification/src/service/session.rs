//! Session keys and the one-time pad that they travel under.
use crate::crypto::otp::{xor_undoes_itself, xored};
use crate::crypto::primitives::random_bytes;
use crate::ids::KeyId;
use crate::text::{decimal, decimal_text, join3};
use crate::unique::{random_uuid, random_shaped};
use vstd::prelude::*;
use vstd::string::*;

verus! {

/// Least length of a transport key that session keys are sent under.
pub const TRANSPORT_KEY_BYTES: usize = 32;

/// A key that two applications are to share.
#[derive(Debug)]
pub struct SessionKey {
    pub id: KeyId,
    pub bytes: Vec<u8>,
}

#[verifier::ext_equal]
pub struct SessionView {
    pub id: Seq<char>,
    pub bytes: Seq<u8>,
}

impl View for SessionKey {
    type V = SessionView;

    open spec fn view(&self) -> SessionView {
        SessionView { id: self.id@, bytes: self.bytes@ }
    }
}

pub open spec fn session_views(v: Seq<SessionKey>) -> Seq<SessionView> {
    v.map_values(|k: SessionKey| k@)
}

/// `n` new session keys of `size_bytes` random bytes each.
pub fn generate_session_keys(n: u32, size_bytes: usize) -> (r: Vec<SessionKey>)
    requires
        size_bytes <= isize::MAX,
    ensures
        r@.len() == n,
        forall|i: int|
            0 <= i < r@.len() ==> random_shaped((#[trigger] r@[i]).id@) && r@[i].bytes@.len()
                == size_bytes,
{
    let mut out: Vec<SessionKey> = Vec::new();
    let mut i: u32 = 0;
    while i < n
        invariant
            size_bytes <= isize::MAX,
            i <= n,
            out@.len() == i,
            forall|j: int|
                0 <= j < i ==> random_shaped((#[trigger] out@[j]).id@) && out@[j].bytes@.len()
                    == size_bytes,
        decreases n - i,
    {
        let bytes = random_bytes(size_bytes);
        let id = random_uuid();
        out.push(SessionKey { id: KeyId::new(id.as_str()), bytes });
        i = i + 1;
    }
    out
}

/// Why a transport key cannot cover some bytes.
pub open spec fn too_short(transport: nat, what: Seq<char>, len: nat) -> Seq<char> {
    "transport key too short for OTP ("@ + decimal(transport) + " bytes, "@ + what + " "@ + decimal(
        len,
    ) + " bytes)"@
}

fn too_short_text(transport: usize, what: &str, len: usize) -> (r: String)
    ensures
        r@ == too_short(transport as nat, what@, len as nat),
{
    let head = join3(
        "transport key too short for OTP (",
        decimal_text(transport as u64).as_str(),
        " bytes, ",
    );
    let mid = join3(head.as_str(), what, " ");
    join3(mid.as_str(), decimal_text(len as u64).as_str(), " bytes)")
}

/// `data` with the first bytes of `key` laid over it.
fn cover(data: &[u8], key: &[u8]) -> (r: Vec<u8>)
    requires
        data@.len() <= key@.len(),
    ensures
        r@ == xored(data@, key@),
{
    let n: usize = data.len();
    let mut out: Vec<u8> = Vec::new();
    let mut i: usize = 0;
    while i < n
        invariant
            n == data@.len(),
            n <= key@.len(),
            i <= n,
            out@.len() == i,
            forall|j: int| 0 <= j < i ==> out@[j] == data@[j] ^ key@[j],
        decreases n - i,
    {
        out.push(data[i] ^ key[i]);
        i = i + 1;
    }
    assert(out@ =~= xored(data@, key@));
    out
}

/// Encrypts a session key with the first bytes of a transport key, which is then
/// used up.
pub fn wrap_session_key(transport: &[u8], k: &[u8]) -> (r: Result<Vec<u8>, String>)
    ensures
        match r {
            Ok(wire) => transport@.len() >= k@.len() && wire@ == xored(k@, transport@),
            Err(m) => transport@.len() < k@.len() && m@ == too_short(
                transport@.len(),
                "session key"@,
                k@.len(),
            ),
        },
{
    if transport.len() < k.len() {
        return Err(too_short_text(transport.len(), "session key", k.len()));
    }
    Ok(cover(k, transport))
}

pub fn unwrap_session_key(transport: &[u8], wire: &[u8]) -> (r: Result<Vec<u8>, String>)
    ensures
        match r {
            Ok(k) => transport@.len() >= wire@.len() && k@ == xored(wire@, transport@),
            Err(m) => transport@.len() < wire@.len() && m@ == too_short(
                transport@.len(),
                "ciphertext"@,
                wire@.len(),
            ),
        },
{
    if transport.len() < wire.len() {
        return Err(too_short_text(transport.len(), "ciphertext", wire.len()));
    }
    Ok(cover(wire, transport))
}

/// A session key that was encrypted comes out as it was under the same transport
/// key.
pub proof fn unwrapping_undoes_wrapping(transport: Seq<u8>, k: Seq<u8>)
    requires
        k.len() <= transport.len(),
    ensures
        xored(xored(k, transport), transport) == k,
        xored(k, transport).len() == k.len(),
{
    xor_undoes_itself(k, transport);
}

/// Under a transport key that differs within the length of the session key,
/// another session key comes out.
pub proof fn diverged_transport_key_shows(a: Seq<u8>, b: Seq<u8>, k: Seq<u8>, i: int)
    requires
        k.len() <= a.len(),
        k.len() <= b.len(),
        0 <= i < k.len(),
        a[i] != b[i],
    ensures
        xored(xored(k, a), b) != k,
{
    let x = k[i];
    let p = a[i];
    let q = b[i];
    assert(p != q ==> (x ^ p) ^ q != x) by (bit_vector);
    assert(xored(xored(k, a), b)[i] != k[i]);
}

} // verus!
