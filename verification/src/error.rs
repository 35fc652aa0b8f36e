//! What can go wrong, in words and as a status.
use crate::config::ConfigError;
use crate::ids::SaeId;
use crate::text::{decimal, decimal_text, join2, join3};
use vstd::prelude::*;
use vstd::string::*;

verus! {

/// Failures of the service. Where another layer failed, the text is what that
/// layer said.
#[derive(Debug)]
pub enum DkmsError {
    Unauthenticated,
    Forbidden(SaeId, SaeId),
    UnknownSae(SaeId),
    RateLimited { sae: SaeId, requested: u64, available: u64 },
    BadRequest(String),
    KeyNotAuthorized { sae: SaeId },
    KeyExpired,
    PeerUnreachable { peer: String, source: String },
    PeerRejected { peer: String, status: u16, body: String },
    PeerAckTimeout { peer: String },
    PeerOrrMisconfig { peer: String, missing: String },
    OrrSendFailed { peer: String, source: String },
    TransportBufferEmpty { peer: String },
    TransportKeyMissing { peer: String, key_id: String },
    SdnUnreachable(String),
    QkcUnreachable(String),
    SaeBindingLookupFailed(SaeId),
    Tls(String),
    Crypto(String),
    Io(String),
    Common(CommonError),
    Other(String),
}

/// A failure with its texts as they read.
pub enum ErrorView {
    Unauthenticated,
    Forbidden(Seq<char>, Seq<char>),
    UnknownSae(Seq<char>),
    RateLimited { sae: Seq<char>, requested: u64, available: u64 },
    BadRequest(Seq<char>),
    KeyNotAuthorized { sae: Seq<char> },
    KeyExpired,
    PeerUnreachable { peer: Seq<char>, source: Seq<char> },
    PeerRejected { peer: Seq<char>, status: u16, body: Seq<char> },
    PeerAckTimeout { peer: Seq<char> },
    PeerOrrMisconfig { peer: Seq<char>, missing: Seq<char> },
    OrrSendFailed { peer: Seq<char>, source: Seq<char> },
    TransportBufferEmpty { peer: Seq<char> },
    TransportKeyMissing { peer: Seq<char>, key_id: Seq<char> },
    SdnUnreachable(Seq<char>),
    QkcUnreachable(Seq<char>),
    SaeBindingLookupFailed(Seq<char>),
    Tls(Seq<char>),
    Crypto(Seq<char>),
    Io(Seq<char>),
    Common(Seq<char>),
    Other(Seq<char>),
}

impl View for DkmsError {
    type V = ErrorView;

    open spec fn view(&self) -> ErrorView {
        match *self {
            DkmsError::Unauthenticated => ErrorView::Unauthenticated,
            DkmsError::Forbidden(a, b) => ErrorView::Forbidden(a@, b@),
            DkmsError::UnknownSae(s) => ErrorView::UnknownSae(s@),
            DkmsError::RateLimited { sae, requested, available } => ErrorView::RateLimited {
                sae: sae@,
                requested,
                available,
            },
            DkmsError::BadRequest(m) => ErrorView::BadRequest(m@),
            DkmsError::KeyNotAuthorized { sae } => ErrorView::KeyNotAuthorized { sae: sae@ },
            DkmsError::KeyExpired => ErrorView::KeyExpired,
            DkmsError::PeerUnreachable { peer, source } => ErrorView::PeerUnreachable {
                peer: peer@,
                source: source@,
            },
            DkmsError::PeerRejected { peer, status, body } => ErrorView::PeerRejected {
                peer: peer@,
                status,
                body: body@,
            },
            DkmsError::PeerAckTimeout { peer } => ErrorView::PeerAckTimeout { peer: peer@ },
            DkmsError::PeerOrrMisconfig { peer, missing } => ErrorView::PeerOrrMisconfig {
                peer: peer@,
                missing: missing@,
            },
            DkmsError::OrrSendFailed { peer, source } => ErrorView::OrrSendFailed {
                peer: peer@,
                source: source@,
            },
            DkmsError::TransportBufferEmpty { peer } => ErrorView::TransportBufferEmpty {
                peer: peer@,
            },
            DkmsError::TransportKeyMissing { peer, key_id } => ErrorView::TransportKeyMissing {
                peer: peer@,
                key_id: key_id@,
            },
            DkmsError::SdnUnreachable(m) => ErrorView::SdnUnreachable(m@),
            DkmsError::QkcUnreachable(m) => ErrorView::QkcUnreachable(m@),
            DkmsError::SaeBindingLookupFailed(s) => ErrorView::SaeBindingLookupFailed(s@),
            DkmsError::Tls(m) => ErrorView::Tls(m@),
            DkmsError::Crypto(m) => ErrorView::Crypto(m@),
            DkmsError::Io(m) => ErrorView::Io(m@),
            DkmsError::Common(e) => ErrorView::Common(e.text_spec()),
            DkmsError::Other(m) => ErrorView::Other(m@),
        }
    }
}

impl DkmsError {
    pub open spec fn text_spec(self) -> Seq<char> {
        match self {
            DkmsError::Unauthenticated => "unauthenticated: missing or invalid client certificate"@,
            DkmsError::Forbidden(a, b) => "forbidden: sae "@ + a@ + " cannot act on behalf of "@
                + b@,
            DkmsError::UnknownSae(s) => "unknown sae: "@ + s@,
            DkmsError::RateLimited { sae, requested, available } => "rate-limited: sae "@ + sae@
                + " requested "@ + decimal(requested as nat) + " tokens, "@ + decimal(
                available as nat,
            ) + " available"@,
            DkmsError::BadRequest(m) => "invalid request: "@ + m@,
            DkmsError::KeyNotAuthorized { sae } => "key not found or not authorized for sae "@
                + sae@,
            DkmsError::KeyExpired => "key expired"@,
            DkmsError::PeerUnreachable { peer, source } => "peer dkms "@ + peer@
                + " unreachable: "@ + source@,
            DkmsError::PeerRejected { peer, status, body } => "peer dkms "@ + peer@
                + " rejected: HTTP "@ + decimal(status as nat) + " \u{2014} "@ + body@,
            DkmsError::PeerAckTimeout { peer } => "peer dkms "@ + peer@
                + " did not ack within timeout"@,
            DkmsError::PeerOrrMisconfig { peer, missing } => "peer dkms "@ + peer@
                + ": orr transport configured but "@ + missing@,
            DkmsError::OrrSendFailed { peer, source } => "peer dkms "@ + peer@
                + ": orr send_message failed: "@ + source@,
            DkmsError::TransportBufferEmpty { peer } => "transport buffer empty for peer "@ + peer@,
            DkmsError::TransportKeyMissing { peer, key_id } => "transport key "@ + key_id@
                + " not in buffer_dec["@ + peer@ + "]"@,
            DkmsError::SdnUnreachable(m) => "sdn unreachable: "@ + m@,
            DkmsError::QkcUnreachable(m) => "qkc unreachable: "@ + m@,
            DkmsError::SaeBindingLookupFailed(s) => "sae binding lookup failed for "@ + s@,
            DkmsError::Tls(m) => m@,
            DkmsError::Crypto(m) => "crypto: "@ + m@,
            DkmsError::Io(m) => "io: "@ + m@,
            DkmsError::Common(e) => e.text_spec(),
            DkmsError::Other(m) => m@,
        }
    }

    /// The failure in words.
    pub fn text(&self) -> (r: String)
        ensures
            r@ == self.text_spec(),
    {
        match self {
            DkmsError::Unauthenticated => "unauthenticated: missing or invalid client certificate".to_owned(),
            DkmsError::Forbidden(a, b) => join2(
                join3("forbidden: sae ", a.as_str(), " cannot act on behalf of ").as_str(),
                b.as_str(),
            ),
            DkmsError::UnknownSae(s) => join2("unknown sae: ", s.as_str()),
            DkmsError::RateLimited { sae, requested, available } => join3(
                join3(
                    join3("rate-limited: sae ", sae.as_str(), " requested ").as_str(),
                    decimal_text(*requested).as_str(),
                    " tokens, ",
                ).as_str(),
                decimal_text(*available).as_str(),
                " available",
            ),
            DkmsError::BadRequest(m) => join2("invalid request: ", m.as_str()),
            DkmsError::KeyNotAuthorized { sae } => join2(
                "key not found or not authorized for sae ",
                sae.as_str(),
            ),
            DkmsError::KeyExpired => "key expired".to_owned(),
            DkmsError::PeerUnreachable { peer, source } => join2(
                join3("peer dkms ", peer.as_str(), " unreachable: ").as_str(),
                source.as_str(),
            ),
            DkmsError::PeerRejected { peer, status, body } => join2(
                join3(
                    join3("peer dkms ", peer.as_str(), " rejected: HTTP ").as_str(),
                    decimal_text(*status as u64).as_str(),
                    " \u{2014} ",
                ).as_str(),
                body.as_str(),
            ),
            DkmsError::PeerAckTimeout { peer } => join3(
                "peer dkms ",
                peer.as_str(),
                " did not ack within timeout",
            ),
            DkmsError::PeerOrrMisconfig { peer, missing } => join2(
                join3("peer dkms ", peer.as_str(), ": orr transport configured but ").as_str(),
                missing.as_str(),
            ),
            DkmsError::OrrSendFailed { peer, source } => join2(
                join3("peer dkms ", peer.as_str(), ": orr send_message failed: ").as_str(),
                source.as_str(),
            ),
            DkmsError::TransportBufferEmpty { peer } => join2(
                "transport buffer empty for peer ",
                peer.as_str(),
            ),
            DkmsError::TransportKeyMissing { peer, key_id } => join3(
                join3("transport key ", key_id.as_str(), " not in buffer_dec[").as_str(),
                peer.as_str(),
                "]",
            ),
            DkmsError::SdnUnreachable(m) => join2("sdn unreachable: ", m.as_str()),
            DkmsError::QkcUnreachable(m) => join2("qkc unreachable: ", m.as_str()),
            DkmsError::SaeBindingLookupFailed(s) => join2(
                "sae binding lookup failed for ",
                s.as_str(),
            ),
            DkmsError::Tls(m) => m.as_str().to_owned(),
            DkmsError::Crypto(m) => join2("crypto: ", m.as_str()),
            DkmsError::Io(m) => join2("io: ", m.as_str()),
            DkmsError::Common(e) => e.text(),
            DkmsError::Other(m) => m.as_str().to_owned(),
        }
    }

    /// Whether the failure is this node's own.
    pub open spec fn is_internal(self) -> bool {
        self is Tls || self is Crypto || self is Io || self is Common || self is Other
    }

    /// The HTTP status that a failure is answered with.
    pub open spec fn http_status(self) -> u16 {
        match self {
            DkmsError::Unauthenticated => 401,
            DkmsError::Forbidden(..) => 403,
            DkmsError::UnknownSae(_) => 404,
            DkmsError::BadRequest(_) => 400,
            DkmsError::RateLimited { .. } => 429,
            DkmsError::KeyNotAuthorized { .. } => 404,
            DkmsError::KeyExpired => 404,
            DkmsError::TransportBufferEmpty { .. } => 503,
            DkmsError::TransportKeyMissing { .. } => 503,
            DkmsError::PeerUnreachable { .. } => 502,
            DkmsError::PeerRejected { .. } => 502,
            DkmsError::PeerAckTimeout { .. } => 502,
            DkmsError::PeerOrrMisconfig { .. } => 502,
            DkmsError::OrrSendFailed { .. } => 502,
            DkmsError::SdnUnreachable(_) => 502,
            DkmsError::QkcUnreachable(_) => 502,
            DkmsError::SaeBindingLookupFailed(_) => 404,
            DkmsError::Tls(_) => 500,
            DkmsError::Crypto(_) => 500,
            DkmsError::Io(_) => 500,
            DkmsError::Common(_) => 500,
            DkmsError::Other(_) => 500,
        }
    }

    /// What a requester is told. A key that is not there, one that has expired and
    /// one that is not the requester's get the same answer, and failures of this
    /// node are not laid open.
    pub open spec fn http_message(self) -> Seq<char> {
        if self is KeyNotAuthorized || self is KeyExpired {
            "key not found"@
        } else if self.is_internal() {
            "internal error"@
        } else {
            self.text_spec()
        }
    }
}

/// The answer to a request that failed: its status and what the requester is told.
pub fn error_to_response(err: &DkmsError) -> (r: (u16, String))
    ensures
        r.0 == err.http_status(),
        r.1@ == err.http_message(),
{
    match err {
        DkmsError::Unauthenticated => (401, err.text()),
        DkmsError::Forbidden(..) => (403, err.text()),
        DkmsError::UnknownSae(_) => (404, err.text()),
        DkmsError::BadRequest(_) => (400, err.text()),
        DkmsError::RateLimited { .. } => (429, err.text()),
        DkmsError::KeyNotAuthorized { .. } | DkmsError::KeyExpired => (
            404,
            "key not found".to_owned(),
        ),
        DkmsError::TransportBufferEmpty { .. } | DkmsError::TransportKeyMissing { .. } => (
            503,
            err.text(),
        ),
        DkmsError::PeerUnreachable { .. }
        | DkmsError::PeerRejected { .. }
        | DkmsError::PeerAckTimeout { .. }
        | DkmsError::PeerOrrMisconfig { .. }
        | DkmsError::OrrSendFailed { .. }
        | DkmsError::SdnUnreachable(_)
        | DkmsError::QkcUnreachable(_) => (502, err.text()),
        DkmsError::SaeBindingLookupFailed(_) => (404, err.text()),
        DkmsError::Tls(_)
        | DkmsError::Crypto(_)
        | DkmsError::Io(_)
        | DkmsError::Common(_)
        | DkmsError::Other(_) => (500, "internal error".to_owned()),
    }
}

/// The answer does not tell a requester whether a key is missing, has expired or
/// belongs to others.
pub proof fn answers_do_not_tell_keys_apart(a: DkmsError, b: DkmsError)
    requires
        a is KeyNotAuthorized || a is KeyExpired,
        b is KeyNotAuthorized || b is KeyExpired,
    ensures
        a.http_status() == b.http_status(),
        a.http_message() == b.http_message(),
{
}

/// Codes of a remote procedure call that failed.
#[derive(Debug, Clone, Copy, PartialEq, Eq, Structural)]
pub enum RpcCode {
    InvalidArgument,
    NotFound,
    Unavailable,
    Internal,
    /// Any other code, by its number.
    Numbered(u32),
}

/// Failures that cross from one part of the system to another.
#[derive(Debug)]
pub enum CommonError {
    Config(ConfigError),
    Io(String),
    Transport(String),
    /// The status of a call that failed, with how it prints.
    Status { code: RpcCode, message: String, printed: String },
    Tls(String),
    InvalidArg(String),
    NotFound(String),
    Unavailable(String),
    Other(String),
}

impl CommonError {
    pub fn invalid_arg(msg: &str) -> (r: Self)
        ensures
            r matches CommonError::InvalidArg(m) && m@ == msg@,
    {
        CommonError::InvalidArg(msg.to_owned())
    }

    pub fn not_found(msg: &str) -> (r: Self)
        ensures
            r matches CommonError::NotFound(m) && m@ == msg@,
    {
        CommonError::NotFound(msg.to_owned())
    }

    pub fn unavailable(msg: &str) -> (r: Self)
        ensures
            r matches CommonError::Unavailable(m) && m@ == msg@,
    {
        CommonError::Unavailable(msg.to_owned())
    }

    pub open spec fn text_spec(self) -> Seq<char> {
        match self {
            CommonError::Config(e) => "config error: "@ + e.text_spec(),
            CommonError::Io(m) => "io error: "@ + m@,
            CommonError::Transport(m) => "tonic transport error: "@ + m@,
            CommonError::Status { printed, .. } => "tonic status: "@ + printed@,
            CommonError::Tls(m) => "tls error: "@ + m@,
            CommonError::InvalidArg(m) => "invalid argument: "@ + m@,
            CommonError::NotFound(m) => "not found: "@ + m@,
            CommonError::Unavailable(m) => "unavailable: "@ + m@,
            CommonError::Other(m) => m@,
        }
    }

    /// The failure in words.
    pub fn text(&self) -> (r: String)
        ensures
            r@ == self.text_spec(),
    {
        match self {
            CommonError::Config(e) => join2("config error: ", e.text().as_str()),
            CommonError::Io(m) => join2("io error: ", m.as_str()),
            CommonError::Transport(m) => join2("tonic transport error: ", m.as_str()),
            CommonError::Status { printed, .. } => join2("tonic status: ", printed.as_str()),
            CommonError::Tls(m) => join2("tls error: ", m.as_str()),
            CommonError::InvalidArg(m) => join2("invalid argument: ", m.as_str()),
            CommonError::NotFound(m) => join2("not found: ", m.as_str()),
            CommonError::Unavailable(m) => join2("unavailable: ", m.as_str()),
            CommonError::Other(m) => m.as_str().to_owned(),
        }
    }

    pub open spec fn rpc_code(self) -> RpcCode {
        match self {
            CommonError::InvalidArg(_) => RpcCode::InvalidArgument,
            CommonError::NotFound(_) => RpcCode::NotFound,
            CommonError::Unavailable(_) => RpcCode::Unavailable,
            CommonError::Status { code, .. } => code,
            _ => RpcCode::Internal,
        }
    }

    pub open spec fn rpc_message(self) -> Seq<char> {
        match self {
            CommonError::InvalidArg(m) => m@,
            CommonError::NotFound(m) => m@,
            CommonError::Unavailable(m) => m@,
            CommonError::Status { message, .. } => message@,
            _ => self.text_spec(),
        }
    }

    /// The failure as the status of a remote procedure call.
    pub fn rpc_status(&self) -> (r: (RpcCode, String))
        ensures
            r.0 == self.rpc_code(),
            r.1@ == self.rpc_message(),
    {
        match self {
            CommonError::InvalidArg(m) => (RpcCode::InvalidArgument, m.as_str().to_owned()),
            CommonError::NotFound(m) => (RpcCode::NotFound, m.as_str().to_owned()),
            CommonError::Unavailable(m) => (RpcCode::Unavailable, m.as_str().to_owned()),
            CommonError::Status { code, message, .. } => (*code, message.as_str().to_owned()),
            _ => (RpcCode::Internal, self.text()),
        }
    }
}

/// What the requester can mend is answered with a status of the four hundreds, a
/// failure of other nodes with 502, a want of transport keys with 503, and what is
/// this node's own with 500 and no word of what it is.
pub proof fn answers_say_whose_fault_it_is(e: DkmsError)
    ensures
        e.http_status() == 502 <==> e is PeerUnreachable || e is PeerRejected || e is PeerAckTimeout
            || e is PeerOrrMisconfig || e is OrrSendFailed || e is SdnUnreachable
            || e is QkcUnreachable,
        e.http_status() == 503 <==> e is TransportBufferEmpty || e is TransportKeyMissing,
        e.http_status() == 500 <==> e is Tls || e is Crypto || e is Io || e is Common || e is Other,
        e.http_status() == 500 ==> e.http_message() == "internal error"@,
        e.http_status() == 404 <==> e is UnknownSae || e is KeyNotAuthorized || e is KeyExpired
            || e is SaeBindingLookupFailed,
        e.http_status() == 429 <==> e is RateLimited,
        e.http_status() == 400 <==> e is BadRequest,
        e.http_status() == 401 <==> e is Unauthenticated,
        e.http_status() == 403 <==> e is Forbidden,
        e is BadRequest || e is RateLimited || e is PeerRejected ==> e.http_message()
            == e.text_spec(),
{
}

/// A requester is told in words what failed, unless the failure is this node's own or
/// would tell keys apart.
pub proof fn answers_say_what_failed(e: DkmsError)
    ensures
        e is KeyNotAuthorized || e is KeyExpired ==> e.http_message() == "key not found"@,
        e is Tls || e is Crypto || e is Io || e is Common || e is Other ==> e.http_message()
            == "internal error"@,
        !(e is KeyNotAuthorized || e is KeyExpired || e is Tls || e is Crypto || e is Io
            || e is Common || e is Other) ==> e.http_message() == e.text_spec(),
{
}

/// A remote caller is told the kind of a failure that it can act on, in the words that
/// the failure came with, and that all else is internal.
pub proof fn callers_are_told_the_kind(e: CommonError)
    ensures
        e matches CommonError::InvalidArg(m) ==> e.rpc_code() == RpcCode::InvalidArgument
            && e.rpc_message() == m@,
        e matches CommonError::NotFound(m) ==> e.rpc_code() == RpcCode::NotFound && e.rpc_message()
            == m@,
        e matches CommonError::Unavailable(m) ==> e.rpc_code() == RpcCode::Unavailable
            && e.rpc_message() == m@,
        e is Status ==> e.rpc_code() == e->Status_code && e.rpc_message() == e->Status_message@,
        !(e is InvalidArg || e is NotFound || e is Unavailable || e is Status) ==> e.rpc_code()
            == RpcCode::Internal && e.rpc_message() == e.text_spec(),
{
}

} // verus!
