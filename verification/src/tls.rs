//! What TLS is set up with.
use crate::pem::{certs_of_pem, der_views, key_of_pem, pem_certificates, pem_key, PemKey};
use crate::text::join2;
use vstd::prelude::*;
use vstd::string::*;

verus! {

#[derive(Debug, Clone, PartialEq, Eq)]
pub enum TlsError {
    Io(String),
    Rustls(String),
    NoKey(String),
    BadPem(String),
}

pub enum TlsErrorView {
    Io(Seq<char>),
    Rustls(Seq<char>),
    NoKey(Seq<char>),
    BadPem(Seq<char>),
}

impl View for TlsError {
    type V = TlsErrorView;

    open spec fn view(&self) -> TlsErrorView {
        match *self {
            TlsError::Io(m) => TlsErrorView::Io(m@),
            TlsError::Rustls(m) => TlsErrorView::Rustls(m@),
            TlsError::NoKey(m) => TlsErrorView::NoKey(m@),
            TlsError::BadPem(m) => TlsErrorView::BadPem(m@),
        }
    }
}

impl TlsErrorView {
    /// The error in words.
    pub open spec fn text(self) -> Seq<char> {
        match self {
            TlsErrorView::Io(m) => "io: "@ + m,
            TlsErrorView::Rustls(m) => "rustls: "@ + m,
            TlsErrorView::NoKey(m) => "no private key in "@ + m,
            TlsErrorView::BadPem(m) => "invalid pem in "@ + m,
        }
    }
}

impl TlsError {
    pub fn text(&self) -> (r: String)
        ensures
            r@ == self@.text(),
    {
        match self {
            TlsError::Io(m) => join2("io: ", m.as_str()),
            TlsError::Rustls(m) => join2("rustls: ", m.as_str()),
            TlsError::NoKey(m) => join2("no private key in ", m.as_str()),
            TlsError::BadPem(m) => join2("invalid pem in ", m.as_str()),
        }
    }
}

/// The certificates of a PEM file, whose content is `pem`. There may be none.
pub fn load_certs(pem: &[u8], path: &str) -> (r: Result<Vec<Vec<u8>>, TlsError>)
    ensures
        match (r, pem_certificates(pem@)) {
            (Ok(v), Ok(s)) => der_views(v@) == s,
            (Err(e), Err(_)) => e@ == TlsErrorView::BadPem(path@),
            _ => false,
        },
{
    match certs_of_pem(pem) {
        Ok(v) => Ok(v),
        Err(_) => Err(TlsError::BadPem(path.to_owned())),
    }
}

/// The private key of a PEM file, whose content is `pem`: the first that stands in
/// it. What cannot be read is told apart from a file without a key.
pub fn load_key(pem: &[u8], path: &str) -> (r: Result<PemKey, TlsError>)
    ensures
        match (r, pem_key(pem@)) {
            (Ok(k), Ok(v)) => k@ == v,
            (Err(e), Err(v)) => e@ == (if v.absent {
                TlsErrorView::NoKey(path@)
            } else {
                TlsErrorView::Io(v.text)
            }),
            _ => false,
        },
{
    match key_of_pem(pem) {
        Ok(k) => Ok(k),
        Err(e) => if e.absent {
            Err(TlsError::NoKey(path.to_owned()))
        } else {
            Err(TlsError::Io(e.text))
        },
    }
}

} // verus!
