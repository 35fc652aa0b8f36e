//! Decisions around HTTP clients: the scheme of a URL and bundles of PEM blocks.
use crate::text::{
    ascii_lower, chars_of, starts_with, text_range, text_starts_with, to_ascii_lower, trim_start,
    trimmed_start,
};
use vstd::prelude::*;
use vstd::string::*;

verus! {

/// Paths of the material that a TLS client presents and trusts.
#[derive(Clone, Debug)]
pub struct ClientTls<'a> {
    pub ca_path: &'a str,
    pub cert_path: &'a str,
    pub key_path: &'a str,
}

/// The TLS part of a control-plane client's configuration.
#[derive(Debug)]
pub struct ControlTlsCfg {
    pub cert_path: String,
    pub key_path: String,
    pub control_plane_ca: String,
}

impl ControlTlsCfg {
    pub fn as_client_tls(&self) -> (r: ClientTls<'_>)
        ensures
            r.ca_path@ == self.control_plane_ca@,
            r.cert_path@ == self.cert_path@,
            r.key_path@ == self.key_path@,
    {
        ClientTls {
            ca_path: self.control_plane_ca.as_str(),
            cert_path: self.cert_path.as_str(),
            key_path: self.key_path.as_str(),
        }
    }
}

/// Whether a URL asks for TLS: past leading white space it starts with
/// `https://`, in small or capital letters.
pub fn url_is_https(url: &str) -> (r: bool)
    ensures
        r == starts_with(ascii_lower(trim_start(url@)), "https://"@),
{
    let t = trimmed_start(url);
    let l = to_ascii_lower(t.as_str());
    text_starts_with(l.as_str(), "https://")
}

/// How a client for an announcer's URL is to be built.
#[derive(Debug, Clone, Copy, PartialEq, Eq, Structural)]
pub enum ClientKind {
    Plain,
    MutualTls,
    MissingMaterial,
}

/// A URL without TLS needs no material; one with TLS is refused without it.
pub fn client_kind(url: &str, has_material: bool) -> (r: ClientKind)
    ensures
        r == (if !starts_with(ascii_lower(trim_start(url@)), "https://"@) {
            ClientKind::Plain
        } else if has_material {
            ClientKind::MutualTls
        } else {
            ClientKind::MissingMaterial
        }),
{
    if !url_is_https(url) {
        ClientKind::Plain
    } else if has_material {
        ClientKind::MutualTls
    } else {
        ClientKind::MissingMaterial
    }
}

/// Certificate and key in one text, on lines of their own.
pub open spec fn bundled(cert: Seq<u8>, key: Seq<u8>) -> Seq<u8> {
    if cert.len() > 0 && cert.last() == 0x0A {
        cert + key
    } else {
        cert.push(0x0A) + key
    }
}

pub fn identity_bundle(cert: &[u8], key: &[u8]) -> (r: Vec<u8>)
    ensures
        r@ == bundled(cert@, key@),
{
    let mut out: Vec<u8> = Vec::new();
    crate::bytes::push_all(&mut out, cert);
    assert(out@ =~= cert@);
    if cert.len() == 0 || cert[cert.len() - 1] != 0x0A {
        out.push(0x0A);
    }
    crate::bytes::push_all(&mut out, key);
    out
}

/// Position of the first line feed from `from` on, or the end.
pub open spec fn line_end(s: Seq<char>, from: int) -> int
    decreases s.len() - from,
{
    if from < 0 || from >= s.len() {
        s.len() as int
    } else if s[from] == '\n' {
        from
    } else {
        line_end(s, from + 1)
    }
}

/// The line that starts at `from`, without its line break.
pub open spec fn line_at(s: Seq<char>, from: int) -> Seq<char> {
    let e = line_end(s, from);
    if e < s.len() && e > from && s[e - 1] == '\r' {
        s.subrange(from, e - 1)
    } else {
        s.subrange(from, e)
    }
}

/// The PEM blocks of `s` from `from` on, of which `current` was already read.
/// Each block is made of its lines, and ends with one that closes a certificate.
pub open spec fn pem_blocks(s: Seq<char>, from: int, current: Seq<char>) -> Seq<Seq<char>>
    decreases s.len() + 1 - from,
{
    if from < 0 || from >= s.len() {
        Seq::empty()
    } else {
        let line = line_at(s, from);
        let next = line_end(s, from) + 1;
        let grown = current + line + seq!['\n'];
        proof {
            lemma_line_end(s, from);
        }
        if starts_with(line, "-----END CERTIFICATE-----"@) {
            seq![grown] + pem_blocks(s, next, Seq::empty())
        } else {
            pem_blocks(s, next, grown)
        }
    }
}

/// Where a line ends: at its line feed, or with the text.
pub proof fn lemma_line_end(s: Seq<char>, from: int)
    requires
        0 <= from <= s.len(),
    ensures
        from <= line_end(s, from) <= s.len(),
        forall|k: int| from <= k < line_end(s, from) ==> s[k] != '\n',
        line_end(s, from) < s.len() ==> s[line_end(s, from)] == '\n',
    decreases s.len() - from,
{
    if from < s.len() && s[from] != '\n' {
        lemma_line_end(s, from + 1);
    }
}

proof fn lemma_line_end_is(s: Seq<char>, from: int, e: int)
    requires
        0 <= from <= e <= s.len(),
        forall|k: int| from <= k < e ==> s[k] != '\n',
        e < s.len() ==> s[e] == '\n',
    ensures
        line_end(s, from) == e,
    decreases e - from,
{
    if from < e {
        lemma_line_end_is(s, from + 1, e);
    }
}

/// Takes a bundle of certificates apart into one PEM text for each.
pub fn split_ca_bundle(text: &str) -> (r: Vec<String>)
    ensures
        r@.map_values(|b: String| b@) == pem_blocks(text@, 0, Seq::empty()),
{
    let s = chars_of(text);
    let mut out: Vec<String> = Vec::new();
    let mut current = String::new();
    let mut at: usize = 0;
    let n: usize = s.len();
    let ghost all = pem_blocks(s@, 0, Seq::empty());
    assert(out@.map_values(|b: String| b@) + all =~= all);
    while at < n
        invariant
            n == s@.len(),
            s@ == text@,
            at <= n,
            all == pem_blocks(s@, 0, Seq::empty()),
            out@.map_values(|b: String| b@) + pem_blocks(s@, at as int, current@) == all,
        decreases n - at,
    {
        let mut e: usize = at;
        while e < n && s[e] != '\n'
            invariant
                n == s@.len(),
                at <= e <= n,
                forall|k: int| at <= k < e ==> s@[k] != '\n',
            decreases n - e,
        {
            e = e + 1;
        }
        proof {
            lemma_line_end_is(s@, at as int, e as int);
        }
        let stop: usize = if e < n && e > at && s[e - 1] == '\r' { e - 1 } else { e };
        let line = text_range(&s, at, stop);
        assert(line@ == line_at(s@, at as int));
        let ghost cur0 = current@;
        let ghost out0 = out@.map_values(|b: String| b@);
        current.append(line.as_str());
        current.push('\n');
        assert(current@ =~= cur0 + line@ + seq!['\n']);
        if text_starts_with(line.as_str(), "-----END CERTIFICATE-----") {
            out.push(current);
            current = String::new();
            proof {
                let grown = cur0 + line@ + seq!['\n'];
                assert(out@.map_values(|b: String| b@) =~= out0.push(grown));
                assert(out0 + (seq![grown] + pem_blocks(s@, e + 1, Seq::empty())) =~= out0.push(
                    grown,
                ) + pem_blocks(s@, e + 1, Seq::empty()));
            }
        }
        if e == n {
            assert(pem_blocks(s@, e + 1, current@) =~= Seq::<Seq<char>>::empty());
            assert(pem_blocks(s@, n as int, current@) =~= Seq::<Seq<char>>::empty());
            at = n;
        } else {
            at = e + 1;
        }
    }
    assert(pem_blocks(s@, at as int, current@) =~= Seq::<Seq<char>>::empty());
    assert(out@.map_values(|b: String| b@) + pem_blocks(s@, at as int, current@) =~= out@.map_values(
        |b: String| b@,
    ));
    out
}

/// A bundle is the certificate and then the key, with a line break between them and
/// none that is not needed.
pub proof fn bundle_holds_both(cert: Seq<u8>, key: Seq<u8>)
    ensures
        ({
            let all = bundled(cert, key);
            let ends = cert.len() > 0 && cert.last() == 0x0A;
            let at = if ends {
                cert.len() as int
            } else {
                cert.len() as int + 1
            };
            &&& all.take(cert.len() as int) == cert
            &&& all.skip(at) == key
            &&& all[at - 1] == 0x0A
            &&& all.len() == at + key.len()
        }),
{
    let all = bundled(cert, key);
    assert(all.take(cert.len() as int) =~= cert);
    if cert.len() > 0 && cert.last() == 0x0A {
        assert(all.skip(cert.len() as int) =~= key);
    } else {
        assert(all.skip(cert.len() as int + 1) =~= key);
    }
}

/// Each part of a bundle closes one certificate: its last line begins with the mark
/// that does, and it ends with a line break.
pub proof fn each_part_closes_a_certificate(s: Seq<char>, from: int, current: Seq<char>, i: int)
    requires
        0 <= i < pem_blocks(s, from, current).len(),
    ensures
        ({
            let block = pem_blocks(s, from, current)[i];
            &&& block.last() == '\n'
            &&& exists|a: int|
                0 <= a <= block.len() && starts_with(
                    #[trigger] block.skip(a),
                    "-----END CERTIFICATE-----"@,
                )
        }),
    decreases s.len() + 1 - from,
{
    lemma_line_end(s, from);
    let line = line_at(s, from);
    let next = line_end(s, from) + 1;
    let grown = current + line + seq!['\n'];
    if starts_with(line, "-----END CERTIFICATE-----"@) {
        if i == 0 {
            let mark = "-----END CERTIFICATE-----"@;
            let tail = grown.skip(current.len() as int);
            assert(tail.subrange(0, mark.len() as int) =~= line.subrange(0, mark.len() as int));
            assert(starts_with(grown.skip(current.len() as int), mark));
            assert(pem_blocks(s, from, current)[0] == grown);
            assert(grown.last() == '\n');
        } else {
            each_part_closes_a_certificate(s, next, Seq::empty(), i - 1);
            assert(pem_blocks(s, from, current)[i] == pem_blocks(s, next, Seq::empty())[i - 1]);
        }
    } else {
        each_part_closes_a_certificate(s, next, grown, i);
    }
}

/// A bundle has a part for every certificate that it closes: a text without a line
/// that closes one has none, and one such line makes one.
pub proof fn one_part_for_each_certificate(s: Seq<char>, from: int, current: Seq<char>)
    requires
        0 <= from < s.len(),
    ensures
        ({
            let next = line_end(s, from) + 1;
            let closes = starts_with(line_at(s, from), "-----END CERTIFICATE-----"@);
            pem_blocks(s, from, current).len() == pem_blocks(s, next, Seq::empty()).len() + (
            if closes {
                1int
            } else {
                0
            })
        }),
{
    lemma_line_end(s, from);
    let next = line_end(s, from) + 1;
    let line = line_at(s, from);
    lemma_parts_do_not_depend_on_what_was_read(
        s,
        next,
        current + line + seq!['\n'],
        Seq::empty(),
    );
}

proof fn lemma_parts_do_not_depend_on_what_was_read(
    s: Seq<char>,
    from: int,
    a: Seq<char>,
    b: Seq<char>,
)
    ensures
        pem_blocks(s, from, a).len() == pem_blocks(s, from, b).len(),
    decreases s.len() + 1 - from,
{
    if 0 <= from < s.len() {
        lemma_line_end(s, from);
        let next = line_end(s, from) + 1;
        let line = line_at(s, from);
        if !starts_with(line, "-----END CERTIFICATE-----"@) {
            lemma_parts_do_not_depend_on_what_was_read(
                s,
                next,
                a + line + seq!['\n'],
                b + line + seq!['\n'],
            );
        }
    }
}

/// A line ends at its line break, with a carriage return or without, and the last one
/// with the text.
pub proof fn lines_end_at_their_breaks(line: Seq<char>, rest: Seq<char>)
    requires
        forall|i: int| 0 <= i < line.len() ==> #[trigger] line[i] != '\n' && line[i] != '\r',
    ensures
        line_at(line + seq!['\n'] + rest, 0) == line,
        line_at(line + seq!['\r', '\n'] + rest, 0) == line,
        line_at(line, 0) == line,
{
    let a = line + seq!['\n'] + rest;
    lemma_line_end_is(a, 0, line.len() as int);
    assert(a.subrange(0, line.len() as int) =~= line);
    if line.len() > 0 {
        assert(a[line.len() - 1] == line[line.len() - 1]);
    }
    let b = line + seq!['\r', '\n'] + rest;
    lemma_line_end_is(b, 0, line.len() as int + 1);
    assert(b.subrange(0, line.len() as int) =~= line);
    lemma_line_end_is(line, 0, line.len() as int);
    assert(line.subrange(0, line.len() as int) =~= line);
}

} // verus!
