//! Addresses of the services that a node depends on, and how they are used.
use crate::text::{
    ascii_lower, chars_of, decimal, decimal_text, join2, join3, parse_number, parsed_number,
    starts_with, strip_prefix, text_eq, text_range, text_starts_with, to_ascii_lower, trim, trimmed,
};
use vstd::prelude::*;
use vstd::string::*;

verus! {

/// `s` without the `p` that it starts with, however often it does.
pub open spec fn without_prefixes(s: Seq<char>, p: Seq<char>) -> Seq<char>
    decreases s.len(),
{
    if p.len() > 0 && starts_with(s, p) {
        without_prefixes(s.skip(p.len() as int), p)
    } else {
        s
    }
}

fn strip_prefixes(s: &str, p: &str) -> (r: String)
    requires
        p@.len() > 0,
    ensures
        r@ == without_prefixes(s@, p@),
    decreases s@.len(),
{
    match strip_prefix(s, p) {
        Some(rest) => {
            assert(rest@ =~= s@.skip(p@.len() as int));
            strip_prefixes(rest.as_str(), p)
        },
        None => s.to_owned(),
    }
}

/// Position of the last `c`, or -1.
pub open spec fn last_position(s: Seq<char>, c: char) -> int
    decreases s.len(),
{
    if s.len() == 0 {
        -1
    } else if s.last() == c {
        s.len() - 1
    } else {
        last_position(s.drop_last(), c)
    }
}

/// Position of the first `c`, or the length.
pub open spec fn first_position(s: Seq<char>, c: char) -> int
    decreases s.len(),
{
    if s.len() == 0 || s[0] == c {
        0
    } else {
        1 + first_position(s.drop_first(), c)
    }
}

/// Splits a text at its last `c`, if it has one.
pub fn split_last(s: &str, c: char) -> (r: Option<(String, String)>)
    ensures
        match r {
            Some((a, b)) => {
                let i = last_position(s@, c);
                i >= 0 && a@ == s@.take(i) && b@ == s@.skip(i + 1)
            },
            None => last_position(s@, c) == -1,
        },
{
    let v = chars_of(s);
    let mut n: usize = v.len();
    assert(v@.take(n as int) =~= v@);
    while n > 0 && v[n - 1] != c
        invariant
            v@ == s@,
            n <= v@.len(),
            last_position(v@, c) == last_position(v@.take(n as int), c),
        decreases n,
    {
        assert(v@.take(n as int).drop_last() =~= v@.take(n - 1));
        n = n - 1;
    }
    if n == 0 {
        return None;
    }
    let a = text_range(&v, 0, n - 1);
    let b = text_range(&v, n, v.len());
    assert(a@ =~= s@.take(n - 1));
    assert(b@ =~= s@.skip(n as int));
    Some((a, b))
}

/// A text up to its first `c`.
fn up_to(s: &str, c: char) -> (r: String)
    ensures
        r@ == s@.take(first_position(s@, c)),
{
    let v = chars_of(s);
    let mut n: usize = 0;
    assert(v@.skip(0) =~= v@);
    while n < v.len() && v[n] != c
        invariant
            v@ == s@,
            n <= v@.len(),
            first_position(v@, c) == n + first_position(v@.skip(n as int), c),
        decreases v@.len() - n,
    {
        assert(v@.skip(n as int).drop_first() =~= v@.skip(n + 1));
        n = n + 1;
    }
    let r = text_range(&v, 0, n);
    assert(r@ =~= s@.take(n as int));
    r
}

/// Port of the network controller where none, or none that can be read, is given.
pub const SDN_GRPC_PORT: u16 = 50053;

pub open spec fn bare_url(url: Seq<char>) -> Seq<char> {
    without_prefixes(without_prefixes(url, "https://"@), "http://"@)
}

/// The host of a URL: what stands before the last colon.
pub open spec fn url_host(url: Seq<char>) -> Seq<char> {
    let s = bare_url(url);
    if last_position(s, ':') < 0 {
        s
    } else {
        s.take(last_position(s, ':'))
    }
}

/// The port of a URL: the number that stands behind the last colon, up to a slash.
pub open spec fn url_port(url: Seq<char>) -> u16 {
    let s = bare_url(url);
    if last_position(s, ':') < 0 {
        SDN_GRPC_PORT
    } else {
        let t = s.skip(last_position(s, ':') + 1);
        match parsed_number(t.take(first_position(t, '/')), 10, u16::MAX as nat) {
            Some(p) => p as u16,
            None => SDN_GRPC_PORT,
        }
    }
}

fn host_and_port(url: &str) -> (r: (String, u16))
    ensures
        r.0@ == url_host(url@),
        r.1 == url_port(url@),
{
    proof {
        reveal_strlit("https://");
        reveal_strlit("http://");
    }
    let s = strip_prefixes(strip_prefixes(url, "https://").as_str(), "http://");
    match split_last(s.as_str(), ':') {
        Some((host, rest)) => {
            let port: u16 = match parse_number(up_to(rest.as_str(), '/').as_str(), 10, u16::MAX as u64) {
                Some(p) => p as u16,
                None => SDN_GRPC_PORT,
            };
            (host, port)
        },
        None => (s, SDN_GRPC_PORT),
    }
}

/// The port that a URL names.
pub fn port_of(url: &str) -> (r: u16)
    ensures
        r == url_port(url@),
{
    host_and_port(url).1
}

/// Where the network controller listens for HTTP, by where it listens for remote
/// calls: on the same host, two ports further on.
pub fn derive_sdn_http_url(grpc_url: &str) -> (r: String)
    requires
        url_port(grpc_url@) <= u16::MAX - 2,
    ensures
        r@ == "http://"@ + url_host(grpc_url@) + ":"@ + decimal((url_port(grpc_url@) + 2) as nat),
{
    let (host, port) = host_and_port(grpc_url);
    join2(join3("http://", host.as_str(), ":").as_str(), decimal_text((port + 2) as u64).as_str())
}

/// The address of the relay with TLS, if it was given without.
pub open spec fn upgraded(endpoint: Seq<char>) -> Seq<char> {
    if starts_with(ascii_lower(trim(endpoint)), "http://"@) {
        "https://"@ + trim(endpoint).skip(7)
    } else {
        endpoint
    }
}

pub fn upgrade_endpoint(endpoint: &str) -> (r: String)
    ensures
        r@ == upgraded(endpoint@),
{
    let t = trimmed(endpoint);
    let l = to_ascii_lower(t.as_str());
    if text_starts_with(l.as_str(), "http://") {
        let v = chars_of(t.as_str());
        proof {
            reveal_strlit("http://");
            assert(l@.len() == t@.len());
        }
        let rest = text_range(&v, 7, v.len());
        assert(rest@ =~= t@.skip(7));
        join2("https://", rest.as_str())
    } else {
        endpoint.to_owned()
    }
}

/// The port for acknowledgements, where none is given: a thousand further on than
/// the one for peers, past the last port from the first on.
pub fn ack_port(peer_port: u16) -> (r: u16)
    ensures
        r == (peer_port + 1000) % 0x10000,
{
    peer_port.wrapping_add(1000)
}

/// Whether acknowledgements are to go under this node's certificate.
pub fn wants_authenticated_acks(ack_transport: &str) -> (r: bool)
    ensures
        r == (ascii_lower(ack_transport@) == "etsi020"@),
{
    let l = to_ascii_lower(ack_transport);
    text_eq(l.as_str(), "etsi020")
}

/// The name under which a node takes deliveries.
pub fn subscriber_id(node_id: &str) -> (r: String)
    ensures
        r@ == "dkms-"@ + node_id@,
{
    join2("dkms-", node_id)
}

proof fn lemma_last_position_of(a: Seq<char>, b: Seq<char>, c: char)
    requires
        forall|i: int| 0 <= i < b.len() ==> #[trigger] b[i] != c,
    ensures
        last_position(a + seq![c] + b, c) == a.len(),
    decreases b.len(),
{
    let s = a + seq![c] + b;
    if b.len() == 0 {
        assert(s.last() == c);
    } else {
        assert(s.last() == b[b.len() - 1]);
        let front = b.drop_last();
        assert forall|i: int| 0 <= i < front.len() implies #[trigger] front[i] != c by {
            assert(front[i] == b[i]);
        }
        lemma_last_position_of(a, front, c);
        assert(s.drop_last() =~= a + seq![c] + front);
    }
}

proof fn lemma_first_position_of(a: Seq<char>, b: Seq<char>, c: char)
    requires
        forall|i: int| 0 <= i < a.len() ==> #[trigger] a[i] != c,
        b.len() > 0 ==> b[0] == c,
    ensures
        first_position(a + b, c) == a.len(),
    decreases a.len(),
{
    let s = a + b;
    if a.len() == 0 {
        assert(s =~= b);
    } else {
        assert(s[0] == a[0]);
        let rest = a.drop_first();
        assert forall|i: int| 0 <= i < rest.len() implies #[trigger] rest[i] != c by {
            assert(rest[i] == a[i + 1]);
        }
        lemma_first_position_of(rest, b, c);
        assert(s.drop_first() =~= rest + b);
    }
}

/// An address is a host, a colon and a port, and what comes behind the port is not
/// looked at. A port that is none is taken for the usual one.
pub proof fn address_is_host_and_port(host: Seq<char>, port: Seq<char>, path: Seq<char>)
    requires
        forall|i: int| 0 <= i < port.len() ==> #[trigger] port[i] != '/' && port[i] != ':',
        forall|i: int| 0 <= i < path.len() ==> #[trigger] path[i] != ':',
        path.len() > 0 ==> path[0] == '/',
        !starts_with(host + seq![':'] + (port + path), "https://"@),
        !starts_with(host + seq![':'] + (port + path), "http://"@),
    ensures
        ({
            let url = host + seq![':'] + (port + path);
            &&& url_host(url) == host
            &&& url_port(url) == (match parsed_number(port, 10, u16::MAX as nat) {
                Some(p) => p as int,
                None => 50053,
            })
        }),
{
    let rest = port + path;
    let url = host + seq![':'] + rest;
    assert forall|i: int| 0 <= i < rest.len() implies #[trigger] rest[i] != ':' by {
        if i < port.len() {
            assert(port[i] != ':');
        } else {
            assert(path[i - port.len()] != ':');
        }
    }
    assert(bare_url(url) == url);
    lemma_last_position_of(host, rest, ':');
    lemma_first_position_of(port, path, '/');
    assert(url.take(host.len() as int) =~= host);
    assert(url.skip(host.len() as int + 1) =~= rest);
    assert(rest.take(port.len() as int) =~= port);
}

/// The scheme of an address is not part of its host, with TLS or without.
pub proof fn scheme_is_not_part_of_the_host(s: Seq<char>)
    requires
        !starts_with(s, "https://"@),
        !starts_with(s, "http://"@),
    ensures
        bare_url("https://"@ + s) == s,
        bare_url("http://"@ + s) == s,
        bare_url(s) == s,
{
    reveal_strlit("https://");
    reveal_strlit("http://");
    let a = "https://"@ + s;
    let b = "http://"@ + s;
    assert(a.subrange(0, 8) =~= "https://"@);
    assert(a.skip(8) =~= s);
    assert(b.subrange(0, 7) =~= "http://"@);
    assert(b.skip(7) =~= s);
    if starts_with(b, "https://"@) {
        assert(b[4] == b.subrange(0, 8)[4]);
        assert("https://"@[4] == 's' && b[4] == ':');
    }
    reveal_with_fuel(without_prefixes, 2);
    assert(without_prefixes(a, "https://"@) == s);
    assert(without_prefixes(b, "https://"@) == b);
    assert(without_prefixes(b, "http://"@) == s);
}

/// A relay is never spoken to without TLS where it was given without: the address
/// keeps all but its scheme. One that was given with it stays as it is.
pub proof fn relays_are_spoken_to_with_tls(s: Seq<char>)
    ensures
        starts_with(ascii_lower(trim(s)), "http://"@) ==> upgraded(s).take(8) == "https://"@
            && upgraded(s).skip(8) == trim(s).skip(7),
        !starts_with(ascii_lower(trim(s)), "http://"@) ==> upgraded(s) == s,
{
    reveal_strlit("https://");
    if starts_with(ascii_lower(trim(s)), "http://"@) {
        let rest = trim(s).skip(7);
        assert(("https://"@ + rest).take(8) =~= "https://"@);
        assert(("https://"@ + rest).skip(8) =~= rest);
    }
}

} // verus!
