//! Candidates and records of proxy endpoints.
use vstd::prelude::*;

verus! {

/// The protocol under which a proxy answered; `Unknown` until it is probed.
#[derive(Clone, Copy, Debug, PartialEq, Eq, Structural)]
pub enum Protocol {
    Http,
    Https,
    Socks5,
    Unknown,
}

pub open spec fn protocol_name(p: Protocol) -> Seq<char> {
    match p {
        Protocol::Http => "http"@,
        Protocol::Https => "https"@,
        Protocol::Socks5 => "socks5"@,
        Protocol::Unknown => "unknown"@,
    }
}

impl Protocol {
    /// The protocol's tag as text.
    pub fn name(&self) -> (r: String)
        ensures
            r@ == protocol_name(*self),
    {
        match self {
            Protocol::Http => String::from_str("http"),
            Protocol::Https => String::from_str("https"),
            Protocol::Socks5 => String::from_str("socks5"),
            Protocol::Unknown => String::from_str("unknown"),
        }
    }

    /// The protocol whose tag is `s`, if any.
    pub fn from_name(s: &str) -> (r: Option<Protocol>)
        ensures
            r matches Some(p) ==> protocol_name(p) == s@,
            r is None ==> forall|p: Protocol| protocol_name(p) != s@,
    {
        proof {
            reveal_strlit("http");
            reveal_strlit("https");
            reveal_strlit("socks5");
            reveal_strlit("unknown");
        }
        let candidates = [Protocol::Http, Protocol::Https, Protocol::Socks5, Protocol::Unknown];
        let mut i: usize = 0;
        while i < 4
            invariant
                i <= 4,
                candidates@ == seq![Protocol::Http, Protocol::Https, Protocol::Socks5, Protocol::Unknown],
                forall|k: int| 0 <= k < i ==> protocol_name(#[trigger] candidates@[k]) != s@,
            decreases 4 - i,
        {
            let p = candidates[i];
            if text_eq(&p.name(), s) {
                return Some(p);
            }
            i = i + 1;
        }
        proof {
            assert forall|p: Protocol| protocol_name(p) != s@ by {
                match p {
                    Protocol::Http => assert(candidates@[0] == p),
                    Protocol::Https => assert(candidates@[1] == p),
                    Protocol::Socks5 => assert(candidates@[2] == p),
                    Protocol::Unknown => assert(candidates@[3] == p),
                }
            }
        }
        None
    }
}

/// Whether two texts hold the same characters.
pub(crate) fn text_eq(a: &String, b: &str) -> (r: bool)
    ensures
        r == (a@ == b@),
{
    let n = a.as_str().unicode_len();
    if n != b.unicode_len() {
        return false;
    }
    let mut i: usize = 0;
    while i < n
        invariant
            n == a@.len(),
            n == b@.len(),
            i <= n,
            forall|k: int| 0 <= k < i ==> a@[k] == b@[k],
        decreases n - i,
    {
        if a.as_str().get_char(i) != b.get_char(i) {
            return false;
        }
        i = i + 1;
    }
    assert(a@ =~= b@);
    true
}

/// A proxy endpoint: a candidate while it is unprobed, a record once it has
/// answered.
#[derive(Clone, Debug)]
pub struct Proxy {
    pub ip: String,
    pub port: u16,
    pub location: String,
    pub proxy_type: Protocol,
    pub date: String,
}

pub struct ProxyView {
    pub ip: Seq<char>,
    pub port: u16,
    pub location: Seq<char>,
    pub proxy_type: Protocol,
    pub date: Seq<char>,
}

impl View for Proxy {
    type V = ProxyView;

    open spec fn view(&self) -> ProxyView {
        ProxyView {
            ip: self.ip@,
            port: self.port,
            location: self.location@,
            proxy_type: self.proxy_type,
            date: self.date@,
        }
    }
}

impl DeepView for Proxy {
    type V = ProxyView;

    open spec fn deep_view(&self) -> ProxyView {
        self@
    }
}

/// The sentinel for a location or a date that is not known.
pub open spec fn unknown_text() -> Seq<char> {
    "Unknown"@
}

/// A freshly extracted candidate: protocol, location and date not yet known.
pub open spec fn candidate(ip: Seq<char>, port: u16) -> ProxyView {
    ProxyView {
        ip,
        port,
        location: unknown_text(),
        proxy_type: Protocol::Unknown,
        date: unknown_text(),
    }
}

impl Proxy {
    /// A candidate at `ip` and `port`, with nothing else known of it.
    pub fn new_candidate(ip: String, port: u16) -> (r: Proxy)
        ensures
            r@ == candidate(ip@, port),
    {
        Proxy {
            ip,
            port,
            location: String::from_str("Unknown"),
            proxy_type: Protocol::Unknown,
            date: String::from_str("Unknown"),
        }
    }
}

} // verus!
