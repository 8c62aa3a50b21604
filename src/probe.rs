//! The decisions of validating a candidate: which protocols are probed, in
//! which order, and when probing stops.
//!
//! A `ProbeSession` holds no connection. Its owner asks it for the next step,
//! performs the probe it names through the candidate, and records whether the
//! probe succeeded; the session then says what to do next.
use vstd::prelude::*;

use crate::address::{decimal, decimal_text};
use crate::proxy::{protocol_name, Protocol, Proxy};

verus! {

/// The protocols to probe: only the known one, or, when none is known, the
/// most specific first.
pub open spec fn probe_order(known: Protocol) -> Seq<Protocol> {
    if known is Unknown {
        seq![Protocol::Socks5, Protocol::Https, Protocol::Http]
    } else {
        seq![known]
    }
}

/// What the owner of a session does next.
#[derive(Clone, Copy, Debug, PartialEq, Eq, Structural)]
pub enum ProbeStep {
    /// Probe the candidate as a proxy of this protocol.
    Probe(Protocol),
    /// Probing is over: the protocol under which the candidate answered, or
    /// `None` when it answered under none.
    Finished(Option<Protocol>),
}

/// The state of a session: the protocols to probe, how many have been
/// probed, and the protocol that answered, once one has.
pub struct ProbeState {
    pub order: Seq<Protocol>,
    pub tried: nat,
    pub found: Option<Protocol>,
}

/// The state of a fresh session.
pub open spec fn start(known: Protocol) -> ProbeState {
    ProbeState { order: probe_order(known), tried: 0, found: None }
}

/// What a session in state `s` asks for: the next protocol in order until one
/// has answered or all have been probed.
pub open spec fn step_of(s: ProbeState) -> ProbeStep {
    if s.found is Some {
        ProbeStep::Finished(s.found)
    } else if s.tried < s.order.len() {
        ProbeStep::Probe(s.order[s.tried as int])
    } else {
        ProbeStep::Finished(None)
    }
}

/// The state after the outcome of a probe is recorded: the first success ends
/// probing; a record when no probe is due changes nothing.
pub open spec fn after(s: ProbeState, success: bool) -> ProbeState {
    match step_of(s) {
        ProbeStep::Probe(p) => ProbeState {
            order: s.order,
            tried: s.tried + 1,
            found: if success { Some(p) } else { None },
        },
        ProbeStep::Finished(_) => s,
    }
}

/// The state in which a session ends when every probe of protocol `p`
/// succeeds exactly when `accepts` holds `p`.
pub open spec fn run(s: ProbeState, accepts: Set<Protocol>) -> ProbeState
    decreases s.order.len() - s.tried,
{
    match step_of(s) {
        ProbeStep::Probe(p) => run(after(s, accepts.contains(p)), accepts),
        ProbeStep::Finished(_) => s,
    }
}

/// The protocols that a run of probes has tried, in the order tried.
pub open spec fn attempted(s: ProbeState) -> Seq<Protocol> {
    s.order.take(s.tried as int)
}

/// The probing of one candidate.
pub struct ProbeSession {
    order: Vec<Protocol>,
    tried: usize,
    found: Option<Protocol>,
}

impl ProbeSession {
    /// Only a real protocol is ever queued for a probe.
    #[verifier::type_invariant]
    spec fn inv(self) -> bool {
        forall|i: int| 0 <= i < self.order@.len() ==> !(#[trigger] self.order@[i] is Unknown)
    }
}

impl View for ProbeSession {
    type V = ProbeState;

    closed spec fn view(&self) -> ProbeState {
        ProbeState { order: self.order@, tried: self.tried as nat, found: self.found }
    }
}

impl ProbeSession {
    /// A session for a candidate whose protocol is `known` (`Unknown` when it
    /// is not known).
    pub fn new(known: Protocol) -> (r: ProbeSession)
        ensures
            r@ == start(known),
    {
        let order = if matches!(known, Protocol::Unknown) {
            vec![Protocol::Socks5, Protocol::Https, Protocol::Http]
        } else {
            vec![known]
        };
        let r = ProbeSession { order, tried: 0, found: None };
        assert(r@.order =~= probe_order(known));
        r
    }

    /// What to do next.
    pub fn next_step(&self) -> (r: ProbeStep)
        ensures
            r == step_of(self@),
            r matches ProbeStep::Probe(p) ==> !(p is Unknown),
    {
        proof {
            use_type_invariant(self);
        }
        if self.found.is_some() {
            ProbeStep::Finished(self.found)
        } else if self.tried < self.order.len() {
            ProbeStep::Probe(self.order[self.tried])
        } else {
            ProbeStep::Finished(None)
        }
    }

    /// Records whether the probe that `next_step` named succeeded.
    pub fn record(&mut self, success: bool)
        ensures
            final(self)@ == after(old(self)@, success),
    {
        proof {
            use_type_invariant(&*self);
        }
        if self.found.is_none() && self.tried < self.order.len() {
            let p = self.order[self.tried];
            self.tried = self.tried + 1;
            if success {
                self.found = Some(p);
            }
        }
    }
}

proof fn lemma_run_from(s: ProbeState, accepts: Set<Protocol>)
    requires
        s.found is None,
        s.tried <= s.order.len(),
        forall|j: int| 0 <= j < s.tried ==> !accepts.contains(#[trigger] s.order[j]),
    ensures
        ({
            let f = run(s, accepts);
            &&& f.order == s.order
            &&& s.tried <= f.tried <= s.order.len()
            &&& forall|j: int| 0 <= j < f.tried - 1 ==> !accepts.contains(#[trigger] s.order[j])
            &&& f.found is Some ==> f.tried >= 1 && accepts.contains(s.order[f.tried - 1])
                && f.found == Some(s.order[f.tried - 1])
            &&& f.found is None ==> f.tried == s.order.len() && forall|j: int|
                0 <= j < s.order.len() ==> !accepts.contains(#[trigger] s.order[j])
        }),
    decreases s.order.len() - s.tried,
{
    if s.tried < s.order.len() {
        let p = s.order[s.tried as int];
        let n = after(s, accepts.contains(p));
        if !accepts.contains(p) {
            lemma_run_from(n, accepts);
        }
    }
}

/// Probing stops at the first protocol of the order that is accepted: every
/// protocol before it was tried and refused, none after it was tried, and it is
/// the outcome. When none is accepted, every protocol was tried and the
/// outcome is `None`.
pub proof fn lemma_first_success_wins(known: Protocol, accepts: Set<Protocol>)
    ensures
        ({
            let f = run(start(known), accepts);
            let o = probe_order(known);
            &&& attempted(f) == o.take(f.tried as int)
            &&& 1 <= f.tried <= o.len()
            &&& forall|j: int| 0 <= j < f.tried - 1 ==> !accepts.contains(#[trigger] o[j])
            &&& f.found is Some <==> accepts.contains(o[f.tried - 1])
            &&& f.found is Some ==> f.found == Some(o[f.tried - 1])
            &&& f.found is None ==> f.tried == o.len()
        }),
{
    lemma_run_from(start(known), accepts);
}

/// A candidate of unknown protocol whose transport accepts `http` and neither
/// `socks5` nor `https` is probed as `socks5`, then `https`, then `http`, and
/// is found to speak `http`.
pub proof fn lemma_unknown_tries_all_in_order(accepts: Set<Protocol>)
    requires
        accepts.contains(Protocol::Http),
        !accepts.contains(Protocol::Socks5),
        !accepts.contains(Protocol::Https),
    ensures
        attempted(run(start(Protocol::Unknown), accepts)) == seq![
            Protocol::Socks5,
            Protocol::Https,
            Protocol::Http,
        ],
        run(start(Protocol::Unknown), accepts).found == Some(Protocol::Http),
{
    let o = probe_order(Protocol::Unknown);
    let f = run(start(Protocol::Unknown), accepts);
    lemma_first_success_wins(Protocol::Unknown, accepts);
    assert(o[0] == Protocol::Socks5 && o[1] == Protocol::Https && o[2] == Protocol::Http);
    if f.tried == 1 {
        assert(accepts.contains(o[0]));
    } else if f.tried == 2 {
        assert(accepts.contains(o[1]));
    }
    assert(f.tried == 3);
    assert(attempted(f) =~= o);
}

/// A candidate of unknown protocol whose transport accepts `socks5` is probed
/// once, as `socks5`, and is found to speak it; `https` and `http` are never
/// tried.
pub proof fn lemma_socks5_first_stops(accepts: Set<Protocol>)
    requires
        accepts.contains(Protocol::Socks5),
    ensures
        attempted(run(start(Protocol::Unknown), accepts)) == seq![Protocol::Socks5],
        run(start(Protocol::Unknown), accepts).found == Some(Protocol::Socks5),
{
    let o = probe_order(Protocol::Unknown);
    let f = run(start(Protocol::Unknown), accepts);
    lemma_first_success_wins(Protocol::Unknown, accepts);
    assert(o[0] == Protocol::Socks5);
    if f.tried > 1 {
        assert(!accepts.contains(o[0]));
    }
    assert(attempted(f) =~= seq![Protocol::Socks5]);
}

/// The address of the candidate as a proxy of protocol `p`:
/// `scheme://address:port`. There is none for `Unknown`.
pub open spec fn endpoint(ip: Seq<char>, port: u16, p: Protocol) -> Option<Seq<char>> {
    if p is Unknown {
        None
    } else {
        Some(protocol_name(p) + "://"@ + ip + ":"@ + decimal(port as nat))
    }
}

/// The proxy address to probe the candidate through as a proxy of `protocol`;
/// `None` for `Unknown`, which names no protocol to probe.
pub fn proxy_endpoint(proxy: &Proxy, protocol: Protocol) -> (r: Option<String>)
    ensures
        r.deep_view() == endpoint(proxy.ip@, proxy.port, protocol),
{
    if matches!(protocol, Protocol::Unknown) {
        return None;
    }
    let mut s = protocol.name();
    s.append("://");
    s.append(proxy.ip.as_str());
    s.append(":");
    let port = decimal_text(proxy.port);
    s.append(port.as_str());
    Some(s)
}

} // verus!
