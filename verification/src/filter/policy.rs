//! The decision: let a packet pass, or cut the connection.
//!
//! Nothing here touches the kernel or the network: bytes come in, a verdict
//! comes out. The blacklist is asked by the caller: [`Policy::inspect`]
//! decides, or says which domain to ask about; [`Policy::answer`] takes the
//! reply and decides.

use vstd::prelude::*;

use crate::ip::IpAddr;
use crate::sniff::packet;
use crate::sniff::packet::{LinkType, Transport};
use crate::sniff::reassembly;
use crate::sniff::reassembly::{ClientHelloTracker, FlowKey};
use crate::sniff::capture;
use crate::text;

verus! {

/// The set of the cache that is asked about each handshake.
pub const BLACKLIST_SET: &'static str = "blacklist";

/// The set of the cache in which the domains seen are noted.
pub const SEEN_SET: &'static str = "seen";

/// How many connections that were cut are remembered.
pub const MAX_BLOCKED_FLOWS: usize = 4096;

/// What the kernel is told about a packet.
#[derive(Debug, Clone, Copy, PartialEq, Eq, Structural)]
pub enum Verdict {
    /// The packet goes on.
    Accept,
    /// The packet is thrown away; its sender hears nothing.
    Drop,
}

/// What was decided, and why.
#[derive(Debug, Clone, PartialEq, Eq)]
pub struct Decision {
    /// What the kernel is told.
    pub verdict: Verdict,
    /// The host name read of the ClientHello, if this packet completed one.
    pub domain: Option<String>,
    /// True if the packet belongs to a connection that was cut before.
    pub already_blocked: bool,
}

/// A decision is this one.
pub open spec fn is_decision(
    decision: Decision,
    verdict: Verdict,
    domain: Option<Seq<char>>,
    already_blocked: bool,
) -> bool {
    &&& decision.verdict == verdict
    &&& text::option_view(decision.domain) == domain
    &&& decision.already_blocked == already_blocked
}

impl Decision {
    /// The packet passes, and there is nothing to say of it.
    pub fn accept() -> (r: Self)
        ensures
            is_decision(r, Verdict::Accept, None, false),
    {
        Decision { verdict: Verdict::Accept, domain: None, already_blocked: false }
    }
}

/// A domain to ask the blacklist about, and the connection that it is for.
#[derive(Debug)]
pub struct Pending {
    /// The connection.
    pub flow: FlowKey,
    /// The domain.
    pub domain: String,
}

/// What comes of a packet.
#[derive(Debug)]
pub enum Outcome {
    /// The decision.
    Decided(Decision),
    /// The blacklist has to be asked first.
    Ask(Pending),
}

/// What comes of a reply.
#[derive(Debug)]
pub struct Judged {
    /// The decision.
    pub decision: Decision,
    /// The domain to be noted in [`SEEN_SET`], if it is to be.
    pub seen: Option<String>,
}

// ---------------------------------------------------------------------------
// What a packet does
// ---------------------------------------------------------------------------

/// The TCP segment of a bare IP packet, if it is one.
pub open spec fn tcp_segment(ip_packet: Seq<u8>) -> Option<packet::SegmentModel> {
    match packet::frame_segment(LinkType::Raw, ip_packet) {
        Some(segment) => if segment.protocol == Transport::Tcp {
            Some(segment)
        } else {
            None
        },
        None => None,
    }
}

/// What comes of a packet, given the connections that were cut and the
/// handshakes under way.
pub open spec fn inspected(
    outcome: Outcome,
    ip_packet: Seq<u8>,
    blocked: Set<FlowKey>,
    pending: Map<FlowKey, Seq<u8>>,
) -> bool {
    match tcp_segment(ip_packet) {
        None => outcome matches Outcome::Decided(d) && is_decision(d, Verdict::Accept, None, false),
        Some(segment) => {
            let flow = capture::flow_of(segment);
            if blocked.contains(flow) {
                outcome matches Outcome::Decided(d) && is_decision(d, Verdict::Drop, None, true)
            } else {
                match reassembly::observed_name(pending, flow, segment.payload) {
                    None => outcome matches Outcome::Decided(d) && is_decision(
                        d,
                        Verdict::Accept,
                        None,
                        false,
                    ),
                    Some(domain) => outcome matches Outcome::Ask(p) && p.flow == flow && p.domain@
                        == domain,
                }
            }
        },
    }
}

/// The handshakes under way before a packet and after it.
pub open spec fn follows(
    ip_packet: Seq<u8>,
    blocked: Set<FlowKey>,
    before: Map<FlowKey, Seq<u8>>,
    after: Map<FlowKey, Seq<u8>>,
) -> bool {
    match tcp_segment(ip_packet) {
        None => after == before,
        Some(segment) => {
            let flow = capture::flow_of(segment);
            if blocked.contains(flow) {
                after == before
            } else {
                reassembly::observes(before, flow, segment.payload, after)
            }
        },
    }
}

/// The connections that were cut, with one more. A full memory is emptied
/// first: at worst a ClientHello is read and cut again.
pub open spec fn blocked_with(blocked: Set<FlowKey>, flow: FlowKey) -> Set<FlowKey> {
    if blocked.len() >= MAX_BLOCKED_FLOWS {
        Set::empty().insert(flow)
    } else {
        blocked.insert(flow)
    }
}

/// What comes of a reply of the blacklist on the domain of a connection, and
/// the connections that were cut before and after it.
pub open spec fn judges(
    r: Judged,
    domain: Seq<char>,
    flow: FlowKey,
    reply: Option<bool>,
    records: bool,
    before: Set<FlowKey>,
    after: Set<FlowKey>,
) -> bool {
    if reply == Some(true) {
        &&& is_decision(r.decision, Verdict::Drop, Some(domain), false)
        &&& r.seen is None
        &&& after == blocked_with(before, flow)
    } else {
        &&& is_decision(r.decision, Verdict::Accept, Some(domain), false)
        &&& text::option_view(r.seen) == (if records {
            Some(domain)
        } else {
            None
        })
        &&& after == before
    }
}

/// A connection that was cut is remembered at this place.
spec fn at_place(flows: Seq<FlowKey>, flow: FlowKey, i: int) -> bool {
    0 <= i < flows.len() && flows[i] == flow
}

/// Applies the blacklist to the TLS handshakes that pass the tunnel.
pub struct Policy {
    tracker: ClientHelloTracker,
    /// The connections that were cut. Without this memory the client would send
    /// its ClientHello again and the rest of the connection would pass: the
    /// tracker forgets a flow as soon as it has read a name of it.
    blocked: Vec<FlowKey>,
    record_seen: bool,
}

impl Policy {
    /// The connections that were cut.
    pub closed spec fn blocked(&self) -> Set<FlowKey> {
        self.blocked@.to_set()
    }

    /// The handshakes under way.
    pub closed spec fn pending(&self) -> Map<FlowKey, Seq<u8>> {
        self.tracker@
    }

    /// Domains that pass are noted.
    pub closed spec fn records(&self) -> bool {
        self.record_seen
    }

    /// What is remembered is bounded, and no connection is remembered twice.
    pub closed spec fn wf(&self) -> bool {
        &&& self.tracker.wf()
        &&& self.blocked@.no_duplicates()
        &&& self.blocked@.len() <= MAX_BLOCKED_FLOWS
    }

    /// What is remembered is bounded.
    pub proof fn lemma_wf_bounded(&self)
        requires
            self.wf(),
        ensures
            self.blocked().finite(),
            self.blocked().len() <= MAX_BLOCKED_FLOWS,
            reassembly::bounded(self.pending()),
    {
        self.blocked@.unique_seq_to_set();
        self.tracker.lemma_wf_bounded();
    }

    /// A policy that has cut nothing yet, and notes the domains that pass.
    pub fn new() -> (r: Self)
        ensures
            r.wf(),
            r.blocked() == Set::<FlowKey>::empty(),
            r.pending() == Map::<FlowKey, Seq<u8>>::empty(),
            r.records(),
    {
        let r = Policy {
            tracker: ClientHelloTracker::new(),
            blocked: Vec::new(),
            record_seen: true,
        };
        assert(r.blocked() =~= Set::<FlowKey>::empty());
        r
    }

    /// Notes the domains that pass no more.
    pub fn without_recording(self) -> (r: Self)
        requires
            self.wf(),
        ensures
            r.wf(),
            r.blocked() == self.blocked(),
            r.pending() == self.pending(),
            !r.records(),
    {
        Policy { tracker: self.tracker, blocked: self.blocked, record_seen: false }
    }

    /// How many connections that were cut are remembered.
    pub fn blocked_flows(&self) -> (r: usize)
        requires
            self.wf(),
        ensures
            r == self.blocked().len(),
    {
        proof {
            self.blocked@.unique_seq_to_set();
        }
        self.blocked.len()
    }

    /// Tells whether a connection was cut.
    fn is_blocked(&self, flow: FlowKey) -> (r: bool)
        ensures
            r == self.blocked().contains(flow),
    {
        let mut i: usize = 0;
        while i < self.blocked.len()
            invariant
                i <= self.blocked@.len(),
                forall|j: int| 0 <= j < i ==> !at_place(self.blocked@, flow, j),
            decreases self.blocked@.len() - i,
        {
            if self.blocked[i] == flow {
                assert(self.blocked@.contains(self.blocked@[i as int]));
                return true;
            }
            i = i + 1;
        }
        proof {
            if self.blocked@.contains(flow) {
                let j = choose|j: int| 0 <= j < self.blocked@.len() && self.blocked@[j] == flow;
                assert(at_place(self.blocked@, flow, j));
            }
        }
        false
    }

    /// Decides on a bare IP packet, as NFQUEUE hands it over, or says which
    /// domain to ask about.
    pub fn inspect(&mut self, ip_packet: &[u8]) -> (r: Outcome)
        requires
            old(self).wf(),
        ensures
            final(self).wf(),
            inspected(r, ip_packet@, old(self).blocked(), old(self).pending()),
            follows(ip_packet@, old(self).blocked(), old(self).pending(), final(self).pending()),
            final(self).blocked() == old(self).blocked(),
            final(self).records() == old(self).records(),
    {
        let segment = match packet::segment(LinkType::Raw, ip_packet) {
            Some(segment) => segment,
            None => {
                return Outcome::Decided(Decision::accept());
            },
        };
        if segment.protocol != Transport::Tcp {
            return Outcome::Decided(Decision::accept());
        }
        let flow = FlowKey::from(&segment);
        // What follows in a connection that was cut: it is not looked at.
        if self.is_blocked(flow) {
            return Outcome::Decided(
                Decision { verdict: Verdict::Drop, domain: None, already_blocked: true },
            );
        }
        match self.tracker.observe(flow, segment.payload) {
            Some(domain) => Outcome::Ask(Pending { flow, domain }),
            None => Outcome::Decided(Decision::accept()),
        }
    }

    /// Decides on the packet that completed a ClientHello: takes whether its
    /// domain is on the blacklist, `None` where the cache gave no reply.
    ///
    /// Without a reply the packet passes: to cut all the traffic because the
    /// cache restarts would be worse.
    pub fn answer(&mut self, pending: Pending, reply: Option<bool>) -> (r: Judged)
        requires
            old(self).wf(),
        ensures
            final(self).wf(),
            final(self).pending() == old(self).pending(),
            final(self).records() == old(self).records(),
            judges(
                r,
                pending.domain@,
                pending.flow,
                reply,
                old(self).records(),
                old(self).blocked(),
                final(self).blocked(),
            ),
    {
        let Pending { flow, domain } = pending;
        let listed = match reply {
            Some(listed) => listed,
            None => false,
        };
        let mut seen: Option<String> = None;
        if listed {
            self.remember_blocked(flow);
        } else if self.record_seen {
            seen = Some(text::copy(domain.as_str()));
        }
        Judged {
            decision: Decision {
                verdict: if listed {
                    Verdict::Drop
                } else {
                    Verdict::Accept
                },
                domain: Some(domain),
                already_blocked: false,
            },
            seen,
        }
    }

    /// Remembers a connection that was cut.
    fn remember_blocked(&mut self, flow: FlowKey)
        requires
            old(self).wf(),
        ensures
            final(self).wf(),
            final(self).pending() == old(self).pending(),
            final(self).records() == old(self).records(),
            final(self).blocked() == blocked_with(old(self).blocked(), flow),
    {
        proof {
            self.blocked@.unique_seq_to_set();
        }
        // Nobody will say that a client gives up: the memory is bounded.
        if self.blocked.len() >= MAX_BLOCKED_FLOWS {
            self.blocked.clear();
            assert(self.blocked@.to_set() =~= Set::<FlowKey>::empty());
        }
        if !self.is_blocked(flow) {
            let ghost before = self.blocked@;
            self.blocked.push(flow);
            proof {
                assert forall|k: FlowKey| #[trigger]
                    self.blocked@.contains(k) <==> before.contains(k) || k == flow by {
                    if before.contains(k) {
                        let i = choose|i: int| 0 <= i < before.len() && before[i] == k;
                        assert(self.blocked@[i] == k);
                    }
                    if k == flow {
                        assert(self.blocked@[before.len() as int] == flow);
                    }
                }
                assert(self.blocked@.to_set() =~= before.to_set().insert(flow));
                assert(self.blocked@.no_duplicates()) by {
                    assert(!before.contains(flow));
                }
            }
        } else {
            assert(self.blocked@.to_set() =~= self.blocked@.to_set().insert(flow));
        }
    }
}

// ---------------------------------------------------------------------------
// Laws
// ---------------------------------------------------------------------------

/// Traffic that is not understood is never held back: a packet that carries no
/// TCP segment passes, whatever was decided before.
pub proof fn law_other_traffic_passes(
    outcome: Outcome,
    ip_packet: Seq<u8>,
    blocked: Set<FlowKey>,
    pending: Map<FlowKey, Seq<u8>>,
)
    requires
        inspected(outcome, ip_packet, blocked, pending),
        tcp_segment(ip_packet) is None,
    ensures
        outcome matches Outcome::Decided(d) && d.verdict == Verdict::Accept,
{
}

/// Only a connection whose domain is on the blacklist is ever cut: a packet of
/// any other one passes, or waits for what the blacklist says.
pub proof fn law_only_blocked_flows_are_dropped(
    outcome: Outcome,
    ip_packet: Seq<u8>,
    blocked: Set<FlowKey>,
    pending: Map<FlowKey, Seq<u8>>,
)
    requires
        inspected(outcome, ip_packet, blocked, pending),
    ensures
        outcome matches Outcome::Decided(d) && d.verdict == Verdict::Drop ==> tcp_segment(
            ip_packet,
        ) is Some && blocked.contains(capture::flow_of(tcp_segment(ip_packet).unwrap())),
{
}

/// A connection stays cut: after the packet that named a blacklisted domain,
/// each packet of the same flow is dropped, without a second look.
pub proof fn law_blocked_flow_stays_blocked(
    before: Set<FlowKey>,
    flow: FlowKey,
    outcome: Outcome,
    ip_packet: Seq<u8>,
    pending: Map<FlowKey, Seq<u8>>,
)
    requires
        tcp_segment(ip_packet) matches Some(segment) && capture::flow_of(segment) == flow,
        inspected(outcome, ip_packet, blocked_with(before, flow), pending),
    ensures
        outcome matches Outcome::Decided(d) && d.verdict == Verdict::Drop && d.already_blocked,
{
}

/// What is remembered stays bounded, whatever is cut.
pub proof fn law_memory_is_bounded(blocked: Set<FlowKey>, flow: FlowKey)
    requires
        blocked.finite(),
        blocked.len() <= 4096,
    ensures
        blocked_with(blocked, flow).finite(),
        blocked_with(blocked, flow).len() <= 4096,
{
}

/// Another connection is not touched when one is cut, unless the memory was
/// full.
pub proof fn law_other_flows_are_not_touched(blocked: Set<FlowKey>, flow: FlowKey, other: FlowKey)
    requires
        other != flow,
    ensures
        blocked_with(blocked, flow).contains(other) ==> blocked.contains(other),
        blocked.len() < 4096 && blocked.contains(other) ==> blocked_with(
            blocked,
            flow,
        ).contains(other),
{
}

/// The ClientHello of a connection that was not cut leads to the question on
/// the domain that it announces, for that very connection.
pub proof fn law_announced_domain_is_asked_about(
    outcome: Outcome,
    ip_packet: Seq<u8>,
    src: IpAddr,
    dst: IpAddr,
    src_port: u16,
    dst_port: u16,
    sequence: Seq<u8>,
    words: int,
    reserved: int,
    flags: Seq<u8>,
    rest: Seq<u8>,
    host: Seq<char>,
    blocked: Set<FlowKey>,
    pending: Map<FlowKey, Seq<u8>>,
)
    requires
        inspected(outcome, ip_packet, blocked, pending),
        packet::ip_packet(ip_packet) == Some(
            packet::IpModel {
                protocol: 6,
                src,
                dst,
                payload: packet::tcp_bytes(
                    src_port,
                    dst_port,
                    sequence,
                    words,
                    reserved,
                    flags,
                    rest,
                ),
            },
        ),
        sequence.len() == 8,
        5 <= words < 16,
        0 <= reserved < 16,
        flags.len() == 7,
        words * 4 - 20 <= rest.len(),
        crate::tls::client_hello::stream_host(rest.skip(words * 4 - 20)) == Ok::<
            _,
            crate::tls::TlsError,
        >(host),
        !blocked.contains(FlowKey { src, dst, src_port, dst_port }),
        !pending.contains_key(FlowKey { src, dst, src_port, dst_port }),
    ensures
        outcome matches Outcome::Ask(asked) && asked.domain@ == host && asked.flow == (FlowKey {
            src,
            dst,
            src_port,
            dst_port,
        }),
{
    let none = Seq::<u8>::empty();
    assert(none + ip_packet =~= ip_packet);
    let payload = packet::tcp_bytes(src_port, dst_port, sequence, words, reserved, flags, rest);
    packet::law_link_header_is_taken_off(LinkType::Raw, none, ip_packet);
    packet::law_tcp_reads_back(src_port, dst_port, sequence, words, reserved, flags, rest, 0);
    packet::law_segment_has_both_ends(
        ip_packet,
        6,
        src,
        dst,
        payload,
        src_port,
        dst_port,
        rest.skip(words * 4 - 20),
    );
}

/// Every packet of a connection that was cut is dropped, whatever it carries.
pub proof fn law_cut_connection_is_silent(
    outcome: Outcome,
    ip_packet: Seq<u8>,
    src: IpAddr,
    dst: IpAddr,
    src_port: u16,
    dst_port: u16,
    payload: Seq<u8>,
    data: Seq<u8>,
    before: Set<FlowKey>,
    pending: Map<FlowKey, Seq<u8>>,
)
    requires
        packet::ip_packet(ip_packet) == Some(
            packet::IpModel { protocol: 6, src, dst, payload },
        ),
        packet::tcp_parts(payload) == Some((src_port, dst_port, data)),
        inspected(
            outcome,
            ip_packet,
            blocked_with(before, FlowKey { src, dst, src_port, dst_port }),
            pending,
        ),
    ensures
        outcome matches Outcome::Decided(d) && d.verdict == Verdict::Drop && d.already_blocked
            && d.domain is None,
{
    let none = Seq::<u8>::empty();
    assert(none + ip_packet =~= ip_packet);
    packet::law_link_header_is_taken_off(LinkType::Raw, none, ip_packet);
    packet::law_segment_has_both_ends(
        ip_packet,
        6,
        src,
        dst,
        payload,
        src_port,
        dst_port,
        data,
    );
}

/// A connection is cut exactly where the blacklist says that its domain is on
/// it: where it says no, and where it says nothing, the connection passes. What
/// passes is noted where that is wanted, what is cut never.
pub proof fn law_only_listed_domains_are_cut(
    r: Judged,
    domain: Seq<char>,
    flow: FlowKey,
    reply: Option<bool>,
    records: bool,
    before: Set<FlowKey>,
    after: Set<FlowKey>,
)
    requires
        judges(r, domain, flow, reply, records, before, after),
    ensures
        r.decision.verdict == Verdict::Drop <==> reply == Some(true),
        r.decision.verdict == Verdict::Accept <==> (reply is None || reply == Some(false)),
        text::option_view(r.decision.domain) == Some(domain),
        reply == Some(true) ==> after.contains(flow) && r.seen is None,
        reply != Some(true) ==> after == before,
        reply != Some(true) && records ==> text::option_view(r.seen) == Some(domain),
        !records ==> r.seen is None,
{
    if let Some(listed) = reply {
        assert(listed || !listed);
    }
}

/// A TCP segment of a connection that was not cut is followed as it is in the
/// capture, under the four ends of its connection; anything else leaves the
/// handshakes under way as they were.
pub proof fn law_handshakes_are_followed(
    ip_packet: Seq<u8>,
    src: IpAddr,
    dst: IpAddr,
    src_port: u16,
    dst_port: u16,
    payload: Seq<u8>,
    data: Seq<u8>,
    blocked: Set<FlowKey>,
    before: Map<FlowKey, Seq<u8>>,
    after: Map<FlowKey, Seq<u8>>,
)
    requires
        follows(ip_packet, blocked, before, after),
        packet::ip_packet(ip_packet) == Some(
            packet::IpModel { protocol: 6, src, dst, payload },
        ),
        packet::tcp_parts(payload) == Some((src_port, dst_port, data)),
    ensures
        blocked.contains(FlowKey { src, dst, src_port, dst_port }) ==> after == before,
        !blocked.contains(FlowKey { src, dst, src_port, dst_port }) ==> reassembly::observes(
            before,
            FlowKey { src, dst, src_port, dst_port },
            data,
            after,
        ),
{
    let none = Seq::<u8>::empty();
    assert(none + ip_packet =~= ip_packet);
    packet::law_link_header_is_taken_off(LinkType::Raw, none, ip_packet);
    packet::law_segment_has_both_ends(
        ip_packet,
        6,
        src,
        dst,
        payload,
        src_port,
        dst_port,
        data,
    );
}

} // verus!
