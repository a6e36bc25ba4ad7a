//! Joining a ClientHello that the MTU cut in two.
//!
//! With post-quantum key exchanges a ClientHello is often longer than 1500
//! bytes, and the MTU of a tunnel is lower still. The message then comes in
//! several TCP segments, with the server name in the second: to read it, the
//! first has to be kept.
//!
//! This is no TCP stack: neither sequence numbers nor retransmissions are
//! looked at, the segments of a flow are joined in the order they come in.
//! That is enough for a handshake that has just begun, and takes bounded
//! memory.

use vstd::prelude::*;

use crate::ip::IpAddr;
use crate::text;
use crate::tls;
use crate::tls::TlsError;

use super::packet::Segment;

verus! {

/// How many handshakes are followed at a time.
pub const MAX_FLOWS: usize = 512;

/// How many bytes are kept of a flow before it is given up.
pub const MAX_BUFFERED: usize = 16384;

/// The four values that identify one direction of a connection.
#[derive(Debug, Clone, Copy, PartialEq, Eq, Hash, Structural)]
pub struct FlowKey {
    /// Where it comes from.
    pub src: IpAddr,
    /// Where it goes.
    pub dst: IpAddr,
    /// The port it comes from.
    pub src_port: u16,
    /// The port it goes to.
    pub dst_port: u16,
}

impl<'a, 'b> From<&'b Segment<'a>> for FlowKey {
    /// The flow that a segment belongs to.
    fn from(segment: &'b Segment<'a>) -> (r: Self) {
        FlowKey {
            src: segment.src,
            dst: segment.dst,
            src_port: segment.src_port,
            dst_port: segment.dst_port,
        }
    }
}

impl<'a, 'b> vstd::std_specs::convert::FromSpecImpl<&'b Segment<'a>> for FlowKey {
    open spec fn obeys_from_spec() -> bool {
        true
    }

    open spec fn from_spec(segment: &'b Segment<'a>) -> FlowKey {
        FlowKey {
            src: segment.src,
            dst: segment.dst,
            src_port: segment.src_port,
            dst_port: segment.dst_port,
        }
    }
}

/// A flow that waits for its next segment.
#[derive(Debug)]
struct Flow {
    key: FlowKey,
    data: Vec<u8>,
}

/// Follows the handshakes under way to read the server name of each.
#[derive(Debug)]
pub struct ClientHelloTracker {
    flows: Vec<Flow>,
}

// ---------------------------------------------------------------------------
// What a segment does
// ---------------------------------------------------------------------------

/// What a flow has sent once this segment is in.
pub open spec fn stream_with(pending: Map<FlowKey, Seq<u8>>, key: FlowKey, payload: Seq<u8>) -> Seq<
    u8,
> {
    if pending.contains_key(key) {
        pending[key] + payload
    } else {
        payload
    }
}

/// A flow that waited would grow past what is kept of it.
pub open spec fn overflows(pending: Map<FlowKey, Seq<u8>>, key: FlowKey, payload: Seq<u8>) -> bool {
    pending.contains_key(key) && stream_with(pending, key, payload).len() > MAX_BUFFERED
}

/// The host name that a segment completes, if it does.
pub open spec fn observed_name(
    pending: Map<FlowKey, Seq<u8>>,
    key: FlowKey,
    payload: Seq<u8>,
) -> Option<Seq<char>> {
    if payload.len() == 0 || overflows(pending, key, payload) {
        None
    } else {
        match tls::client_hello::stream_host(stream_with(pending, key, payload)) {
            Ok(host) => Some(host),
            Err(_) => None,
        }
    }
}

/// A segment leaves its flow waiting for the next.
pub open spec fn still_waits(
    pending: Map<FlowKey, Seq<u8>>,
    key: FlowKey,
    payload: Seq<u8>,
) -> bool {
    &&& stream_with(pending, key, payload).len() <= MAX_BUFFERED
    &&& tls::client_hello::stream_host(stream_with(pending, key, payload)) == Err::<Seq<char>, _>(
        TlsError::Incomplete,
    )
}

/// The flows that wait before a segment and those that wait after it.
///
/// A flow that still waits is kept with all it has sent; where it is new and
/// the table is full, some other flow makes room. A flow that was read, never
/// will be, or has sent more than is kept, is forgotten.
pub open spec fn observes(
    before: Map<FlowKey, Seq<u8>>,
    key: FlowKey,
    payload: Seq<u8>,
    after: Map<FlowKey, Seq<u8>>,
) -> bool {
    if payload.len() == 0 {
        after == before
    } else if !still_waits(before, key, payload) {
        after == before.remove(key)
    } else if before.contains_key(key) || before.len() < MAX_FLOWS {
        after == before.insert(key, stream_with(before, key, payload))
    } else {
        exists|victim: FlowKey| makes_room(before, victim, key, payload, after)
    }
}

/// One flow takes the place of another.
pub open spec fn makes_room(
    before: Map<FlowKey, Seq<u8>>,
    victim: FlowKey,
    key: FlowKey,
    payload: Seq<u8>,
    after: Map<FlowKey, Seq<u8>>,
) -> bool {
    before.contains_key(victim) && after == before.remove(victim).insert(key, payload)
}

/// What holds of the flows that wait, at any time: they are few, little is kept
/// of each, and that is the start of a handshake, not the whole.
pub open spec fn bounded(pending: Map<FlowKey, Seq<u8>>) -> bool {
    &&& pending.dom().finite()
    &&& pending.len() <= MAX_FLOWS
    &&& forall|key: FlowKey| #[trigger]
        pending.contains_key(key) ==> 0 < pending[key].len() <= MAX_BUFFERED
            && tls::client_hello::stream_host(pending[key]) == Err::<Seq<char>, _>(
            TlsError::Incomplete,
        )
}

// ---------------------------------------------------------------------------
// The table
// ---------------------------------------------------------------------------

/// The table holds this flow at this place.
spec fn at_place(flows: Seq<Flow>, key: FlowKey, i: int) -> bool {
    0 <= i < flows.len() && flows[i].key == key
}

/// The table holds this flow.
spec fn has_flow(flows: Seq<Flow>, key: FlowKey) -> bool {
    exists|i: int| at_place(flows, key, i)
}

/// What the table holds of a flow.
spec fn flow_data(flows: Seq<Flow>, key: FlowKey) -> Seq<u8> {
    flows[choose|i: int| at_place(flows, key, i)].data@
}

/// No flow stands twice in the table.
spec fn distinct(flows: Seq<Flow>) -> bool {
    forall|i: int, j: int|
        0 <= i < flows.len() && 0 <= j < flows.len() && i != j ==> (#[trigger] flows[i]).key != (
        #[trigger] flows[j]).key
}

/// The table as a map.
spec fn flow_map(flows: Seq<Flow>) -> Map<FlowKey, Seq<u8>> {
    Map::new(|key: FlowKey| has_flow(flows, key), |key: FlowKey| flow_data(flows, key))
}

/// A flow is found where it stands.
proof fn lemma_found(flows: Seq<Flow>, i: int)
    requires
        distinct(flows),
        0 <= i < flows.len(),
    ensures
        flow_map(flows).contains_key(flows[i].key),
        flow_map(flows)[flows[i].key] == flows[i].data@,
{
    assert(at_place(flows, flows[i].key, i));
    let j = choose|j: int| at_place(flows, flows[i].key, j);
    assert(j == i);
}

/// The map has as many flows as the table.
proof fn lemma_map_size(flows: Seq<Flow>)
    requires
        distinct(flows),
    ensures
        flow_map(flows).dom().finite(),
        flow_map(flows).len() == flows.len(),
    decreases flows.len(),
{
    let map = flow_map(flows);
    if flows.len() == 0 {
        assert(map.dom() =~= Set::empty());
    } else {
        let rest = flows.drop_last();
        assert(distinct(rest)) by {
            assert forall|i: int, j: int|
                0 <= i < rest.len() && 0 <= j < rest.len() && i != j implies (
            #[trigger] rest[i]).key != (#[trigger] rest[j]).key by {
                assert(flows[i].key != flows[j].key);
            }
        }
        lemma_map_size(rest);
        let key = flows.last().key;
        assert(!flow_map(rest).dom().contains(key)) by {
            assert forall|i: int| !at_place(rest, key, i) by {
                if 0 <= i < rest.len() {
                    assert(flows[i].key != flows[flows.len() - 1].key);
                }
            }
        }
        assert(map.dom() =~= flow_map(rest).dom().insert(key)) by {
            assert forall|k: FlowKey| has_flow(flows, k) <==> has_flow(rest, k) || k == key by {
                if has_flow(flows, k) {
                    let i = choose|i: int| at_place(flows, k, i);
                    if i < rest.len() {
                        assert(at_place(rest, k, i));
                    }
                }
                if has_flow(rest, k) {
                    let i = choose|i: int| at_place(rest, k, i);
                    assert(at_place(flows, k, i));
                }
                if k == key {
                    assert(at_place(flows, k, flows.len() - 1));
                }
            }
        }
    }
}

/// Taking a flow out of the table takes it out of the map.
proof fn lemma_flow_removed(flows: Seq<Flow>, at: int)
    requires
        distinct(flows),
        0 <= at < flows.len(),
    ensures
        distinct(flows.remove(at)),
        flow_map(flows.remove(at)) == flow_map(flows).remove(flows[at].key),
{
    let after = flows.remove(at);
    let key = flows[at].key;
    assert forall|i: int, j: int|
        0 <= i < after.len() && 0 <= j < after.len() && i != j implies (#[trigger] after[i]).key
        != (#[trigger] after[j]).key by {
        let a = if i < at { i } else { i + 1 };
        let b = if j < at { j } else { j + 1 };
        assert(flows[a].key != flows[b].key);
    }
    assert forall|k: FlowKey| has_flow(after, k) <==> has_flow(flows, k) && k != key by {
        if has_flow(after, k) {
            let i = choose|i: int| at_place(after, k, i);
            let a = if i < at { i } else { i + 1 };
            assert(at_place(flows, k, a));
            assert(flows[a].key != flows[at].key);
        }
        if has_flow(flows, k) && k != key {
            let i = choose|i: int| at_place(flows, k, i);
            let b = if i < at { i } else { i - 1 };
            assert(at_place(after, k, b));
        }
    }
    assert forall|k: FlowKey| has_flow(after, k) implies flow_data(after, k) == flow_data(
        flows,
        k,
    ) by {
        let i = choose|i: int| at_place(after, k, i);
        let a = if i < at { i } else { i + 1 };
        lemma_found(after, i);
        lemma_found(flows, a);
    }
    assert(flow_map(after) =~= flow_map(flows).remove(key));
}

/// Adding a flow to the table adds it to the map.
proof fn lemma_flow_added(flows: Seq<Flow>, flow: Flow)
    requires
        distinct(flows),
        !flow_map(flows).contains_key(flow.key),
    ensures
        distinct(flows.push(flow)),
        flow_map(flows.push(flow)) == flow_map(flows).insert(flow.key, flow.data@),
{
    let after = flows.push(flow);
    assert forall|i: int| 0 <= i < flows.len() implies (#[trigger] flows[i]).key != flow.key by {
        if flows[i].key == flow.key {
            assert(at_place(flows, flow.key, i));
        }
    }
    assert(distinct(after));
    assert forall|k: FlowKey| has_flow(after, k) <==> has_flow(flows, k) || k == flow.key by {
        if has_flow(after, k) {
            let i = choose|i: int| at_place(after, k, i);
            if i < flows.len() {
                assert(at_place(flows, k, i));
            }
        }
        if has_flow(flows, k) {
            let i = choose|i: int| at_place(flows, k, i);
            assert(at_place(after, k, i));
        }
        if k == flow.key {
            assert(at_place(after, k, flows.len() as int));
        }
    }
    lemma_found(after, flows.len() as int);
    assert forall|k: FlowKey| has_flow(flows, k) implies flow_data(after, k) == flow_data(
        flows,
        k,
    ) by {
        let i = choose|i: int| at_place(flows, k, i);
        lemma_found(after, i);
        lemma_found(flows, i);
    }
    assert(flow_map(after) =~= flow_map(flows).insert(flow.key, flow.data@));
}

impl View for ClientHelloTracker {
    type V = Map<FlowKey, Seq<u8>>;

    closed spec fn view(&self) -> Map<FlowKey, Seq<u8>> {
        flow_map(self.flows@)
    }
}

impl Default for ClientHelloTracker {
    fn default() -> (r: Self)
        ensures
            r.wf(),
            r@ == Map::<FlowKey, Seq<u8>>::empty(),
    {
        ClientHelloTracker::new()
    }
}

impl ClientHelloTracker {
    /// No flow stands twice in the table, and what waits is bounded.
    pub closed spec fn wf(&self) -> bool {
        distinct(self.flows@) && bounded(self@)
    }

    /// What waits in a well-formed tracker is bounded.
    pub proof fn lemma_wf_bounded(&self)
        requires
            self.wf(),
        ensures
            bounded(self@),
    {
    }

    /// A tracker in which nothing waits.
    pub fn new() -> (r: Self)
        ensures
            r.wf(),
            r@ == Map::<FlowKey, Seq<u8>>::empty(),
    {
        let r = ClientHelloTracker { flows: Vec::new() };
        proof {
            lemma_map_size(r.flows@);
            assert(r@ =~= Map::<FlowKey, Seq<u8>>::empty());
        }
        r
    }

    /// How many flows wait for one more segment.
    pub fn pending_flows(&self) -> (r: usize)
        requires
            self.wf(),
        ensures
            r == self@.len(),
    {
        proof {
            lemma_map_size(self.flows@);
        }
        self.flows.len()
    }

    /// The place of a flow in the table, or its end.
    fn place(&self, key: FlowKey) -> (r: usize)
        ensures
            r <= self.flows@.len(),
            r < self.flows@.len() ==> self.flows@[r as int].key == key,
            r < self.flows@.len() <==> self@.contains_key(key),
    {
        let mut i: usize = 0;
        while i < self.flows.len()
            invariant
                i <= self.flows@.len(),
                forall|j: int| 0 <= j < i ==> !at_place(self.flows@, key, j),
            decreases self.flows@.len() - i,
        {
            if self.flows[i].key == key {
                assert(at_place(self.flows@, key, i as int));
                return i;
            }
            i = i + 1;
        }
        i
    }

    /// Looks at a TCP segment, and gives the host name if the ClientHello is
    /// whole.
    pub fn observe(&mut self, key: FlowKey, payload: &[u8]) -> (r: Option<String>)
        requires
            old(self).wf(),
        ensures
            final(self).wf(),
            text::option_view(r) == observed_name(old(self)@, key, payload@),
            observes(old(self)@, key, payload@, final(self)@),
    {
        if payload.len() == 0 {
            return None;
        }
        let at = self.place(key);
        if at == self.flows.len() {
            // The first segment of this flow.
            return match tls::server_name(payload) {
                Ok(name) => {
                    assert(self@ =~= self@.remove(key));
                    Some(name)
                },
                // The ClientHello goes on in the next segment: what was seen
                // is kept meanwhile, unless it is too long already.
                Err(TlsError::Incomplete) => {
                    if payload.len() <= MAX_BUFFERED {
                        self.remember(key, payload);
                    } else {
                        assert(self@ =~= self@.remove(key));
                    }
                    None
                },
                Err(_) => {
                    assert(self@ =~= self@.remove(key));
                    None
                },
            };
        }
        let ghost before = self.flows@;
        proof {
            lemma_found(before, at as int);
            lemma_flow_removed(before, at as int);
            lemma_map_size(before);
        }
        // This flow waited for what follows: it is joined, and read again.
        let flow = self.flows.remove(at);
        if payload.len() > MAX_BUFFERED || flow.data.len() > MAX_BUFFERED - payload.len() {
            // Too long for a ClientHello: this flow is of no more interest.
            proof {
                assert(bounded(self@));
            }
            return None;
        }
        let mut data = flow.data;
        data.extend_from_slice(payload);
        assert(data@ =~= before[at as int].data@ + payload@);
        match tls::server_name(data.as_slice()) {
            Ok(name) => Some(name),
            Err(TlsError::Incomplete) => {
                let ghost rest = self.flows@;
                let ghost flow = Flow { key, data };
                proof {
                    lemma_flow_added(rest, flow);
                    lemma_map_size(rest.push(flow));
                    assert(flow_map(before).remove(key).insert(key, data@) =~= flow_map(
                        before,
                    ).insert(key, data@));
                }
                self.flows.push(Flow { key, data });
                assert(bounded(self@));
                None
            },
            // No handshake, or a malformed one: nothing to follow.
            Err(_) => None,
        }
    }

    /// Keeps the first segment of a flow.
    fn remember(&mut self, key: FlowKey, payload: &[u8])
        requires
            old(self).wf(),
            !old(self)@.contains_key(key),
            0 < payload@.len() <= MAX_BUFFERED,
            tls::client_hello::stream_host(payload@) == Err::<Seq<char>, _>(TlsError::Incomplete),
        ensures
            final(self).wf(),
            observes(old(self)@, key, payload@, final(self)@),
    {
        let ghost before = self.flows@;
        proof {
            lemma_map_size(before);
        }
        // The table is full: a place is made, rather than every new
        // connection ignored from now on.
        if self.flows.len() >= MAX_FLOWS {
            proof {
                lemma_found(before, 0);
                lemma_flow_removed(before, 0);
            }
            self.flows.remove(0);
        }
        let mut data: Vec<u8> = Vec::new();
        data.extend_from_slice(payload);
        assert(data@ =~= payload@);
        let ghost rest = self.flows@;
        proof {
            let flow = Flow { key, data };
            lemma_flow_added(rest, flow);
            lemma_map_size(rest);
            lemma_map_size(rest.push(flow));
            if before.len() >= MAX_FLOWS {
                assert(makes_room(
                    flow_map(before),
                    before[0].key,
                    key,
                    payload@,
                    flow_map(rest.push(flow)),
                ));
            }
        }
        self.flows.push(Flow { key, data });
        assert(bounded(self@));
    }
}

// ---------------------------------------------------------------------------
// Laws
// ---------------------------------------------------------------------------

/// What is kept of each flow is no longer than this.
pub open spec fn kept_within(pending: Map<FlowKey, Seq<u8>>, limit: int) -> bool {
    forall|key: FlowKey| #[trigger] pending.contains_key(key) ==> pending[key].len() <= limit
}

/// Whatever is observed, the memory taken stays bounded: at most
/// [`MAX_FLOWS`] flows wait, and no more than [`MAX_BUFFERED`] bytes are kept
/// of each.
pub proof fn law_memory_is_bounded(
    before: Map<FlowKey, Seq<u8>>,
    key: FlowKey,
    payload: Seq<u8>,
    after: Map<FlowKey, Seq<u8>>,
)
    requires
        bounded(before),
        observes(before, key, payload, after),
    ensures
        after.dom().finite(),
        after.len() <= 512,
        kept_within(after, 16384),
        bounded(after),
{
    if payload.len() > 0 && still_waits(before, key, payload) && !before.contains_key(key)
        && before.len() >= MAX_FLOWS {
        let victim = choose|victim: FlowKey| makes_room(before, victim, key, payload, after);
        assert(makes_room(before, victim, key, payload, after));
    }
}

/// Handshakes under way at the same time are kept apart: a segment of one
/// flow neither adds to what another has sent nor takes from it. The other is
/// forgotten only where the table is full and a new flow comes in.
pub proof fn law_flows_are_kept_apart(
    before: Map<FlowKey, Seq<u8>>,
    key: FlowKey,
    payload: Seq<u8>,
    after: Map<FlowKey, Seq<u8>>,
    other: FlowKey,
)
    requires
        observes(before, key, payload, after),
        other != key,
    ensures
        after.contains_key(other) ==> before.contains_key(other) && after[other] == before[other],
        before.contains_key(other) && (before.len() < 512 || before.contains_key(key))
            ==> after.contains_key(other),
{
}

/// A segment that comes in: the flow that it belongs to, and what it carries.
pub type Arrival = (FlowKey, Seq<u8>);

/// All that a flow sends, in the order in which its segments come in.
pub open spec fn sent(arrivals: Seq<Arrival>, key: FlowKey) -> Seq<u8>
    decreases arrivals.len(),
{
    if arrivals.len() == 0 {
        Seq::empty()
    } else if arrivals.last().0 == key {
        sent(arrivals.drop_last(), key) + arrivals.last().1
    } else {
        sent(arrivals.drop_last(), key)
    }
}

/// Segments of any flows come in one after the other; `states` are the flows
/// that wait before each of them and after the last.
pub open spec fn arrive(states: Seq<Map<FlowKey, Seq<u8>>>, arrivals: Seq<Arrival>) -> bool {
    &&& states.len() == arrivals.len() + 1
    &&& forall|i: int|
        0 <= i < arrivals.len() ==> observes(
            states[i],
            (#[trigger] arrivals[i]).0,
            arrivals[i].1,
            states[i + 1],
        )
}

/// While segments come in, no other flow finds the table full: each waits
/// already, or there is room for it.
pub open spec fn leaves_room(
    states: Seq<Map<FlowKey, Seq<u8>>>,
    arrivals: Seq<Arrival>,
    key: FlowKey,
) -> bool {
    forall|i: int|
        0 <= i < arrivals.len() && (#[trigger] arrivals[i]).0 != key ==> states[i].contains_key(
            arrivals[i].0,
        ) || states[i].len() < 512
}

/// What is kept of a flow is all that it has sent.
pub open spec fn keeps(pending: Map<FlowKey, Seq<u8>>, key: FlowKey, stream: Seq<u8>) -> bool {
    if stream.len() == 0 {
        !pending.contains_key(key)
    } else {
        pending.contains_key(key) && pending[key] == stream
    }
}

/// A segment of a flow that does not make a whole ClientHello is kept with all
/// that the flow has sent before, and gives no name.
proof fn lemma_segment_kept(
    before: Map<FlowKey, Seq<u8>>,
    key: FlowKey,
    stream: Seq<u8>,
    payload: Seq<u8>,
    after: Map<FlowKey, Seq<u8>>,
)
    requires
        keeps(before, key, stream),
        observes(before, key, payload, after),
        (stream + payload).len() <= MAX_BUFFERED,
        tls::client_hello::stream_host(stream + payload) == Err::<Seq<char>, _>(
            TlsError::Incomplete,
        ),
    ensures
        keeps(after, key, stream + payload),
        observed_name(before, key, payload) is None,
{
    if payload.len() == 0 {
        assert(stream + payload =~= stream);
    } else {
        assert(stream_with(before, key, payload) =~= stream + payload);
    }
}

/// A segment of another flow leaves what is kept of a flow as it was.
proof fn lemma_other_segment(
    before: Map<FlowKey, Seq<u8>>,
    other: FlowKey,
    payload: Seq<u8>,
    after: Map<FlowKey, Seq<u8>>,
    key: FlowKey,
    stream: Seq<u8>,
)
    requires
        keeps(before, key, stream),
        other != key,
        observes(before, other, payload, after),
        before.contains_key(other) || before.len() < MAX_FLOWS,
    ensures
        keeps(after, key, stream),
{
    law_flows_are_kept_apart(before, other, payload, after, key);
}

/// As long as a flow has not sent a whole ClientHello, all that it has sent is
/// kept, whatever other flows send in between.
proof fn lemma_stream_kept(
    states: Seq<Map<FlowKey, Seq<u8>>>,
    arrivals: Seq<Arrival>,
    key: FlowKey,
    upto: int,
)
    requires
        arrive(states, arrivals),
        leaves_room(states, arrivals, key),
        !states[0].contains_key(key),
        0 <= upto <= arrivals.len(),
        sent(arrivals.take(upto), key).len() <= MAX_BUFFERED,
        forall|i: int|
            0 <= i <= upto ==> #[trigger] tls::client_hello::stream_host(
                sent(arrivals.take(i), key),
            ) == Err::<Seq<char>, _>(TlsError::Incomplete),
    ensures
        keeps(states[upto], key, sent(arrivals.take(upto), key)),
        forall|i: int|
            0 <= i < upto && (#[trigger] arrivals[i]).0 == key ==> observed_name(
                states[i],
                key,
                arrivals[i].1,
            ) is None,
    decreases upto,
{
    if upto > 0 {
        let last = arrivals[upto - 1];
        let stream = sent(arrivals.take(upto - 1), key);
        lemma_sent_step(arrivals, key, upto);
        lemma_stream_kept(states, arrivals, key, upto - 1);
        assert(observes(states[upto - 1], last.0, last.1, states[upto]));
        if last.0 == key {
            assert(tls::client_hello::stream_host(sent(arrivals.take(upto), key)) == Err::<
                Seq<char>,
                _,
            >(TlsError::Incomplete));
            lemma_segment_kept(states[upto - 1], key, stream, last.1, states[upto]);
        } else {
            lemma_other_segment(states[upto - 1], last.0, last.1, states[upto], key, stream);
        }
    }
}

/// What a flow has sent, with one more segment.
proof fn lemma_sent_step(arrivals: Seq<Arrival>, key: FlowKey, upto: int)
    requires
        0 < upto <= arrivals.len(),
    ensures
        sent(arrivals.take(upto), key) == (if arrivals[upto - 1].0 == key {
            sent(arrivals.take(upto - 1), key) + arrivals[upto - 1].1
        } else {
            sent(arrivals.take(upto - 1), key)
        }),
        sent(arrivals.take(upto - 1), key).len() <= sent(arrivals.take(upto), key).len(),
{
    assert(arrivals.take(upto).drop_last() =~= arrivals.take(upto - 1));
    assert(arrivals.take(upto).last() == arrivals[upto - 1]);
}

/// What a flow has sent so far is the start of all that it sends.
proof fn lemma_sent_prefix(arrivals: Seq<Arrival>, key: FlowKey, i: int, n: int)
    requires
        0 <= i <= n <= arrivals.len(),
    ensures
        sent(arrivals.take(i), key).len() <= sent(arrivals.take(n), key).len(),
        sent(arrivals.take(i), key) == sent(arrivals.take(n), key).take(
            sent(arrivals.take(i), key).len() as int,
        ),
    decreases n,
{
    let part = sent(arrivals.take(i), key);
    if i < n {
        lemma_sent_prefix(arrivals, key, i, n - 1);
        lemma_sent_step(arrivals, key, n);
    }
    assert(part =~= sent(arrivals.take(n), key).take(part.len() as int));
}

/// Before the last segment of a ClientHello, what came in asks for more.
proof fn lemma_parts_ask_for_more(arrivals: Seq<Arrival>, key: FlowKey, i: int)
    requires
        0 <= i < arrivals.len(),
        tls::client_hello::stream_host(sent(arrivals, key)) is Ok,
        !tls::client_hello::record_complete(sent(arrivals.drop_last(), key)),
    ensures
        tls::client_hello::stream_host(sent(arrivals.take(i), key)) == Err::<Seq<char>, _>(
            TlsError::Incomplete,
        ),
{
    let n = arrivals.len() as int;
    let whole = sent(arrivals, key);
    assert(arrivals.take(n) =~= arrivals);
    assert(arrivals.take(n - 1) =~= arrivals.drop_last());
    lemma_sent_prefix(arrivals, key, i, n - 1);
    lemma_sent_prefix(arrivals, key, i, n);
    lemma_sent_prefix(arrivals, key, n - 1, n);
    lemma_incomplete_prefix(whole, sent(arrivals.take(n - 1), key).len() as int);
    tls::client_hello::law_cut_hello_asks_for_more(
        whole,
        sent(arrivals.take(i), key).len() as int,
    );
}

/// A ClientHello cut into any number of segments, anywhere, is put together
/// again, whatever other flows send in between as long as they find room: the
/// segment that completes it gives the name that the whole announces, those
/// before it give nothing, and then the flow is forgotten.
pub proof fn law_split_hello_is_reassembled(
    states: Seq<Map<FlowKey, Seq<u8>>>,
    arrivals: Seq<Arrival>,
    key: FlowKey,
    host: Seq<char>,
)
    requires
        arrive(states, arrivals),
        leaves_room(states, arrivals, key),
        !states[0].contains_key(key),
        arrivals.len() > 0,
        arrivals.last().0 == key,
        tls::client_hello::stream_host(sent(arrivals, key)) == Ok::<_, TlsError>(host),
        !tls::client_hello::record_complete(sent(arrivals.drop_last(), key)),
        sent(arrivals, key).len() <= 16384 || sent(arrivals.drop_last(), key).len() == 0,
    ensures
        observed_name(states[arrivals.len() - 1], key, arrivals.last().1) == Some(host),
        forall|i: int|
            0 <= i < arrivals.len() - 1 && (#[trigger] arrivals[i]).0 == key ==> observed_name(
                states[i],
                key,
                arrivals[i].1,
            ) is None,
        !states.last().contains_key(key),
{
    let n = arrivals.len() as int;
    let whole = sent(arrivals, key);
    let before = sent(arrivals.drop_last(), key);
    let payload = arrivals.last().1;
    assert(arrivals.take(n) =~= arrivals);
    assert(arrivals.take(n - 1) =~= arrivals.drop_last());
    lemma_sent_prefix(arrivals, key, n - 1, n);
    assert forall|i: int| 0 <= i <= n - 1 implies #[trigger] tls::client_hello::stream_host(
        sent(arrivals.take(i), key),
    ) == Err::<Seq<char>, _>(TlsError::Incomplete) by {
        lemma_parts_ask_for_more(arrivals, key, i);
    }
    lemma_stream_kept(states, arrivals, key, n - 1);
    assert(whole == before + payload);
    assert(payload.len() > 0) by {
        if payload.len() == 0 {
            assert(whole =~= before);
        }
    }
    assert(stream_with(states[n - 1], key, payload) =~= whole);
    assert(observes(states[n - 1], arrivals[n - 1].0, arrivals[n - 1].1, states[n]));
}

/// A cut before which the record is not whole lies before its end.
proof fn lemma_incomplete_prefix(whole: Seq<u8>, cut: int)
    requires
        tls::client_hello::stream_host(whole) is Ok,
        0 <= cut <= whole.len(),
        !tls::client_hello::record_complete(whole.take(cut)),
    ensures
        cut < 5 + tls::client_hello::length_field(whole.skip(3), 2),
{
    if cut >= 5 {
        let part = whole.take(cut);
        assert(part.skip(3)[0] == whole.skip(3)[0] && part.skip(3)[1] == whole.skip(3)[1]);
    }
}

/// A flow is forgotten as soon as it has been read, as soon as it is seen not to
/// be a handshake, and as soon as it has sent more than is kept, which gives no
/// name. A segment that carries nothing changes nothing.
pub proof fn law_settled_flow_is_forgotten(
    before: Map<FlowKey, Seq<u8>>,
    key: FlowKey,
    payload: Seq<u8>,
    after: Map<FlowKey, Seq<u8>>,
    stream: Seq<u8>,
)
    requires
        observes(before, key, payload, after),
        keeps(before, key, stream),
    ensures
        payload.len() == 0 ==> after == before && observed_name(before, key, payload) is None,
        payload.len() > 0 && tls::client_hello::stream_host(stream + payload) != Err::<
            Seq<char>,
            _,
        >(TlsError::Incomplete) ==> !after.contains_key(key),
        payload.len() > 0 && (stream + payload).len() > 16384 ==> !after.contains_key(key),
        stream.len() > 0 && (stream + payload).len() > 16384 ==> observed_name(
            before,
            key,
            payload,
        ) is None,
        payload.len() > 0 && (stream + payload).len() <= 16384 && tls::client_hello::stream_host(
            stream + payload,
        ) == Err::<Seq<char>, _>(TlsError::Incomplete) ==> after.contains_key(key) && after[key]
            == stream + payload,
{
    if stream.len() == 0 {
        assert(stream + payload =~= payload);
    }
    if payload.len() > 0 {
        assert(stream_with(before, key, payload) =~= stream + payload);
        if still_waits(before, key, payload) && !before.contains_key(key) && before.len()
            >= MAX_FLOWS {
            let victim = choose|victim: FlowKey| makes_room(before, victim, key, payload, after);
            assert(makes_room(before, victim, key, payload, after));
        }
    }
}

} // verus!
