//! The DNS relay: it listens, decides, and forwards or denies.
//!
//! The relay listens on the address of the tunnel. For each question the
//! [`Policy`](super::Policy) says whether the name is allowed; where it is
//! not, the client is told that it does not exist and the question never
//! leaves the tunnel.

use vstd::prelude::*;

use crate::fault::{IoFault, IoKind};
use crate::ip;
use crate::ip::{IpAddr, SocketAddr};
use crate::text;

use super::message;
use super::message::Query;
use super::policy;
use super::policy::{
    Decision, Lookup, Memory, Next, Outcome, Policy, Progress, Replies, Verdict,
};

verus! {

/// The port of the DNS service.
pub const DNS_PORT: u16 = 53;

/// The resolver asked for the names that are allowed.
///
/// A public one, and not that of the system: on the machine that holds the
/// tunnel, that may well be this relay, and the question would go in circles.
pub const DEFAULT_UPSTREAM: &'static str = "1.1.1.1:53";

/// How long the upstream may take, in nanoseconds: 3 seconds.
pub const DEFAULT_TIMEOUT: u128 = 3_000_000_000;

/// How many relays run at a time.
pub const DEFAULT_WORKERS: usize = 4;

/// How many questions may wait for a relay before some are thrown away.
pub const DEFAULT_QUEUE: usize = 256;

/// The size of the receive buffer: what clients announce most often.
pub const MAX_DATAGRAM: usize = 4096;

/// Why the relay cannot serve, or not any more.
#[derive(Debug)]
pub enum DnsError {
    /// The address cannot be listened on.
    Bind {
        /// The address.
        addr: SocketAddr,
        /// What the system says.
        source: IoFault,
    },
    /// The upstream cannot be reached.
    Upstream {
        /// The upstream.
        upstream: SocketAddr,
        /// What the system says.
        source: IoFault,
    },
    /// A relay thread cannot be started.
    Spawn(IoFault),
    /// Nothing is received any more.
    Recv(IoFault),
}

/// Where to listen, and whom to forward to.
#[derive(Debug, Clone)]
pub struct DnsConfig {
    /// The address listened on: that of the tunnel, port 53.
    pub bind: SocketAddr,
    /// The resolver asked for the names that are allowed.
    pub upstream: SocketAddr,
    /// How long the upstream may take over a question, in nanoseconds.
    pub timeout: u128,
    /// How many relays run at a time.
    pub workers: usize,
    /// How many questions may wait for a relay.
    pub queue: usize,
    /// Writes a line for each question refused.
    pub verbose: bool,
}

impl DnsConfig {
    /// The usual settings for an address to listen on.
    pub fn new(bind: SocketAddr) -> (r: Self)
        ensures
            r.bind == bind,
            r.upstream == (SocketAddr { ip: IpAddr::V4(0x0101_0101), scope_id: 0, port: 53 }),
            ip::socket_value(DEFAULT_UPSTREAM@) == Some(r.upstream),
            r.timeout == DEFAULT_TIMEOUT,
            r.workers == DEFAULT_WORKERS,
            r.queue == DEFAULT_QUEUE,
            r.verbose,
    {
        proof {
            lemma_default_upstream();
        }
        DnsConfig {
            bind,
            upstream: SocketAddr::new(IpAddr::v4(1, 1, 1, 1), 53),
            timeout: DEFAULT_TIMEOUT,
            workers: DEFAULT_WORKERS,
            queue: DEFAULT_QUEUE,
            verbose: true,
        }
    }

    /// How many relays are started: one at least.
    pub fn relays(&self) -> (r: usize)
        ensures
            r == (if self.workers < 1 {
                1
            } else {
                self.workers as int
            }),
    {
        if self.workers < 1 {
            1
        } else {
            self.workers
        }
    }

    /// How many questions may wait: one at least.
    pub fn capacity(&self) -> (r: usize)
        ensures
            r == (if self.queue < 1 {
                1
            } else {
                self.queue as int
            }),
    {
        if self.queue < 1 {
            1
        } else {
            self.queue
        }
    }

    /// The address that a socket to the upstream is bound to: any, of the same
    /// family.
    pub fn local_address(&self) -> (r: SocketAddr)
        ensures
            r == (SocketAddr {
                ip: if self.upstream.ip is V6 {
                    IpAddr::V6(0)
                } else {
                    IpAddr::V4(0)
                },
                scope_id: 0,
                port: 0,
            }),
    {
        if self.upstream.ip.is_ipv6() {
            SocketAddr::new(IpAddr::V6(0), 0)
        } else {
            SocketAddr::new(IpAddr::V4(0), 0)
        }
    }
}

/// The text of the usual upstream is the address it is taken for.
proof fn lemma_default_upstream()
    ensures
        ip::socket_value(DEFAULT_UPSTREAM@) == Some(
            SocketAddr { ip: IpAddr::V4(0x0101_0101), scope_id: 0, port: 53 },
        ),
{
    reveal_strlit("1.1.1.1:53");
    let a = SocketAddr { ip: IpAddr::V4(0x0101_0101), scope_id: 0, port: 53 };
    reveal_with_fuel(text::numeral, 3);
    assert(ip::socket_text(a) =~= DEFAULT_UPSTREAM@);
    ip::law_v4_socket_reads_back(0x0101_0101, 53);
}

// ---------------------------------------------------------------------------
// Receiving
// ---------------------------------------------------------------------------

/// What the socket gave.
pub enum Received<'a> {
    /// A datagram.
    Datagram(&'a [u8]),
    /// A failure.
    Failed(IoFault),
}

/// What is to be done with it.
pub enum Reception {
    /// Nothing: receive on.
    Ignore,
    /// Decide on this question.
    Question(Query),
    /// Stop with this error.
    Stop(DnsError),
}

/// A failure that concerns a datagram already gone, not the listening.
pub open spec fn is_passing(kind: IoKind) -> bool {
    kind == IoKind::ConnectionRefused || kind == IoKind::Interrupted
}

/// What is to be done with what the socket gave.
///
/// What is neither a query nor readable is answered by silence: a client that
/// speaks badly gets nothing to hold on to.
pub fn reception(received: Received<'_>) -> (r: Reception)
    ensures
        match received {
            Received::Datagram(request) => match message::query_of(request@) {
                Ok((id, name, qtype)) => {
                    &&& r matches Reception::Question(query)
                    &&& query.id == id
                    &&& query.name@ == name
                    &&& query.qtype == qtype
                },
                Err(_) => r is Ignore,
            },
            Received::Failed(fault) => if is_passing(fault.kind) {
                r is Ignore
            } else {
                r == Reception::Stop(DnsError::Recv(fault))
            },
        },
{
    match received {
        Received::Datagram(request) => match message::parse_query(request) {
            Ok(query) => Reception::Question(query),
            Err(_) => Reception::Ignore,
        },
        Received::Failed(fault) => match fault.kind {
            IoKind::ConnectionRefused => Reception::Ignore,
            IoKind::Interrupted => Reception::Ignore,
            _ => Reception::Stop(DnsError::Recv(fault)),
        },
    }
}

// ---------------------------------------------------------------------------
// Dispatching
// ---------------------------------------------------------------------------

/// A question that is allowed, and waits to be put to the upstream.
#[derive(Debug)]
pub struct Relay {
    /// The datagram, as it came.
    pub request: Vec<u8>,
    /// Who asks.
    pub client: SocketAddr,
}

/// What a refused client is sent, and the line that is written of it.
#[derive(Debug)]
pub struct Refusal {
    /// The answer, where one can be made.
    pub response: Option<Vec<u8>>,
    /// The line, where one is wanted.
    pub line: Option<String>,
}

/// What becomes of a question.
pub enum Dispatch {
    /// It is refused.
    Refuse(Refusal),
    /// It goes to a relay.
    Forward(Relay),
}

/// The line that is written of a refused question.
pub open spec fn refusal_line(name: Seq<char>, client: SocketAddr, rule: Seq<char>) -> Seq<char> {
    "NXDOMAIN "@ + name + " ("@ + ip::socket_text(client) + ") — règle: "@ + rule
}

/// A refusal answers a request and says what it should.
pub open spec fn refuses(
    refusal: Refusal,
    request: Seq<u8>,
    client: SocketAddr,
    verbose: bool,
    name: Seq<char>,
    matched: Option<Seq<char>>,
) -> bool {
    &&& match refusal.response {
        Some(response) => message::refusal(request) == Some(response@),
        None => message::refusal(request) is None,
    }
    &&& text::option_view(refusal.line) == (if verbose {
        Some(
            refusal_line(
                name,
                client,
                match matched {
                    Some(rule) => rule,
                    None => name,
                },
            ),
        )
    } else {
        None
    })
}

/// Tells the client that the name does not exist, and notes it.
pub fn deny(
    request: &[u8],
    client: SocketAddr,
    verbose: bool,
    name: &str,
    decision: &Decision,
) -> (r: Refusal)
    ensures
        refuses(r, request@, client, verbose, name@, text::option_view(decision.matched)),
{
    let response = message::nxdomain(request);
    if !verbose {
        return Refusal { response, line: None };
    }
    let mut line = text::copy("NXDOMAIN ");
    line.append(name);
    line.append(" (");
    client.push_to(&mut line);
    line.append(") — règle: ");
    match &decision.matched {
        Some(rule) => line.append(rule.as_str()),
        None => line.append(name),
    }
    Refusal { response, line: Some(line) }
}

/// What becomes of a question, given what was decided on its name.
pub fn dispatch(
    cfg: &DnsConfig,
    request: &[u8],
    client: SocketAddr,
    name: &str,
    decision: &Decision,
) -> (r: Dispatch)
    ensures
        match decision.verdict {
            Verdict::Deny => r matches Dispatch::Refuse(refusal) && refuses(
                refusal,
                request@,
                client,
                cfg.verbose,
                name@,
                text::option_view(decision.matched),
            ),
            Verdict::Resolve => r matches Dispatch::Forward(relay) && relay.request@ == request@
                && relay.client == client,
        },
{
    if decision.denied() {
        return Dispatch::Refuse(deny(request, client, cfg.verbose, name, decision));
    }
    let mut copy: Vec<u8> = Vec::new();
    copy.extend_from_slice(request);
    assert(copy@ =~= request@);
    Dispatch::Forward(Relay { request: copy, client })
}

/// How the queue of the relays took a question.
#[derive(Debug, Clone, Copy, PartialEq, Eq, Structural)]
pub enum Queued {
    /// It waits for a relay.
    Waiting,
    /// The queue is full: the upstream does not keep up.
    Full,
    /// No relay is left.
    Disconnected,
}

/// What follows from how the queue took a question: with a full one it is
/// thrown away, as the network would, and the client asks again; without a
/// relay nothing can be served any more.
pub fn queued(state: Queued) -> (r: Result<bool, DnsError>)
    ensures
        match state {
            Queued::Waiting => r == Ok::<bool, DnsError>(true),
            Queued::Full => r == Ok::<bool, DnsError>(false),
            Queued::Disconnected => r matches Err(DnsError::Recv(fault)) && fault.kind
                == IoKind::BrokenPipe && fault.text@ == "plus aucun relais en vie"@,
        },
{
    match state {
        Queued::Waiting => Ok(true),
        Queued::Full => Ok(false),
        Queued::Disconnected => Err(
            DnsError::Recv(
                IoFault { kind: IoKind::BrokenPipe, text: text::copy("plus aucun relais en vie") },
            ),
        ),
    }
}

// ---------------------------------------------------------------------------
// Serving
// ---------------------------------------------------------------------------

/// A question on which the cache is being asked.
#[derive(Debug)]
pub struct Asking {
    /// The datagram, as the client sent it.
    pub request: Vec<u8>,
    /// Who sent it.
    pub client: SocketAddr,
    /// The name that it asks for.
    pub name: String,
    /// What the cache is asked.
    pub lookup: Lookup,
}

impl Asking {
    /// The search is that for the name.
    pub open spec fn wf(&self) -> bool {
        self.lookup.wf() && self.lookup.name() == text::lowered(self.name@)
    }
}

/// What happens to the relay.
pub enum Event<'a> {
    /// A datagram came in.
    Datagram {
        /// What it holds.
        request: &'a [u8],
        /// Who sent it.
        client: SocketAddr,
    },
    /// Nothing could be received.
    Failed(IoFault),
    /// The cache was asked the question of the lookup.
    Replied {
        /// The question under way.
        asking: Asking,
        /// The reply, `None` where the cache gave none.
        reply: Option<bool>,
    },
    /// A question was handed to the relays, or not.
    Handed {
        /// The name that it asks for.
        name: String,
        /// What became of it.
        state: Queued,
    },
}

/// What the relay does next.
pub enum Action {
    /// It waits for the next datagram.
    Receive,
    /// It asks the cache.
    Ask(Asking),
    /// It refuses a question, then waits for the next datagram.
    Refuse {
        /// Who is refused.
        client: SocketAddr,
        /// What is sent and written.
        refusal: Refusal,
    },
    /// It hands a question to the relays.
    Hand {
        /// The name that it asks for.
        name: String,
        /// The question.
        relay: Relay,
    },
    /// It writes that a question is lost, then waits for the next datagram.
    Abandon(String),
    /// It stops.
    Stop(DnsError),
}

/// What is done about a question, from where the search for a marked name is.
pub open spec fn acts(
    action: Action,
    cfg: DnsConfig,
    request: Seq<u8>,
    client: SocketAddr,
    name: Seq<char>,
    found: Next,
) -> bool {
    match found {
        Next::Done(Some(rule)) => {
            &&& action matches Action::Refuse { client: to, refusal }
            &&& to == client
            &&& refuses(refusal, request, client, cfg.verbose, name, Some(rule))
        },
        Next::Done(None) => {
            &&& action matches Action::Hand { name: asked, relay }
            &&& asked@ == name
            &&& relay.request@ == request
            &&& relay.client == client
        },
        Next::Ask(progress) => {
            &&& action matches Action::Ask(asking)
            &&& asking.wf()
            &&& asking.request@ == request
            &&& asking.client == client
            &&& asking.name@ == name
            &&& asking.lookup.progress() == progress
        },
    }
}

/// The line that is written of a question that is lost.
pub open spec fn loss_line(name: Seq<char>) -> Seq<char> {
    "[dns] file pleine — "@ + name + " abandonné"@
}

/// Where the search for a marked name begins: with what is remembered of the
/// name, or with the cache.
pub open spec fn begun(memory: Memory, name: Seq<char>, ttl: u128, now: u128) -> Next {
    match policy::recalled(memory, name, ttl, now) {
        Some(rule) => Next::Done(rule),
        None => policy::search_from(policy::candidates(name), 0),
    }
}

/// The memory once a search has come to a point.
pub open spec fn kept(memory: Memory, name: Seq<char>, found: Next, now: u128) -> Memory {
    match found {
        Next::Done(rule) => policy::remembered(memory, name, rule, now),
        Next::Ask(_) => memory,
    }
}

/// What is done about a datagram, and what is remembered before and after it.
/// Of a query the name counts in small letters; anything else is passed over.
pub open spec fn receives(
    action: Action,
    cfg: DnsConfig,
    request: Seq<u8>,
    client: SocketAddr,
    before: Memory,
    ttl: u128,
    now: u128,
    after: Memory,
) -> bool {
    match message::query_of(request) {
        Ok((_, name, _)) => {
            let low = text::lowered(name);
            let found = begun(before, low, ttl, now);
            &&& acts(action, cfg, request, client, name, found)
            &&& after == (if policy::recalled(before, low, ttl, now) is Some {
                before
            } else {
                kept(before, low, found, now)
            })
        },
        Err(_) => action is Receive && after == before,
    }
}

/// What is done once the cache has replied about a question, and what is
/// remembered before and after it.
pub open spec fn answers(
    action: Action,
    cfg: DnsConfig,
    asking: Asking,
    reply: Option<bool>,
    before: Memory,
    now: u128,
    after: Memory,
) -> bool {
    let found = policy::next(asking.lookup.names(), asking.lookup.progress(), reply);
    &&& acts(action, cfg, asking.request@, asking.client, asking.name@, found)
    &&& after == kept(before, asking.lookup.name(), found, now)
}

/// Serves questions, step by step.
///
/// The decision is taken where datagrams are received: asking the cache costs
/// less than another thread. What waits for the network is left to the relays.
pub fn serve(cfg: &DnsConfig, policy: &mut Policy, event: Event<'_>, now: u128) -> (r: Action)
    requires
        old(policy).wf(),
        event matches Event::Replied { asking, .. } ==> asking.wf(),
    ensures
        final(policy).wf(),
        final(policy).ttl() == old(policy).ttl(),
        match event {
            Event::Datagram { request, client } => receives(
                r,
                *cfg,
                request@,
                client,
                old(policy).memory(),
                old(policy).ttl(),
                now,
                final(policy).memory(),
            ),
            Event::Failed(fault) => {
                &&& final(policy).memory() == old(policy).memory()
                &&& if is_passing(fault.kind) {
                    r is Receive
                } else {
                    r == Action::Stop(DnsError::Recv(fault))
                }
            },
            Event::Replied { asking, reply } => answers(
                r,
                *cfg,
                asking,
                reply,
                old(policy).memory(),
                now,
                final(policy).memory(),
            ),
            Event::Handed { name, state } => {
                &&& final(policy).memory() == old(policy).memory()
                &&& match state {
                    Queued::Waiting => r is Receive,
                    Queued::Full => r matches Action::Abandon(line) && line@ == loss_line(name@),
                    Queued::Disconnected => r matches Action::Stop(DnsError::Recv(fault))
                        && fault.kind == IoKind::BrokenPipe && fault.text@
                        == "plus aucun relais en vie"@,
                }
            },
        },
{
    match event {
        Event::Datagram { request, client } => match reception(Received::Datagram(request)) {
            Reception::Question(query) => {
                let outcome = policy.decide(query.name.as_str(), now);
                follow(cfg, request, client, query.name, outcome)
            },
            Reception::Ignore => Action::Receive,
            Reception::Stop(e) => Action::Stop(e),
        },
        Event::Failed(fault) => match reception(Received::Failed(fault)) {
            Reception::Stop(e) => Action::Stop(e),
            _ => Action::Receive,
        },
        Event::Replied { asking, reply } => {
            let Asking { request, client, name, lookup } = asking;
            let outcome = policy.answer(lookup, reply, now);
            follow(cfg, request.as_slice(), client, name, outcome)
        },
        Event::Handed { name, state } => match queued(state) {
            Ok(true) => Action::Receive,
            Ok(false) => {
                let mut line = text::copy("[dns] file pleine — ");
                line.append(name.as_str());
                line.append(" abandonné");
                Action::Abandon(line)
            },
            Err(e) => Action::Stop(e),
        },
    }
}

/// What is done about a question, from what the policy says of its name.
fn follow(
    cfg: &DnsConfig,
    request: &[u8],
    client: SocketAddr,
    name: String,
    outcome: Outcome,
) -> (r: Action)
    ensures
        forall|found: Next| #[trigger]
            policy::comes_to(outcome, text::lowered(name@), found) ==> acts(
                r,
                *cfg,
                request@,
                client,
                name@,
                found,
            ),
{
    match outcome {
        Outcome::Decided(decision) => match dispatch(
            cfg,
            request,
            client,
            name.as_str(),
            &decision,
        ) {
            Dispatch::Refuse(refusal) => Action::Refuse { client, refusal },
            Dispatch::Forward(relay) => Action::Hand { name, relay },
        },
        Outcome::Ask(lookup) => {
            let mut copy: Vec<u8> = Vec::new();
            copy.extend_from_slice(request);
            assert(copy@ =~= request@);
            Action::Ask(Asking { request: copy, client, name, lookup })
        },
    }
}

// ---------------------------------------------------------------------------
// Forwarding
// ---------------------------------------------------------------------------

/// What is made of a datagram from the upstream.
#[derive(Debug)]
pub enum Reply {
    /// It answers the question: it goes back to the client.
    Answer,
    /// It is the answer to another question: wait on.
    Wait,
    /// It is not, and the time is over.
    Late(IoFault),
}

/// The identifier of a packet, if it has one.
pub open spec fn id_of(packet: Seq<u8>) -> Option<u16> {
    if packet.len() >= 2 {
        Some(crate::bytes::be16_at(packet, 0))
    } else {
        None
    }
}

/// What is made of a datagram from the upstream, by its identifier and the
/// time that is left.
pub open spec fn forwards(
    r: Reply,
    request: Seq<u8>,
    received: Seq<u8>,
    deadline: u128,
    now: u128,
) -> bool {
    if id_of(received) == id_of(request) {
        r is Answer
    } else if now >= deadline {
        r matches Reply::Late(fault) && fault.kind == IoKind::TimedOut && fault.text@
            == "aucune réponse à la question posée"@
    } else {
        r is Wait
    }
}

/// What is made of a datagram from the upstream.
///
/// One with another identifier answers a question given up, or tries to poison
/// the answer: it is dropped, and the right one is waited for.
pub fn forward(request: &[u8], received: &[u8], deadline: u128, now: u128) -> (r: Reply)
    ensures
        forwards(r, request@, received@, deadline, now),
{
    let matching = match (message::id(received), message::id(request)) {
        (Some(a), Some(b)) => a == b,
        (None, None) => true,
        _ => false,
    };
    if matching {
        Reply::Answer
    } else if now >= deadline {
        Reply::Late(
            IoFault {
                kind: IoKind::TimedOut,
                text: text::copy("aucune réponse à la question posée"),
            },
        )
    } else {
        Reply::Wait
    }
}

// ---------------------------------------------------------------------------
// Laws
// ---------------------------------------------------------------------------

/// A name that is denied never leaves the tunnel.
///
/// Where a cache that replies to all it is asked marks the name or one of its
/// parents, the question is refused and not forwarded; where it is whole, the
/// client is told that the name does not exist. Any other name is forwarded
/// as it came, and not refused.
pub proof fn law_denied_name_stays_in_the_tunnel(
    action: Action,
    cfg: DnsConfig,
    request: Seq<u8>,
    client: SocketAddr,
    name: Seq<char>,
    replies: Replies,
)
    requires
        ({
            let names = policy::candidates(text::lowered(name));
            let start = policy::search_from(names, 0);
            let end = Next::Done(policy::search_result(names, start, replies));
            acts(action, cfg, request, client, name, end)
        }),
    ensures
        ({
            let rule = policy::first_marked(
                policy::candidates(text::lowered(name)),
                0,
                replies,
            );
            &&& rule is Some <==> action is Refuse
            &&& rule is None <==> action is Hand
            &&& rule is None ==> action->relay.request@ == request && action->relay.client
                == client
            &&& rule is Some && (message::question(request) matches Ok((_, end)) && end + 4
                <= request.len()) ==> {
                &&& action->refusal.response matches Some(response)
                &&& id_of(response@) == id_of(request)
                &&& response@[3] as int % 16 == message::RCODE_NXDOMAIN
            }
        }),
{
    policy::law_search_finds_the_first_marked_name(text::lowered(name), replies);
    message::law_refusal_answers_the_query(request);
}

/// A datagram from the upstream goes back to the client exactly where both
/// bytes of its identifier are those of the question. Any other is dropped, and
/// once the time is over that is told.
pub proof fn law_only_the_right_answer_is_given(
    r: Reply,
    request: Seq<u8>,
    received: Seq<u8>,
    deadline: u128,
    now: u128,
)
    requires
        forwards(r, request, received, deadline, now),
        request.len() >= 2,
    ensures
        r is Answer <==> received.len() >= 2 && received[0] == request[0] && received[1]
            == request[1],
        r is Late ==> now >= deadline,
        r is Wait ==> now < deadline,
{
}

/// The identifier of a query is its first two bytes.
pub proof fn law_identifier_reads_back(
    id: u16,
    header: Seq<u8>,
    labels: Seq<Seq<u8>>,
    qtype: u16,
    rest: Seq<u8>,
)
    ensures
        id_of(message::query_bytes(id, header, labels, qtype, rest)) == Some(id),
        id_of(message::query_bytes(id, header, labels, qtype, rest).take(1)) is None,
{
    let packet = message::query_bytes(id, header, labels, qtype, rest);
    assert(packet[0] == (id / 256) as u8 && packet[1] == (id % 256) as u8);
}

/// The line on a refused question tells the name, who asked for it and the
/// marked name that it was refused for.
pub proof fn law_refusal_line_tells_why(name: Seq<char>, client: SocketAddr, rule: Seq<char>)
    ensures
        refusal_line(name, client, rule) == text::joined(
            seq![
                "NXDOMAIN"@,
                name,
                seq!['('] + ip::socket_text(client) + seq![')'],
                "—"@,
                "règle:"@,
                rule,
            ],
            ' ',
        ),
{
    reveal_strlit("NXDOMAIN");
    reveal_strlit("—");
    reveal_strlit("règle:");
    reveal_strlit("NXDOMAIN ");
    reveal_strlit(" (");
    reveal_strlit(") — règle: ");
    let who = seq!['('] + ip::socket_text(client) + seq![')'];
    let words = seq!["NXDOMAIN"@, name, who, "—"@, "règle:"@, rule];
    assert(words.drop_last() =~= words.take(5));
    assert(words.take(5).drop_last() =~= words.take(4));
    assert(words.take(4).drop_last() =~= words.take(3));
    assert(words.take(3).drop_last() =~= words.take(2));
    assert(words.take(2).drop_last() =~= words.take(1));
    assert(text::joined(words.take(1), ' ') == words[0]);
    assert(text::joined(words.take(2), ' ') =~= words[0].push(' ') + words[1]);
    assert(text::joined(words.take(3), ' ') == text::joined(words.take(2), ' ').push(' ') + who);
    assert(text::joined(words.take(4), ' ') == text::joined(words.take(3), ' ').push(' ')
        + words[3]);
    assert(text::joined(words.take(5), ' ') == text::joined(words.take(4), ' ').push(' ')
        + words[4]);
    assert(text::joined(words, ' ') == text::joined(words.take(5), ' ').push(' ') + rule);
    assert(refusal_line(name, client, rule) =~= text::joined(words, ' '));
}

/// Only two kinds of failure are passed over: the others stop the relay.
pub proof fn law_only_passing_failures_are_passed_over(kind: IoKind)
    ensures
        is_passing(kind) <==> (match kind {
            IoKind::ConnectionRefused => true,
            IoKind::Interrupted => true,
            IoKind::NotFound => false,
            IoKind::PermissionDenied => false,
            IoKind::TimedOut => false,
            IoKind::BrokenPipe => false,
            IoKind::Other => false,
        }),
{
}

/// A decision is remembered as soon as it is taken, and a search under way
/// changes nothing that is remembered. A name that is remembered is not asked
/// about; any other is, from itself on.
pub proof fn law_decisions_are_remembered(
    memory: Memory,
    name: Seq<char>,
    rule: Option<Seq<char>>,
    progress: Progress,
    ttl: u128,
    now: u128,
)
    requires
        ttl > 0,
    ensures
        begun(kept(memory, name, Next::Done(rule), now), name, ttl, now) == Next::Done(rule),
        kept(memory, name, Next::Ask(progress), now) == memory,
        !memory.contains_key(name) && name.len() > 0 ==> begun(memory, name, ttl, now) == Next::Ask(
            Progress { at: 0, listed: false },
        ),
        !memory.contains_key(Seq::empty()) ==> begun(memory, Seq::empty(), ttl, now) == Next::Done(
            None,
        ),
{
    policy::law_decision_is_recalled(memory, name, rule, now, ttl, now);
    policy::law_name_is_looked_up_first(name);
}

/// The case of a name does not count: where its spelling in small letters is
/// remembered as denied, the question is refused whatever its case, and where
/// nothing is remembered the cache is asked about the small letters.
pub proof fn law_case_does_not_count(
    action: Action,
    cfg: DnsConfig,
    request: Seq<u8>,
    client: SocketAddr,
    before: Memory,
    ttl: u128,
    now: u128,
    after: Memory,
    name: Seq<char>,
    small: Seq<char>,
)
    requires
        receives(action, cfg, request, client, before, ttl, now, after),
        message::query_of(request) matches Ok((_, n, _)) && n == name,
        name.len() == small.len() > 0,
        forall|i: int|
            0 <= i < name.len() ==> (if "ABCDEFGHIJKLMNOPQRSTUVWXYZ"@.contains(
                #[trigger] name[i],
            ) {
                small[i] as int == name[i] as int + 32
            } else {
                small[i] == name[i]
            }),
    ensures
        policy::recalled(before, small, ttl, now) matches Some(Some(_)) ==> action is Refuse,
        policy::recalled(before, small, ttl, now) matches Some(None) ==> action is Hand,
        policy::recalled(before, small, ttl, now) is None ==> {
            &&& action matches Action::Ask(asking)
            &&& asking.lookup.names() == policy::candidates(small)
            &&& asking.lookup.progress() == (Progress { at: 0, listed: false })
        },
{
    let capitals = "ABCDEFGHIJKLMNOPQRSTUVWXYZ"@;
    reveal_strlit("ABCDEFGHIJKLMNOPQRSTUVWXYZ");
    reveal_strlit("abcdefghijklmnopqrstuvwxyz");
    text::law_capitals_are_made_small(name);
    let low = text::lowered(name);
    assert forall|i: int| 0 <= i < name.len() implies low[i] == small[i] by {
        if capitals.contains(name[i]) {
            let k = choose|k: int| 0 <= k < capitals.len() && capitals[k] == name[i];
            assert(low[i] == "abcdefghijklmnopqrstuvwxyz"@[k]);
            lemma_alphabets(k);
        }
    }
    assert(low =~= small);
    policy::law_name_is_looked_up_first(small);
}

/// A small letter stands 32 behind its capital.
proof fn lemma_alphabets(k: int)
    requires
        0 <= k < 26,
    ensures
        "abcdefghijklmnopqrstuvwxyz"@[k] as int == "ABCDEFGHIJKLMNOPQRSTUVWXYZ"@[k] as int + 32,
{
    reveal_strlit("ABCDEFGHIJKLMNOPQRSTUVWXYZ");
    reveal_strlit("abcdefghijklmnopqrstuvwxyz");
}

/// What is no query is answered by silence, and leaves no trace.
pub proof fn law_other_datagrams_are_ignored(
    action: Action,
    cfg: DnsConfig,
    request: Seq<u8>,
    client: SocketAddr,
    before: Memory,
    ttl: u128,
    now: u128,
    after: Memory,
)
    requires
        receives(action, cfg, request, client, before, ttl, now, after),
        request.len() < 12 || request[2] >= 0x80,
    ensures
        action is Receive,
        after == before,
{
}

/// A refusal is written of exactly where that is wanted, with the marked name
/// that it is for, or the name asked for where none is known. What is sent is
/// the refusal of the very request.
pub proof fn law_refusal_is_noted(
    refusal: Refusal,
    request: Seq<u8>,
    client: SocketAddr,
    verbose: bool,
    name: Seq<char>,
    matched: Option<Seq<char>>,
)
    requires
        refuses(refusal, request, client, verbose, name, matched),
    ensures
        refusal.line is Some <==> verbose,
        verbose && matched is Some ==> text::option_view(refusal.line) == Some(
            refusal_line(name, client, matched.unwrap()),
        ),
        verbose && matched is None ==> text::option_view(refusal.line) == Some(
            refusal_line(name, client, name),
        ),
        refusal.response is Some <==> message::refusal(request) is Some,
        refusal.response matches Some(response) ==> message::refusal(request) == Some(response@),
{
}

/// The line on a question that is lost names it.
pub proof fn law_loss_line_names_the_question(name: Seq<char>)
    ensures
        text::occurs(name, loss_line(name)),
{
    text::lemma_occurs("[dns] file pleine — "@, name, " abandonné"@);
}

/// A name that the cache marks is refused to the client that asked, and that is
/// remembered. Once the last name was looked up in vain, the question is handed
/// on as it came. In between the cache is asked on, about the same question,
/// and nothing is remembered yet.
pub proof fn law_reply_refuses_or_goes_on(
    action: Action,
    cfg: DnsConfig,
    asking: Asking,
    reply: Option<bool>,
    before: Memory,
    now: u128,
    after: Memory,
    ttl: u128,
)
    requires
        answers(action, cfg, asking, reply, before, now, after),
        ttl > 0,
    ensures
        reply == Some(true) ==> {
            &&& action matches Action::Refuse { client, refusal }
            &&& client == asking.client
            &&& policy::recalled(after, asking.lookup.name(), ttl, now) == Some(
                Some(asking.lookup.names()[asking.lookup.progress().at]),
            )
        },
        reply != Some(true) && asking.lookup.progress().at + 1 >= asking.lookup.names().len() && (
        asking.lookup.progress().listed || reply is None) ==> {
            &&& action matches Action::Hand { name, relay }
            &&& name@ == asking.name@
            &&& relay.request@ == asking.request@
            &&& relay.client == asking.client
            &&& policy::recalled(after, asking.lookup.name(), ttl, now) == Some(None::<Seq<char>>)
        },
        reply == Some(false) && !asking.lookup.progress().listed ==> {
            &&& action matches Action::Ask(more)
            &&& more.request@ == asking.request@
            &&& more.client == asking.client
            &&& more.lookup.progress() == (Progress {
                at: asking.lookup.progress().at,
                listed: true,
            })
            &&& after == before
        },
        asking.lookup.progress().at + 1 < asking.lookup.names().len() && ((reply == Some(false)
            && asking.lookup.progress().listed) || reply is None) ==> {
            &&& action matches Action::Ask(more)
            &&& more.request@ == asking.request@
            &&& more.client == asking.client
            &&& more.lookup.progress() == (Progress {
                at: asking.lookup.progress().at + 1,
                listed: false,
            })
            &&& after == before
        },
{
    if let Some(said) = reply {
        assert(said || !said);
    }
    let name = asking.lookup.name();
    let rule = Some(asking.lookup.names()[asking.lookup.progress().at]);
    policy::law_decision_is_recalled(before, name, rule, now, ttl, now);
    policy::law_decision_is_recalled(before, name, None, now, ttl, now);
}

} // verus!
