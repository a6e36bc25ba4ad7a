//! What a report says, and how it gets out.
//!
//! The capture must never wait for the writing: it leaves an observation in a
//! bounded queue, and another thread adds what is known of the client and
//! writes it. Where the queue is full, the report is lost.

use vstd::prelude::*;

use crate::fault::IoFault;
use crate::ip;
use crate::ip::IpAddr;
use crate::text;
use crate::wg::peers;
use crate::wg::{DeviceStatus, PeerStatus, WgError};

use super::json;
use super::json::{Object, Value};

verus! {

/// What the capture hands over.
#[derive(Debug, Clone, PartialEq, Eq)]
pub struct Observation {
    /// The name asked for, escaped.
    pub domain: String,
    /// The address of the sender in the tunnel, which tells its peer.
    pub client: IpAddr,
    /// When it was seen, in seconds since 1970.
    pub observed_at: u64,
}

impl Observation {
    /// An observation made now.
    pub fn now(domain: String, client: IpAddr, unix_time: u64) -> (r: Self)
        ensures
            r.domain == domain,
            r.client == client,
            r.observed_at == unix_time,
    {
        Observation { domain, client, observed_at: unix_time }
    }
}

// ---------------------------------------------------------------------------
// The report
// ---------------------------------------------------------------------------

/// An object without members.
pub open spec fn no_members() -> Seq<char> {
    seq!['{']
}

/// What a report says of a client whose peer is known.
pub open spec fn known_client(object: Seq<char>, peer: peers::PeerModel) -> Seq<char> {
    let key = json::with_member(object, "public_key"@, json::quoted(peer.public_key));
    let endpoint = json::with_member(key, "endpoint"@, json::quoted_or_null(peer.endpoint));
    let allowed = json::with_member(
        endpoint,
        "allowed_ips"@,
        json::quoted_list(peer.allowed_ips),
    );
    let handshake = json::with_member(
        allowed,
        "latest_handshake"@,
        json::number_or_null(peer.latest_handshake),
    );
    let rx = json::with_member(
        handshake,
        "transfer_rx"@,
        text::decimal(peer.transfer_rx as nat),
    );
    let tx = json::with_member(rx, "transfer_tx"@, text::decimal(peer.transfer_tx as nat));
    json::with_member(
        tx,
        "persistent_keepalive"@,
        json::number_or_null(
            match peer.persistent_keepalive {
                Some(seconds) => Some(seconds as u64),
                None => None,
            },
        ),
    )
}

/// What a report says of a client: its address, and its peer or that it is
/// not known.
pub open spec fn client_object(client: IpAddr, peer: Option<peers::PeerModel>) -> Seq<char> {
    let object = json::with_member(
        no_members(),
        "tunnel_ip"@,
        json::quoted(ip::address_text(client)),
    );
    match peer {
        Some(peer) => known_client(object, peer),
        None => json::with_member(
            json::with_member(object, "public_key"@, "null"@),
            "endpoint"@,
            "null"@,
        ),
    }
}

/// What a report says of the interface, where its state could be read.
pub open spec fn server_object(device: Option<DeviceStatus>) -> Seq<char> {
    match device {
        Some(d) => {
            let name = json::with_member(no_members(), "device"@, json::quoted(d.device@));
            let key = json::with_member(name, "public_key"@, json::quoted(d.public_key@));
            let port = json::with_member(
                key,
                "listen_port"@,
                text::decimal(d.listen_port as nat),
            );
            json::with_member(port, "peers"@, text::decimal(d.peers@.len()))
        },
        None => json::with_member(
            json::with_member(no_members(), "device"@, "null"@),
            "public_key"@,
            "null"@,
        ),
    }
}

/// The line of a report on a client with this peer.
pub open spec fn report_text(
    observation: Observation,
    device: Option<DeviceStatus>,
    peer: Option<peers::PeerModel>,
) -> Seq<char> {
    let domain = json::with_member(
        no_members(),
        "domain"@,
        json::quoted(observation.domain@),
    );
    let listed = json::with_member(domain, "listed"@, json::boolean_text(true));
    let at = json::with_member(
        listed,
        "observed_at"@,
        text::decimal(observation.observed_at as nat),
    );
    let client = json::with_member(
        at,
        "client"@,
        client_object(observation.client, peer).push('}'),
    );
    json::with_member(client, "server"@, server_object(device).push('}')).push('}')
}

/// The peer of a client: the one that owns its address on the interface, none
/// where there is no such peer or the interface could not be read.
pub open spec fn is_peer_of(
    peer: Option<peers::PeerModel>,
    device: Option<DeviceStatus>,
    client: IpAddr,
) -> bool {
    match (device, peer) {
        (None, p) => p is None,
        (Some(d), Some(p)) => exists|i: int| #[trigger]
            peers::owns(peers::peer_views(d.peers@), i, client) && p == peers::peer_views(
                d.peers@,
            )[i],
        (Some(d), None) => peers::unowned(peers::peer_views(d.peers@), client),
    }
}

/// What an optional state is.
pub open spec fn device_value(device: Option<&DeviceStatus>) -> Option<DeviceStatus> {
    match device {
        Some(d) => Some(*d),
        None => None,
    }
}

/// A line reports an observation.
pub open spec fn reports(
    line: Seq<char>,
    observation: Observation,
    device: Option<DeviceStatus>,
) -> bool {
    exists|peer: Option<peers::PeerModel>| #[trigger]
        is_peer_of(peer, device, observation.client) && line == report_text(
            observation,
            device,
            peer,
        )
}

/// The line of a report.
///
/// `device` is the state of the interface, absent where it could not be read:
/// the report is made all the same, without a peer.
pub fn payload(observation: &Observation, device: Option<&DeviceStatus>) -> (r: String)
    ensures
        reports(r@, *observation, device_value(device)),
{
    let peer = match device {
        Some(d) => d.peer_for(observation.client),
        None => None,
    };
    let ghost model = match peer {
        Some(p) => Some(p@),
        None => None,
    };
    proof {
        if let Some(d) = device {
            if let Some(p) = peer {
                let views = peers::peer_views(d.peers@);
                let i = choose|i: int| #[trigger]
                    peers::owns(views, i, observation.client) && *p == d.peers@[i];
                assert(peers::owns(views, i, observation.client) && p@ == views[i]);
            }
        }
        assert(is_peer_of(model, device_value(device), observation.client));
    }
    let client = client_part(observation.client, peer);
    let server = server_part(device);
    let mut root = Object::new();
    root.string("domain", observation.domain.as_str()).boolean("listed", true).number(
        "observed_at",
        observation.observed_at,
    );
    root.object("client", client);
    root.object("server", server);
    root.finish()
}

/// What a report says of a client.
fn client_part(client: IpAddr, peer: Option<&PeerStatus>) -> (r: Object)
    ensures
        r.wf(),
        r@ == client_object(
            client,
            match peer {
                Some(p) => Some(p@),
                None => None,
            },
        ),
{
    let mut object = Object::new();
    object.string("tunnel_ip", client.to_string().as_str());
    match peer {
        Some(peer) => {
            let endpoint = match &peer.endpoint {
                Some(address) => Some(address.as_str()),
                None => None,
            };
            let keepalive = match peer.persistent_keepalive {
                Some(seconds) => Some(seconds as u64),
                None => None,
            };
            object.string("public_key", peer.public_key.as_str()).maybe_string(
                "endpoint",
                endpoint,
            ).strings("allowed_ips", peer.allowed_ips.as_slice());
            object.maybe_number("latest_handshake", peer.latest_handshake).number(
                "transfer_rx",
                peer.transfer_rx,
            ).number("transfer_tx", peer.transfer_tx).maybe_number(
                "persistent_keepalive",
                keepalive,
            );
        },
        // An address of no known peer: the collector will see.
        None => {
            object.null("public_key").null("endpoint");
        },
    }
    object
}

/// What a report says of the interface.
fn server_part(device: Option<&DeviceStatus>) -> (r: Object)
    ensures
        r.wf(),
        r@ == server_object(device_value(device)),
{
    let mut object = Object::new();
    match device {
        Some(device) => {
            object.string("device", device.device.as_str()).string(
                "public_key",
                device.public_key.as_str(),
            ).number("listen_port", device.listen_port as u64).number(
                "peers",
                device.peers.len() as u64,
            );
        },
        None => {
            object.null("device").null("public_key");
        },
    }
    object
}

// ---------------------------------------------------------------------------
// The peers
// ---------------------------------------------------------------------------

/// The state of the peers, read again at most once in a while.
///
/// Each reading starts a program; the peers change only as clients connect.
#[derive(Debug)]
pub struct Peers {
    /// The device whose peers are read.
    pub device: String,
    /// How long a state is used again, in nanoseconds.
    pub ttl: u128,
    /// The last state that could be read.
    pub cached: Option<DeviceStatus>,
    /// When the state was last asked for, in nanoseconds.
    pub fetched: Option<u128>,
    /// A failure has been told of, and none has gone well since.
    pub complained: bool,
}

/// The state of the peers has to be asked for again.
pub open spec fn is_old(fetched: Option<u128>, ttl: u128, now: u128) -> bool {
    match fetched {
        Some(at) => (if now >= at {
            now - at
        } else {
            0
        }) >= ttl,
        None => true,
    }
}

/// What a reading of the peers comes to, and what is told of it: a state that
/// could be read replaces the last, and a failure is told of where none was
/// since it last went well.
pub open spec fn refreshes(
    before: Peers,
    now: u128,
    dump: Result<DeviceStatus, WgError>,
    after: Peers,
    told: Option<WgError>,
) -> bool {
    &&& after.device == before.device
    &&& after.ttl == before.ttl
    &&& after.fetched == Some(now)
    &&& match dump {
        Ok(status) => {
            &&& after.cached == Some(status)
            &&& !after.complained
            &&& told is None
        },
        Err(e) => {
            &&& after.cached == before.cached
            &&& after.complained
            &&& told == (if before.complained {
                None
            } else {
                Some(e)
            })
        },
    }
}

impl Peers {
    /// Nothing read yet.
    pub fn new(device: String, ttl: u128) -> (r: Self)
        ensures
            r.device == device,
            r.ttl == ttl,
            r.cached is None,
            r.fetched is None,
            !r.complained,
    {
        Peers { device, ttl, cached: None, fetched: None, complained: false }
    }

    /// Tells whether the state has to be asked for again.
    pub fn is_stale(&self, now: u128) -> (r: bool)
        ensures
            r == is_old(self.fetched, self.ttl, now),
    {
        match self.fetched {
            Some(at) => {
                let age: u128 = if now >= at {
                    now - at
                } else {
                    0
                };
                age >= self.ttl
            },
            None => true,
        }
    }

    /// Takes what `wg show <device> dump` came to. Gives the error back where
    /// it is to be told of: once, until it goes well again.
    ///
    /// The last state that could be read is kept: an interface that restarts
    /// must not take the peers out of the reports.
    pub fn refresh(&mut self, now: u128, dump: Result<DeviceStatus, WgError>) -> (r: Option<
        WgError,
    >)
        ensures
            refreshes(*old(self), now, dump, *final(self), r),
    {
        self.fetched = Some(now);
        match dump {
            Ok(status) => {
                self.cached = Some(status);
                self.complained = false;
                None
            },
            Err(e) => {
                let told = self.complained;
                self.complained = true;
                if told {
                    None
                } else {
                    Some(e)
                }
            },
        }
    }

    /// The last state that could be read.
    pub fn current(&self) -> (r: Option<&DeviceStatus>)
        ensures
            device_value(r) == self.cached,
    {
        match &self.cached {
            Some(status) => Some(status),
            None => None,
        }
    }
}

// ---------------------------------------------------------------------------
// The queue
// ---------------------------------------------------------------------------

/// What became of an observation that the capture handed over.
#[derive(Debug, Clone, Copy, PartialEq, Eq, Structural)]
pub enum Deposit {
    /// Nothing is reported.
    Disabled,
    /// It waits to be written.
    Taken,
    /// The queue is full: the output is slow, or blocked.
    Full,
    /// Nobody writes reports any more.
    Disconnected,
}

/// Tells whether an observation counts among those that were lost.
pub fn is_lost(deposit: Deposit) -> (r: bool)
    ensures
        r == (deposit == Deposit::Full),
{
    deposit == Deposit::Full
}

/// What is said of some lost reports.
pub open spec fn loss_text(lost: u64) -> Option<Seq<char>> {
    if lost > 0 {
        Some(
            "rapport: "@ + text::decimal(lost as nat) + " rapport(s) abandonné(s), file pleine"@,
        )
    } else {
        None
    }
}

/// What is said of the reports lost since the last one: nothing where none
/// was.
pub fn loss_line(lost: u64) -> (r: Option<String>)
    ensures
        text::option_view(r) == loss_text(lost),
{
    if lost == 0 {
        return None;
    }
    let mut line = text::copy("rapport: ");
    text::push_decimal(lost, &mut line);
    line.append(" rapport(s) abandonné(s), file pleine");
    Some(line)
}

// ---------------------------------------------------------------------------
// The output
// ---------------------------------------------------------------------------

/// The output of the reports: a Unix socket where someone listens, otherwise a
/// file that grows.
#[derive(Debug)]
pub struct Sink {
    /// Where it is.
    pub path: String,
    /// It is open.
    pub open: bool,
    /// That it cannot be opened has been told.
    pub complained: bool,
}

/// What happened on the way of a line.
#[derive(Debug)]
pub enum SinkEvent {
    /// A line is to be written.
    Line,
    /// The output was opened, or not.
    Opened {
        /// For the second attempt.
        second: bool,
        /// What came of it.
        result: Result<(), IoFault>,
    },
    /// The line and a line feed were written, or not.
    Written {
        /// At the second attempt.
        second: bool,
        /// What came of it.
        result: Result<(), IoFault>,
    },
}

/// What to do with a line next.
#[derive(Debug)]
pub enum SinkStep {
    /// Open the output.
    Open {
        /// For the second attempt.
        second: bool,
    },
    /// Write the line and a line feed.
    Write {
        /// At the second attempt.
        second: bool,
    },
    /// It is written, or lost.
    Done(Result<(), IoFault>),
}

/// What is said of a failure that has been told of.
pub open spec fn silenced(fault: IoFault, told: IoFault) -> bool {
    told.kind == fault.kind && told.text@ == fault.text@ + " (déjà signalé)"@
}

/// The same failure, told of before.
fn silent(fault: IoFault) -> (r: IoFault)
    ensures
        silenced(fault, r),
{
    let mut said = text::copy(fault.text.as_str());
    said.append(" (déjà signalé)");
    IoFault { kind: fault.kind, text: said }
}

/// What becomes of the output with an event, and what to do next.
pub open spec fn writes(before: Sink, event: SinkEvent, after: Sink, step: SinkStep) -> bool {
    &&& after.path == before.path
    &&& match event {
        SinkEvent::Line => {
            &&& after.open == before.open
            &&& after.complained == before.complained
            &&& if before.open {
                step matches SinkStep::Write { second } && !second
            } else {
                step matches SinkStep::Open { second } && !second
            }
        },
        SinkEvent::Opened { second, result } => match result {
            Ok(_) => {
                &&& after.open
                &&& !after.complained
                &&& step matches SinkStep::Write { second: s }
                &&& s == second
            },
            Err(fault) => {
                &&& after.open == before.open
                &&& after.complained
                &&& step matches SinkStep::Done(Err(told))
                &&& if before.complained {
                    silenced(fault, told)
                } else {
                    told == fault
                }
            },
        },
        SinkEvent::Written { second, result } => {
            &&& after.complained == before.complained
            &&& match result {
                Ok(_) => {
                    &&& after.open == before.open
                    &&& step == SinkStep::Done(Ok(()))
                },
                Err(fault) => {
                    &&& !after.open
                    &&& if second {
                        step == SinkStep::Done(Err(fault))
                    } else {
                        step matches SinkStep::Open { second: s } && s
                    }
                },
            }
        },
    }
}

impl Sink {
    /// An output that is not open yet.
    pub fn new(path: String) -> (r: Self)
        ensures
            r.path == path,
            !r.open,
            !r.complained,
    {
        Sink { path, open: false, complained: false }
    }

    /// Writes a line, step by step, and opens the output again if it was lost.
    ///
    /// A collector that restarts closes the socket: the first attempt fails,
    /// the second has a new connection. After that the line is lost.
    pub fn write_line(&mut self, event: SinkEvent) -> (r: SinkStep)
        ensures
            leads_to(event, r),
            writes(*old(self), event, *final(self), r),
    {
        match event {
            SinkEvent::Line => if self.open {
                SinkStep::Write { second: false }
            } else {
                SinkStep::Open { second: false }
            },
            SinkEvent::Opened { second, result } => match result {
                Ok(_) => {
                    self.open = true;
                    self.complained = false;
                    SinkStep::Write { second }
                },
                Err(fault) => {
                    let quiet = self.complained;
                    self.complained = true;
                    SinkStep::Done(
                        Err(
                            if quiet {
                                silent(fault)
                            } else {
                                fault
                            },
                        ),
                    )
                },
            },
            SinkEvent::Written { second, result } => match result {
                Ok(_) => SinkStep::Done(Ok(())),
                Err(fault) => {
                    self.open = false;
                    if second {
                        SinkStep::Done(Err(fault))
                    } else {
                        SinkStep::Open { second: true }
                    }
                },
            },
        }
    }
}

// ---------------------------------------------------------------------------
// Laws
// ---------------------------------------------------------------------------

/// The members that a report has on a client: its address, and its peer or
/// that it is not known.
pub open spec fn client_members(client: IpAddr, peer: Option<peers::PeerModel>) -> Seq<
    (Seq<char>, Value),
> {
    let address = ("tunnel_ip"@, Value::Text(ip::address_text(client)));
    match peer {
        Some(p) => seq![
            address,
            ("public_key"@, Value::Text(p.public_key)),
            ("endpoint"@, json::maybe_text(p.endpoint)),
            ("allowed_ips"@, json::texts_value(p.allowed_ips)),
            ("latest_handshake"@, json::maybe_count(p.latest_handshake)),
            ("transfer_rx"@, Value::Number(p.transfer_rx as nat)),
            ("transfer_tx"@, Value::Number(p.transfer_tx as nat)),
            (
                "persistent_keepalive"@,
                json::maybe_count(
                    match p.persistent_keepalive {
                        Some(seconds) => Some(seconds as u64),
                        None => None,
                    },
                ),
            ),
        ],
        None => seq![address, ("public_key"@, Value::Null), ("endpoint"@, Value::Null)],
    }
}

/// The members that a report has on the interface, where its state could be
/// read.
pub open spec fn server_members(device: Option<DeviceStatus>) -> Seq<(Seq<char>, Value)> {
    match device {
        Some(d) => seq![
            ("device"@, Value::Text(d.device@)),
            ("public_key"@, Value::Text(d.public_key@)),
            ("listen_port"@, Value::Number(d.listen_port as nat)),
            ("peers"@, Value::Number(d.peers@.len())),
        ],
        None => seq![("device"@, Value::Null), ("public_key"@, Value::Null)],
    }
}

/// The members of a report on a client with this peer.
pub open spec fn report_members(
    observation: Observation,
    device: Option<DeviceStatus>,
    peer: Option<peers::PeerModel>,
) -> Seq<(Seq<char>, Value)> {
    seq![
        ("domain"@, Value::Text(observation.domain@)),
        ("listed"@, Value::Boolean(true)),
        ("observed_at"@, Value::Number(observation.observed_at as nat)),
        ("client"@, Value::Object(client_members(observation.client, peer))),
        ("server"@, Value::Object(server_members(device))),
    ]
}

/// A member is put behind those that are there.
proof fn lemma_put(
    object: Seq<char>,
    members: Seq<(Seq<char>, Value)>,
    upto: int,
    written: Seq<char>,
)
    requires
        0 <= upto < members.len(),
        object == json::opened(members.take(upto)),
        written == json::value_text(members[upto].1),
    ensures
        json::with_member(object, members[upto].0, written) == json::opened(members.take(upto + 1)),
{
    json::law_object_is_its_members(members.take(upto), members[upto].0, members[upto].1);
    assert(members.take(upto).push(members[upto]) =~= members.take(upto + 1));
}

/// A new object has no members.
proof fn lemma_nothing_put(members: Seq<(Seq<char>, Value)>)
    ensures
        no_members() == json::opened(members.take(0)),
{
    assert(members.take(0) =~= Seq::empty());
    assert(json::opened(Seq::empty()) =~= no_members());
}

/// What is written of a client that is not known.
proof fn lemma_unknown_client(client: IpAddr)
    ensures
        client_object(client, None) == json::opened(client_members(client, None)),
{
    let members = client_members(client, None);
    let first = json::quoted(ip::address_text(client));
    let one = json::with_member(no_members(), "tunnel_ip"@, first);
    let two = json::with_member(one, "public_key"@, "null"@);
    lemma_nothing_put(members);
    lemma_put(no_members(), members, 0, first);
    lemma_put(one, members, 1, "null"@);
    lemma_put(two, members, 2, "null"@);
    assert(members.take(3) =~= members);
}

/// What is written of a client that is known.
proof fn lemma_known_client(client: IpAddr, peer: peers::PeerModel)
    ensures
        client_object(client, Some(peer)) == json::opened(client_members(client, Some(peer))),
{
    let members = client_members(client, Some(peer));
    let keepalive = match peer.persistent_keepalive {
        Some(seconds) => Some(seconds as u64),
        None => None,
    };
    json::law_values_are_written(
        Seq::empty(),
        0,
        true,
        peer.endpoint,
        peer.latest_handshake,
        peer.allowed_ips,
        Seq::empty(),
    );
    let address = json::quoted(ip::address_text(client));
    let key = json::quoted(peer.public_key);
    let endpoint = json::quoted_or_null(peer.endpoint);
    let allowed = json::quoted_list(peer.allowed_ips);
    let handshake = json::number_or_null(peer.latest_handshake);
    let rx = text::decimal(peer.transfer_rx as nat);
    let tx = text::decimal(peer.transfer_tx as nat);
    let alive = json::number_or_null(keepalive);
    let o1 = json::with_member(no_members(), "tunnel_ip"@, address);
    let o2 = json::with_member(o1, "public_key"@, key);
    let o3 = json::with_member(o2, "endpoint"@, endpoint);
    let o4 = json::with_member(o3, "allowed_ips"@, allowed);
    let o5 = json::with_member(o4, "latest_handshake"@, handshake);
    let o6 = json::with_member(o5, "transfer_rx"@, rx);
    let o7 = json::with_member(o6, "transfer_tx"@, tx);
    lemma_nothing_put(members);
    lemma_put(no_members(), members, 0, address);
    lemma_put(o1, members, 1, key);
    lemma_put(o2, members, 2, endpoint);
    lemma_put(o3, members, 3, allowed);
    lemma_put(o4, members, 4, handshake);
    lemma_put(o5, members, 5, rx);
    lemma_put(o6, members, 6, tx);
    lemma_put(o7, members, 7, alive);
    assert(members.take(8) =~= members);
}

/// What is written of the interface.
proof fn lemma_server_written(device: Option<DeviceStatus>)
    ensures
        server_object(device) == json::opened(server_members(device)),
{
    let members = server_members(device);
    lemma_nothing_put(members);
    match device {
        Some(d) => {
            let name = json::quoted(d.device@);
            let key = json::quoted(d.public_key@);
            let port = text::decimal(d.listen_port as nat);
            let count = text::decimal(d.peers@.len());
            let o1 = json::with_member(no_members(), "device"@, name);
            let o2 = json::with_member(o1, "public_key"@, key);
            let o3 = json::with_member(o2, "listen_port"@, port);
            lemma_put(no_members(), members, 0, name);
            lemma_put(o1, members, 1, key);
            lemma_put(o2, members, 2, port);
            lemma_put(o3, members, 3, count);
            assert(members.take(4) =~= members);
        },
        None => {
            let o1 = json::with_member(no_members(), "device"@, "null"@);
            lemma_put(no_members(), members, 0, "null"@);
            lemma_put(o1, members, 1, "null"@);
            assert(members.take(2) =~= members);
        },
    }
}

/// What is written of a report.
proof fn lemma_report_written(
    observation: Observation,
    device: Option<DeviceStatus>,
    peer: Option<peers::PeerModel>,
)
    ensures
        report_text(observation, device, peer) == json::opened(
            report_members(observation, device, peer),
        ).push('}'),
{
    let members = report_members(observation, device, peer);
    match peer {
        Some(p) => lemma_known_client(observation.client, p),
        None => lemma_unknown_client(observation.client),
    }
    lemma_server_written(device);
    let domain = json::quoted(observation.domain@);
    let at = text::decimal(observation.observed_at as nat);
    let client = client_object(observation.client, peer).push('}');
    let server = server_object(device).push('}');
    lemma_object_value(client_members(observation.client, peer));
    lemma_object_value(server_members(device));
    let o1 = json::with_member(no_members(), "domain"@, domain);
    let o2 = json::with_member(o1, "listed"@, json::boolean_text(true));
    let o3 = json::with_member(o2, "observed_at"@, at);
    let o4 = json::with_member(o3, "client"@, client);
    lemma_nothing_put(members);
    lemma_put(no_members(), members, 0, domain);
    lemma_put(o1, members, 1, json::boolean_text(true));
    lemma_put(o2, members, 2, at);
    lemma_put(o3, members, 3, client);
    lemma_put(o4, members, 4, server);
    assert(members.take(5) =~= members);
}

/// A finished object is the text of that object.
proof fn lemma_object_value(members: Seq<(Seq<char>, Value)>)
    ensures
        json::opened(members).push('}') == json::value_text(Value::Object(members)),
{
    assert(json::opened(members).push('}') =~= json::value_text(Value::Object(members)));
}

/// A report is one JSON object, which reads back as what is reported: the
/// observation, the peer of the client, and the interface.
pub proof fn law_report_reads_back(
    line: Seq<char>,
    observation: Observation,
    device: Option<DeviceStatus>,
)
    requires
        reports(line, observation, device),
    ensures
        exists|peer: Option<peers::PeerModel>| #[trigger]
            is_peer_of(peer, device, observation.client) && json::read_object(line) == Some(
                report_members(observation, device, peer),
            ),
{
    let peer = choose|peer: Option<peers::PeerModel>| #[trigger]
        is_peer_of(peer, device, observation.client) && line == report_text(
            observation,
            device,
            peer,
        );
    lemma_report_written(observation, device, peer);
    json::law_object_reads_back(report_members(observation, device, peer));
}

/// A report holds on a single line, whatever it reports.
pub proof fn law_report_is_one_line(
    line: Seq<char>,
    observation: Observation,
    device: Option<DeviceStatus>,
)
    requires
        reports(line, observation, device),
    ensures
        json::is_plain(line),
        !line.contains('\n'),
{
    let peer = choose|peer: Option<peers::PeerModel>| #[trigger]
        is_peer_of(peer, device, observation.client) && line == report_text(
            observation,
            device,
            peer,
        );
    lemma_fixed_plain();
    let domain = json::with_member(no_members(), "domain"@, json::quoted(observation.domain@));
    json::law_string_is_plain(observation.domain@);
    json::lemma_member_plain(no_members(), "domain"@, json::quoted(observation.domain@));
    let listed = json::with_member(domain, "listed"@, json::boolean_text(true));
    json::lemma_member_plain(domain, "listed"@, json::boolean_text(true));
    let at = json::with_member(
        listed,
        "observed_at"@,
        text::decimal(observation.observed_at as nat),
    );
    lemma_decimal_plain(observation.observed_at as nat);
    json::lemma_member_plain(
        listed,
        "observed_at"@,
        text::decimal(observation.observed_at as nat),
    );
    let inside = client_object(observation.client, peer).push('}');
    lemma_client_plain(observation.client, peer);
    json::lemma_member_plain(at, "client"@, inside);
    let server = server_object(device).push('}');
    lemma_server_plain(device);
    json::lemma_member_plain(json::with_member(at, "client"@, inside), "server"@, server);
}

/// The fixed texts hold no control character.
proof fn lemma_fixed_plain()
    ensures
        json::is_plain("null"@),
        json::is_plain(json::boolean_text(true)),
        json::is_plain(no_members()),
{
    reveal_strlit("null");
    reveal_strlit("true");
}

/// A number holds no control character.
proof fn lemma_decimal_plain(n: nat)
    ensures
        json::is_plain(text::decimal(n)),
{
    text::lemma_decimal(n);
    let s = text::decimal(n);
    assert forall|i: int| 0 <= i < s.len() implies (#[trigger] s[i]) >= ' ' by {
        assert(text::is_digit(s[i]));
    }
}

/// A string or `null` holds no control character.
proof fn lemma_quoted_or_null_plain(value: Option<Seq<char>>)
    ensures
        json::is_plain(json::quoted_or_null(value)),
{
    lemma_fixed_plain();
    if let Some(s) = value {
        json::law_string_is_plain(s);
    }
}

/// A number or `null` holds no control character.
proof fn lemma_number_or_null_plain(value: Option<u64>)
    ensures
        json::is_plain(json::number_or_null(value)),
{
    lemma_fixed_plain();
    if let Some(n) = value {
        lemma_decimal_plain(n as nat);
    }
}

/// What is said of a client holds no control character.
proof fn lemma_client_plain(client: IpAddr, peer: Option<peers::PeerModel>)
    ensures
        json::is_plain(client_object(client, peer)),
{
    lemma_fixed_plain();
    let address = ip::address_text(client);
    json::law_string_is_plain(address);
    let object = json::with_member(no_members(), "tunnel_ip"@, json::quoted(address));
    json::lemma_member_plain(no_members(), "tunnel_ip"@, json::quoted(address));
    match peer {
        Some(p) => lemma_known_client_plain(object, p),
        None => {
            json::lemma_member_plain(object, "public_key"@, "null"@);
            json::lemma_member_plain(
                json::with_member(object, "public_key"@, "null"@),
                "endpoint"@,
                "null"@,
            );
        },
    }
}

/// What is said of a peer holds no control character.
proof fn lemma_known_client_plain(object: Seq<char>, peer: peers::PeerModel)
    requires
        json::is_plain(object),
    ensures
        json::is_plain(known_client(object, peer)),
{
    let key = json::with_member(object, "public_key"@, json::quoted(peer.public_key));
    json::law_string_is_plain(peer.public_key);
    json::lemma_member_plain(object, "public_key"@, json::quoted(peer.public_key));
    let endpoint = json::with_member(key, "endpoint"@, json::quoted_or_null(peer.endpoint));
    lemma_quoted_or_null_plain(peer.endpoint);
    json::lemma_member_plain(key, "endpoint"@, json::quoted_or_null(peer.endpoint));
    let allowed = json::with_member(
        endpoint,
        "allowed_ips"@,
        json::quoted_list(peer.allowed_ips),
    );
    json::lemma_list_plain(peer.allowed_ips);
    json::lemma_member_plain(endpoint, "allowed_ips"@, json::quoted_list(peer.allowed_ips));
    let handshake = json::with_member(
        allowed,
        "latest_handshake"@,
        json::number_or_null(peer.latest_handshake),
    );
    lemma_number_or_null_plain(peer.latest_handshake);
    json::lemma_member_plain(
        allowed,
        "latest_handshake"@,
        json::number_or_null(peer.latest_handshake),
    );
    let rx = json::with_member(
        handshake,
        "transfer_rx"@,
        text::decimal(peer.transfer_rx as nat),
    );
    lemma_decimal_plain(peer.transfer_rx as nat);
    json::lemma_member_plain(
        handshake,
        "transfer_rx"@,
        text::decimal(peer.transfer_rx as nat),
    );
    lemma_decimal_plain(peer.transfer_tx as nat);
    json::lemma_member_plain(rx, "transfer_tx"@, text::decimal(peer.transfer_tx as nat));
    let tx = json::with_member(rx, "transfer_tx"@, text::decimal(peer.transfer_tx as nat));
    let keepalive = match peer.persistent_keepalive {
        Some(seconds) => Some(seconds as u64),
        None => None,
    };
    lemma_number_or_null_plain(keepalive);
    json::lemma_member_plain(tx, "persistent_keepalive"@, json::number_or_null(keepalive));
}

/// What is said of the interface holds no control character.
proof fn lemma_server_plain(device: Option<DeviceStatus>)
    ensures
        json::is_plain(server_object(device)),
{
    lemma_fixed_plain();
    match device {
        Some(d) => {
            let name = json::with_member(no_members(), "device"@, json::quoted(d.device@));
            json::law_string_is_plain(d.device@);
            json::lemma_member_plain(no_members(), "device"@, json::quoted(d.device@));
            let key = json::with_member(name, "public_key"@, json::quoted(d.public_key@));
            json::law_string_is_plain(d.public_key@);
            json::lemma_member_plain(name, "public_key"@, json::quoted(d.public_key@));
            lemma_decimal_plain(d.listen_port as nat);
            json::lemma_member_plain(key, "listen_port"@, text::decimal(d.listen_port as nat));
            lemma_decimal_plain(d.peers@.len());
            json::lemma_member_plain(
                json::with_member(key, "listen_port"@, text::decimal(d.listen_port as nat)),
                "peers"@,
                text::decimal(d.peers@.len()),
            );
        },
        None => {
            json::lemma_member_plain(no_members(), "device"@, "null"@);
            json::lemma_member_plain(
                json::with_member(no_members(), "device"@, "null"@),
                "public_key"@,
                "null"@,
            );
        },
    }
}

/// How far a line is from its end.
pub open spec fn distance(step: SinkStep) -> int {
    match step {
        SinkStep::Open { second } => if second {
            2
        } else {
            4
        },
        SinkStep::Write { second } => if second {
            1
        } else {
            3
        },
        SinkStep::Done(_) => 0,
    }
}

/// An event is what came of a step.
pub open spec fn comes_of(step: SinkStep, event: SinkEvent) -> bool {
    match step {
        SinkStep::Open { second } => event matches SinkEvent::Opened { second: s, .. } && s
            == second,
        SinkStep::Write { second } => event matches SinkEvent::Written { second: s, .. } && s
            == second,
        SinkStep::Done(_) => false,
    }
}

/// What follows an event on the way of a line.
pub open spec fn leads_to(event: SinkEvent, next: SinkStep) -> bool {
    match event {
        SinkEvent::Line => distance(next) >= 3,
        SinkEvent::Opened { second, result } => match result {
            Ok(_) => next matches SinkStep::Write { second: s } && s == second,
            Err(_) => next matches SinkStep::Done(Err(_)),
        },
        SinkEvent::Written { second, result } => match result {
            Ok(_) => next matches SinkStep::Done(Ok(_)),
            Err(_) => if second {
                next matches SinkStep::Done(Err(_))
            } else {
                next matches SinkStep::Open { second: s } && s
            },
        },
    }
}

/// A line is never retried forever: each step brings it closer to its end, so
/// that it is written twice at most.
pub proof fn law_line_comes_to_an_end(step: SinkStep, event: SinkEvent, next: SinkStep)
    requires
        comes_of(step, event),
        leads_to(event, next),
    ensures
        0 <= distance(next) < distance(step) <= 4,
{
}

/// The peers are read again only once their time has passed: right after a
/// reading they are fresh, until their age reaches the limit.
pub proof fn law_peers_are_reread_after_their_ttl(fetched: u128, ttl: u128, now: u128)
    requires
        now >= fetched,
    ensures
        is_old(Some(fetched), ttl, now) <==> now - fetched >= ttl,
{
}

/// Peers that were never read are to be read, and a clock that went back makes
/// them no older.
pub proof fn law_unread_peers_are_read(fetched: u128, ttl: u128, now: u128)
    requires
        now < fetched,
    ensures
        is_old(None, ttl, now),
        is_old(Some(fetched), ttl, now) <==> ttl == 0,
{
}

/// A failure to read the peers is told once, until it goes well again; the
/// last state that could be read stays meanwhile, and each reading counts for
/// the time that is waited until the next.
pub proof fn law_failure_to_read_is_told_once(
    a: Peers,
    b: Peers,
    c: Peers,
    then: u128,
    now: u128,
    first: Result<DeviceStatus, WgError>,
    second: Result<DeviceStatus, WgError>,
    told_first: Option<WgError>,
    told_second: Option<WgError>,
)
    requires
        refreshes(a, then, first, b, told_first),
        refreshes(b, now, second, c, told_second),
    ensures
        first is Err && second is Err ==> told_second is None && c.cached == a.cached,
        first is Ok && second is Err ==> told_second == Some(second->Err_0) && c.cached == Some(
            first->Ok_0,
        ),
        second is Ok ==> told_second is None && c.cached == Some(second->Ok_0),
        c.device == a.device && c.ttl == a.ttl,
        now >= then ==> (is_old(b.fetched, b.ttl, now) <==> now - then >= a.ttl),
{
}

/// An output that cannot be opened is told of once as it is, and later as told
/// before, until it could be opened; where a writing fails, the output is
/// opened again, and the same line is written once more.
pub proof fn law_closed_output_is_told_once(
    a: Sink,
    b: Sink,
    c: Sink,
    first: IoFault,
    second: IoFault,
    one: bool,
    two: bool,
    step: SinkStep,
    next: SinkStep,
)
    requires
        !a.complained,
        writes(a, SinkEvent::Opened { second: one, result: Err(first) }, b, step),
        writes(b, SinkEvent::Opened { second: two, result: Err(second) }, c, next),
    ensures
        step == SinkStep::Done(Err(first)),
        next matches SinkStep::Done(Err(told)) && told.kind == second.kind && told.text@
            == second.text@ + " (déjà signalé)"@,
        c.path == a.path,
{
}

/// A line is written on the output that is open, or on one that is opened for
/// it. A writing that fails closes the output: the first time it is opened
/// anew, and the second time the line is lost with what went wrong.
pub proof fn law_line_is_written_on_an_open_output(
    before: Sink,
    event: SinkEvent,
    after: Sink,
    step: SinkStep,
    fault: IoFault,
)
    requires
        writes(before, event, after, step),
    ensures
        event is Line ==> (step is Write <==> before.open) && (step is Open <==> !before.open)
            && after.open == before.open,
        event matches SinkEvent::Opened { result: Ok(_), .. } ==> step is Write && after.open
            && !after.complained,
        event matches SinkEvent::Written { result: Ok(_), .. } ==> step == SinkStep::Done(Ok(()))
            && after.open == before.open,
        event == (SinkEvent::Written { second: false, result: Err(fault) }) ==> !after.open && (
        step matches SinkStep::Open { second } && second),
        event == (SinkEvent::Written { second: true, result: Err(fault) }) ==> !after.open && step
            == SinkStep::Done(Err(fault)),
{
}

/// Reports that were lost are counted in what is said of them, and nothing is
/// said where none was.
pub proof fn law_lost_reports_are_counted(lost: u64)
    ensures
        loss_text(0) is None,
        lost > 0 ==> (loss_text(lost) matches Some(line) && text::occurs(
            text::decimal(lost as nat),
            line,
        )),
{
    text::lemma_occurs(
        "rapport: "@,
        text::decimal(lost as nat),
        " rapport(s) abandonné(s), file pleine"@,
    );
}

} // verus!
