//! What is made of the frames captured on an interface.

use vstd::prelude::*;

use crate::dns;
use crate::ip::IpAddr;
use crate::report::Observation;
use crate::text;

use super::packet;
use super::packet::{LinkType, Segment, Transport};
use super::reassembly;
use super::reassembly::{ClientHelloTracker, FlowKey};

verus! {

/// The port of the DNS service.
pub const DNS_PORT: u16 = 53;

/// The BPF filter applied in the kernel: only this traffic comes up.
///
/// Two sources of names: DNS queries in clear, and the server name of TLS
/// handshakes, which stays readable where the client encrypts its DNS.
pub const DEFAULT_FILTER: &'static str = "udp port 53 or tcp port 443";

/// How many bytes of a packet are kept: a DNS datagram is covered whole.
pub const SNAPLEN: i32 = 2048;

/// How long libpcap waits for a packet, in milliseconds.
pub const READ_TIMEOUT_MS: i32 = 500;

/// Why nothing can be captured, or nothing any more.
#[derive(Debug)]
pub enum SniffError {
    /// The rights to capture on this device are missing.
    PermissionDenied(String),
    /// The device cannot be opened.
    Open {
        /// The device.
        device: String,
        /// What libpcap says.
        source: String,
    },
    /// The filter was refused.
    Filter {
        /// The filter.
        filter: String,
        /// What libpcap says.
        source: String,
    },
    /// The device presents a link layer that is not handled.
    UnsupportedLink {
        /// The device.
        device: String,
        /// The `DLT_*` value of its link layer.
        dlt: i32,
    },
    /// The capture broke off: what libpcap says.
    Capture(String),
}

/// What to listen to, and what to keep of it.
#[derive(Debug, Clone)]
pub struct SniffConfig {
    /// The system interface to capture (`utun11` on macOS, `wg0` on Linux).
    pub device: String,
    /// The BPF filter, evaluated in the kernel before anything is copied.
    pub filter: String,
}

impl SniffConfig {
    /// The usual filter on this device.
    pub fn new(device: &str) -> (r: Self)
        ensures
            r.device@ == device@,
            r.filter@ == DEFAULT_FILTER@,
    {
        SniffConfig { device: text::copy(device), filter: text::copy(DEFAULT_FILTER) }
    }
}

/// What the capture gave.
pub enum Captured<'a> {
    /// A frame.
    Frame(&'a [u8]),
    /// No frame within [`READ_TIMEOUT_MS`].
    Timeout,
    /// An error: what libpcap says.
    Failed(String),
}

/// What is to be done with what the capture gave.
pub enum Step {
    /// Nothing: capture on.
    Continue,
    /// Print this name, which this client asked for, and capture on.
    Print(String, IpAddr),
    /// Stop with this error.
    Stop(SniffError),
}

/// What libpcap says when it is the rights that are missing.
pub open spec fn says_denied(reason: Seq<char>) -> bool {
    text::occurs("Permission denied"@, reason) || text::occurs("Operation not permitted"@, reason)
}

/// Why a device could not be opened.
///
/// libpcap tells of missing rights only in the text of its error: they are
/// recognised there, so that the user is told what to do about them.
pub fn open_error(device: &str, reason: String) -> (r: SniffError)
    ensures
        if says_denied(reason@) {
            r matches SniffError::PermissionDenied(d) && d@ == device@
        } else {
            r matches SniffError::Open { device: d, source } && d@ == device@ && source@ == reason@
        },
{
    let said = text::chars_of(reason.as_str());
    let denied = text::chars_of("Permission denied");
    let forbidden = text::chars_of("Operation not permitted");
    if text::contains(said.as_slice(), denied.as_slice()) || text::contains(
        said.as_slice(),
        forbidden.as_slice(),
    ) {
        SniffError::PermissionDenied(text::copy(device))
    } else {
        SniffError::Open { device: text::copy(device), source: reason }
    }
}

/// The link layer of a device, from the `DLT_*` value that libpcap gives.
pub fn link_layer(device: &str, dlt: i32) -> (r: Result<LinkType, SniffError>)
    ensures
        match r {
            Ok(link) => packet::link_of(dlt as int) == Some(link),
            Err(e) => packet::link_of(dlt as int) is None && (e matches SniffError::UnsupportedLink {
                device: d,
                dlt: value,
            } && d@ == device@ && value == dlt),
        },
{
    match LinkType::from_raw(dlt) {
        Some(link) => Ok(link),
        None => Err(SniffError::UnsupportedLink { device: text::copy(device), dlt }),
    }
}

/// The name that a datagram asks for, if it is a query to a DNS server.
pub open spec fn asked_name(segment: packet::SegmentModel) -> Option<Seq<char>> {
    if segment.dst_port != DNS_PORT {
        None
    } else {
        match dns::message::query_of(segment.payload) {
            Ok((_, name, _)) => Some(name),
            Err(_) => None,
        }
    }
}

/// The flow of a segment.
pub open spec fn flow_of(segment: packet::SegmentModel) -> FlowKey {
    FlowKey {
        src: segment.src,
        dst: segment.dst,
        src_port: segment.src_port,
        dst_port: segment.dst_port,
    }
}

/// The domain name that a frame carries.
pub open spec fn frame_name(
    link: LinkType,
    frame: Seq<u8>,
    pending: Map<FlowKey, Seq<u8>>,
) -> Option<Seq<char>> {
    match packet::frame_segment(link, frame) {
        None => None,
        Some(segment) => match segment.protocol {
            Transport::Udp => asked_name(segment),
            Transport::Tcp => reassembly::observed_name(
                pending,
                flow_of(segment),
                segment.payload,
            ),
        },
    }
}

/// The handshakes that wait before a frame and after it.
pub open spec fn frame_observed(
    link: LinkType,
    frame: Seq<u8>,
    before: Map<FlowKey, Seq<u8>>,
    after: Map<FlowKey, Seq<u8>>,
) -> bool {
    match packet::frame_segment(link, frame) {
        Some(segment) => if segment.protocol == Transport::Tcp {
            reassembly::observes(before, flow_of(segment), segment.payload, after)
        } else {
            after == before
        },
        None => after == before,
    }
}

/// The domain name that a frame carries, if there is one: that of a DNS query
/// in clear, or the server name of a TLS ClientHello.
pub fn domain_of(link: LinkType, frame: &[u8], tracker: &mut ClientHelloTracker) -> (r: Option<
    String,
>)
    requires
        old(tracker).wf(),
    ensures
        final(tracker).wf(),
        text::option_view(r) == frame_name(link, frame@, old(tracker)@),
        frame_observed(link, frame@, old(tracker)@, final(tracker)@),
{
    match packet::segment(link, frame) {
        None => None,
        Some(segment) => segment_name(&segment, tracker),
    }
}

/// The domain name that a segment carries, if there is one.
fn segment_name(segment: &Segment<'_>, tracker: &mut ClientHelloTracker) -> (r: Option<String>)
    requires
        old(tracker).wf(),
    ensures
        final(tracker).wf(),
        match segment.protocol {
            Transport::Udp => text::option_view(r) == asked_name(segment@) && final(tracker)@
                == old(tracker)@,
            Transport::Tcp => text::option_view(r) == reassembly::observed_name(
                old(tracker)@,
                flow_of(segment@),
                segment.payload@,
            ) && reassembly::observes(
                old(tracker)@,
                flow_of(segment@),
                segment.payload@,
                final(tracker)@,
            ),
        },
{
    match segment.protocol {
        Transport::Udp => dns_name(segment),
        Transport::Tcp => tracker.observe(FlowKey::from(segment), segment.payload),
    }
}

/// The name that a DNS query asks for.
///
/// Responses are left out, or each name would come twice.
pub fn dns_name(segment: &Segment<'_>) -> (r: Option<String>)
    ensures
        text::option_view(r) == asked_name(segment@),
{
    if segment.dst_port != DNS_PORT {
        return None;
    }
    match dns::parse_query(segment.payload) {
        Ok(query) => Some(query.name),
        Err(_) => None,
    }
}

/// What is to be done with a frame: the name that it carries is printed with
/// the client that it comes from.
pub open spec fn prints(
    step: Step,
    link: LinkType,
    frame: Seq<u8>,
    pending: Map<FlowKey, Seq<u8>>,
) -> bool {
    match frame_name(link, frame, pending) {
        Some(name) => step matches Step::Print(printed, client) && printed@ == name
            && packet::frame_segment(link, frame).unwrap().src == client,
        None => step is Continue,
    }
}

/// What is to be done with what the capture gave: a name is printed, the end
/// of a wait is no error, and any other error ends the capture.
pub fn step(link: LinkType, captured: Captured<'_>, tracker: &mut ClientHelloTracker) -> (r: Step)
    requires
        old(tracker).wf(),
    ensures
        final(tracker).wf(),
        match captured {
            Captured::Frame(frame) => {
                &&& prints(r, link, frame@, old(tracker)@)
                &&& frame_observed(link, frame@, old(tracker)@, final(tracker)@)
            },
            Captured::Timeout => r is Continue && final(tracker)@ == old(tracker)@,
            Captured::Failed(reason) => {
                &&& r matches Step::Stop(SniffError::Capture(told))
                &&& told@ == reason@
                &&& final(tracker)@ == old(tracker)@
            },
        },
{
    match captured {
        Captured::Frame(frame) => match packet::segment(link, frame) {
            Some(segment) => match segment_name(&segment, tracker) {
                Some(name) => Step::Print(name, segment.src),
                None => Step::Continue,
            },
            None => Step::Continue,
        },
        Captured::Timeout => Step::Continue,
        Captured::Failed(reason) => Step::Stop(SniffError::Capture(reason)),
    }
}

/// What is reported of a name that was printed: an observation, where the
/// cache knows the name. `known` is what the cache says, `None` where it gives
/// no reply.
pub fn observation(
    name: &str,
    client: IpAddr,
    known: Option<bool>,
    unix_time: u64,
) -> (r: Option<Observation>)
    ensures
        if known == Some(true) {
            r matches Some(o) && o.domain@ == name@ && o.client == client && o.observed_at
                == unix_time
        } else {
            r is None
        },
{
    match known {
        Some(true) => Some(Observation::now(text::copy(name), client, unix_time)),
        _ => None,
    }
}

// ---------------------------------------------------------------------------
// Laws
// ---------------------------------------------------------------------------

/// A name asked for is seen once: the query shows it, the response does not.
pub proof fn law_responses_yield_nothing(
    link: LinkType,
    frame: Seq<u8>,
    pending: Map<FlowKey, Seq<u8>>,
)
    requires
        packet::frame_segment(link, frame) matches Some(segment) && segment.protocol
            == Transport::Udp && segment.payload.len() >= dns::message::HEADER_LEN
            && segment.payload[2] >= 0x80,
    ensures
        frame_name(link, frame, pending) is None,
{
}

/// Whatever a frame holds, the name printed of it is made of visible ASCII: a
/// terminal finds nothing to interpret in it.
pub proof fn law_printed_name_is_visible(
    link: LinkType,
    frame: Seq<u8>,
    pending: Map<FlowKey, Seq<u8>>,
)
    ensures
        frame_name(link, frame, pending) matches Some(name) ==> crate::name::all_visible(name),
{
    if let Some(segment) = packet::frame_segment(link, frame) {
        dns::message::law_query_name_is_visible(segment.payload);
        crate::tls::client_hello::law_host_is_visible(
            reassembly::stream_with(pending, flow_of(segment), segment.payload),
        );
    }
}

/// A name is read of a frame only where it is DNS over UDP, or TCP: anything
/// else, and anything that is not understood, yields nothing and changes
/// nothing.
pub proof fn law_other_traffic_yields_nothing(
    link: LinkType,
    frame: Seq<u8>,
    before: Map<FlowKey, Seq<u8>>,
    after: Map<FlowKey, Seq<u8>>,
)
    requires
        frame_observed(link, frame, before, after),
        match packet::frame_segment(link, frame) {
            Some(segment) => segment.protocol == Transport::Udp && segment.dst_port != DNS_PORT,
            None => true,
        },
    ensures
        frame_name(link, frame, before) is None,
        after == before,
{
}

/// A flow is told by its two addresses and its two ports, and by all of them:
/// two segments belong to one flow exactly where all four agree.
pub proof fn law_flow_is_its_four_ends(a: packet::SegmentModel, b: packet::SegmentModel)
    ensures
        flow_of(a) == flow_of(b) <==> a.src == b.src && a.dst == b.dst && a.src_port == b.src_port
            && a.dst_port == b.dst_port,
        flow_of(a).src == a.src && flow_of(a).dst == a.dst,
        flow_of(a).src_port == a.src_port && flow_of(a).dst_port == a.dst_port,
{
}

/// A link header of its size, which says to carry IP where it says anything.
pub open spec fn is_ip_header(link: LinkType, header: Seq<u8>) -> bool {
    match link {
        LinkType::Raw => header.len() == 0,
        LinkType::Null => header.len() == 4,
        LinkType::LinuxCooked => header.len() == 16,
        LinkType::LinuxCooked2 => header.len() == 20,
        LinkType::Ethernet => header.len() == 14 && ((header[12] == 0x08 && header[13] == 0x00) || (
        header[12] == 0x86 && header[13] == 0xdd)),
    }
}

/// A DNS query in an IP packet behind any link header is seen: the name printed
/// shows the very labels asked for, and the client is the sender of the packet.
/// The same datagram to any port but 53 yields nothing.
pub proof fn law_query_in_a_frame_is_seen(
    step: Step,
    link: LinkType,
    link_header: Seq<u8>,
    ip_packet: Seq<u8>,
    src: IpAddr,
    dst: IpAddr,
    src_port: u16,
    dst_port: u16,
    said: u16,
    checksum: Seq<u8>,
    rest: Seq<u8>,
    id: u16,
    header: Seq<u8>,
    labels: Seq<Seq<u8>>,
    qtype: u16,
    more: Seq<u8>,
    pending: Map<FlowKey, Seq<u8>>,
)
    requires
        prints(step, link, link_header + ip_packet, pending),
        is_ip_header(link, link_header),
        packet::ip_packet(ip_packet) == Some(
            packet::IpModel {
                protocol: 17,
                src,
                dst,
                payload: packet::udp_bytes(src_port, dst_port, said, checksum, rest),
            },
        ),
        checksum.len() == 2,
        packet::upto(rest, said - 8) == dns::message::query_bytes(id, header, labels, qtype, more),
        header.len() == 10,
        header[0] < 0x80,
        header[2] + header[3] > 0,
        dns::message::is_name(labels),
    ensures
        dst_port == 53 ==> {
            &&& step matches Step::Print(name, client)
            &&& dns::message::shown_name(name@) == labels
            &&& client == src
        },
        dst_port != 53 ==> step is Continue,
{
    let payload = packet::udp_bytes(src_port, dst_port, said, checksum, rest);
    let data = dns::message::query_bytes(id, header, labels, qtype, more);
    packet::law_link_header_is_taken_off(link, link_header, ip_packet);
    packet::law_udp_reads_back(src_port, dst_port, said, checksum, rest, 0);
    packet::law_segment_has_both_ends(
        ip_packet,
        17,
        src,
        dst,
        payload,
        src_port,
        dst_port,
        data,
    );
    dns::message::law_question_reads_back(id, header, labels, qtype, more);
}

/// A ClientHello in a TCP segment of an IP packet behind any link header is
/// seen: the name printed is the one that it announces, and the client is the
/// sender of the packet.
pub proof fn law_hello_in_a_frame_is_seen(
    step: Step,
    link: LinkType,
    link_header: Seq<u8>,
    ip_packet: Seq<u8>,
    src: IpAddr,
    dst: IpAddr,
    src_port: u16,
    dst_port: u16,
    sequence: Seq<u8>,
    words: int,
    reserved: int,
    flags: Seq<u8>,
    rest: Seq<u8>,
    host: Seq<char>,
    pending: Map<FlowKey, Seq<u8>>,
)
    requires
        prints(step, link, link_header + ip_packet, pending),
        is_ip_header(link, link_header),
        packet::ip_packet(ip_packet) == Some(
            packet::IpModel {
                protocol: 6,
                src,
                dst,
                payload: packet::tcp_bytes(
                    src_port,
                    dst_port,
                    sequence,
                    words,
                    reserved,
                    flags,
                    rest,
                ),
            },
        ),
        sequence.len() == 8,
        5 <= words < 16,
        0 <= reserved < 16,
        flags.len() == 7,
        words * 4 - 20 <= rest.len(),
        crate::tls::client_hello::stream_host(rest.skip(words * 4 - 20)) == Ok::<
            _,
            crate::tls::TlsError,
        >(host),
        !pending.contains_key(FlowKey { src, dst, src_port, dst_port }),
    ensures
        step matches Step::Print(name, client) && name@ == host && client == src,
{
    let payload = packet::tcp_bytes(src_port, dst_port, sequence, words, reserved, flags, rest);
    packet::law_link_header_is_taken_off(link, link_header, ip_packet);
    packet::law_tcp_reads_back(src_port, dst_port, sequence, words, reserved, flags, rest, 0);
    packet::law_segment_has_both_ends(
        ip_packet,
        6,
        src,
        dst,
        payload,
        src_port,
        dst_port,
        rest.skip(words * 4 - 20),
    );
}

/// Missing rights are recognised wherever libpcap tells of them, in either
/// wording, and in no other.
pub proof fn law_missing_rights_are_recognised(before: Seq<char>, after: Seq<char>, said: Seq<char>)
    ensures
        says_denied(before + "Operation not permitted"@ + after),
        says_denied(before + "Permission denied"@ + after),
        says_denied(said) ==> exists|a: Seq<char>, b: Seq<char>|
            said == #[trigger] (a + "Operation not permitted"@ + b) || said == a
                + "Permission denied"@ + b,
{
    text::lemma_occurs(before, "Operation not permitted"@, after);
    text::lemma_occurs(before, "Permission denied"@, after);
    if text::occurs("Operation not permitted"@, said) {
        let (a, b) = text::lemma_occurrence(said, "Operation not permitted"@);
        assert(said == a + "Operation not permitted"@ + b);
    } else if text::occurs("Permission denied"@, said) {
        let (a, b) = text::lemma_occurrence(said, "Permission denied"@);
        assert(said == a + "Permission denied"@ + b);
        assert((a + "Operation not permitted"@ + b).len() >= 0);
    }
}

} // verus!
