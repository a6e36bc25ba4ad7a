//! Peeling off the layers of a frame: link, IP, then TCP or UDP.
//!
//! Each function takes a slice of raw bytes and gives a part of it back,
//! without ever copying.

use vstd::prelude::*;
use vstd::slice::slice_subrange;

use crate::bytes;
use crate::ip;
use crate::ip::IpAddr;

verus! {

/// The number of TCP in an IP header.
pub const PROTO_TCP: u8 = 6;

/// The number of UDP in an IP header.
pub const PROTO_UDP: u8 = 17;

/// How many extension headers of an IPv6 packet are looked through.
pub const MAX_EXTENSIONS: usize = 4;

/// The header of the link layer that the captured interface presents.
#[derive(Debug, Clone, Copy, PartialEq, Eq, Structural)]
pub enum LinkType {
    /// `DLT_NULL` / `DLT_LOOP`: 4 bytes for the family of addresses. What a
    /// `utunN` presents on macOS.
    Null,
    /// `DLT_RAW`: the IP packet comes at once. What a `wg0` presents on Linux.
    Raw,
    /// `DLT_EN10MB`: an Ethernet header of 14 bytes.
    Ethernet,
    /// `DLT_LINUX_SLL`: a "cooked" header of 16 bytes.
    LinuxCooked,
    /// `DLT_LINUX_SLL2`: its second version, of 20 bytes.
    LinuxCooked2,
}

/// The transport protocol that an IP packet carries.
#[derive(Debug, Clone, Copy, PartialEq, Eq, Structural)]
pub enum Transport {
    /// TCP.
    Tcp,
    /// UDP.
    Udp,
}

/// A transport segment taken out of a frame, with its two ends.
#[derive(Debug, PartialEq, Eq)]
pub struct Segment<'a> {
    /// The transport protocol.
    pub protocol: Transport,
    /// Where it comes from.
    pub src: IpAddr,
    /// Where it goes.
    pub dst: IpAddr,
    /// The port it comes from.
    pub src_port: u16,
    /// The port it goes to.
    pub dst_port: u16,
    /// What it carries.
    pub payload: &'a [u8],
}

/// What a segment is.
#[verifier::ext_equal]
pub struct SegmentModel {
    /// The transport protocol.
    pub protocol: Transport,
    /// Where it comes from.
    pub src: IpAddr,
    /// Where it goes.
    pub dst: IpAddr,
    /// The port it comes from.
    pub src_port: u16,
    /// The port it goes to.
    pub dst_port: u16,
    /// What it carries.
    pub payload: Seq<u8>,
}

impl<'a> View for Segment<'a> {
    type V = SegmentModel;

    open spec fn view(&self) -> SegmentModel {
        SegmentModel {
            protocol: self.protocol,
            src: self.src,
            dst: self.dst,
            src_port: self.src_port,
            dst_port: self.dst_port,
            payload: self.payload@,
        }
    }
}

/// What an optional segment is.
pub open spec fn segment_view(r: Option<Segment>) -> Option<SegmentModel> {
    match r {
        Some(s) => Some(s@),
        None => None,
    }
}

/// What an optional slice is.
pub open spec fn slice_view(r: Option<&[u8]>) -> Option<Seq<u8>> {
    match r {
        Some(s) => Some(s@),
        None => None,
    }
}

// ---------------------------------------------------------------------------
// The link layer
// ---------------------------------------------------------------------------

/// The link layer that a `DLT_*` value of libpcap names.
pub open spec fn link_of(value: int) -> Option<LinkType> {
    if value == 0 || value == 108 {
        Some(LinkType::Null)
    } else if value == 1 {
        Some(LinkType::Ethernet)
    } else if value == 12 || value == 14 || value == 101 {
        Some(LinkType::Raw)
    } else if value == 113 {
        Some(LinkType::LinuxCooked)
    } else if value == 276 {
        Some(LinkType::LinuxCooked2)
    } else {
        None
    }
}

/// The size of a link header.
pub open spec fn link_size(link: LinkType) -> int {
    match link {
        LinkType::Null => 4,
        LinkType::Raw => 0,
        LinkType::Ethernet => 14,
        LinkType::LinuxCooked => 16,
        LinkType::LinuxCooked2 => 20,
    }
}

/// What follows the link header of a frame. Ethernet says what that is, and
/// it has to be IP.
pub open spec fn stripped(link: LinkType, frame: Seq<u8>) -> Option<Seq<u8>> {
    if frame.len() < link_size(link) {
        None
    } else if link == LinkType::Ethernet && bytes::be16_at(frame, 12) != 0x0800 && bytes::be16_at(
        frame,
        12,
    ) != 0x86dd {
        None
    } else {
        Some(frame.skip(link_size(link)))
    }
}

impl LinkType {
    /// Reads a `DLT_*` value of libpcap.
    pub fn from_raw(value: i32) -> (r: Option<Self>)
        ensures
            r == link_of(value as int),
    {
        match value {
            0 | 108 => Some(LinkType::Null),
            1 => Some(LinkType::Ethernet),
            12 | 14 | 101 => Some(LinkType::Raw),
            113 => Some(LinkType::LinuxCooked),
            276 => Some(LinkType::LinuxCooked2),
            _ => None,
        }
    }

    /// Takes the link header off, and gives the IP packet.
    pub fn strip(self, frame: &[u8]) -> (r: Option<&[u8]>)
        ensures
            slice_view(r) == stripped(self, frame@),
    {
        let size: usize = match self {
            LinkType::Null => 4,
            LinkType::Raw => 0,
            LinkType::Ethernet => 14,
            LinkType::LinuxCooked => 16,
            LinkType::LinuxCooked2 => 20,
        };
        if frame.len() < size {
            return None;
        }
        if matches!(self, LinkType::Ethernet) {
            // The two bytes of the EtherType come just before the payload.
            let ethertype: u16 = bytes::join16(frame[12], frame[13]);
            if ethertype != 0x0800 && ethertype != 0x86dd {
                return None;
            }
        }
        Some(tail(frame, size))
    }
}

/// The bytes from a position on.
fn tail(data: &[u8], from: usize) -> (r: &[u8])
    requires
        from <= data@.len(),
    ensures
        r@ == data@.skip(from as int),
{
    let r = slice_subrange(data, from, data.len());
    assert(r@ =~= data@.skip(from as int));
    r
}

// ---------------------------------------------------------------------------
// The network layer
// ---------------------------------------------------------------------------

/// What is kept of an IP header.
pub struct IpPacket<'a> {
    /// The number of the protocol carried.
    pub protocol: u8,
    /// Where the packet comes from.
    pub src: IpAddr,
    /// Where it goes.
    pub dst: IpAddr,
    /// What it carries.
    pub payload: &'a [u8],
}

/// What an IP packet is.
#[verifier::ext_equal]
pub struct IpModel {
    /// The number of the protocol carried.
    pub protocol: u8,
    /// Where the packet comes from.
    pub src: IpAddr,
    /// Where it goes.
    pub dst: IpAddr,
    /// What it carries.
    pub payload: Seq<u8>,
}

/// What an optional IP packet is.
pub open spec fn ip_view(r: Option<IpPacket>) -> Option<IpModel> {
    match r {
        Some(p) => Some(
            IpModel { protocol: p.protocol, src: p.src, dst: p.dst, payload: p.payload@ },
        ),
        None => None,
    }
}

/// A number kept between two others.
pub open spec fn clamped(n: int, low: int, high: int) -> int {
    if n < low {
        low
    } else if n > high {
        high
    } else {
        n
    }
}

/// The size of an IPv4 header: its words of 32 bits are counted in it.
pub open spec fn v4_header_size(packet: Seq<u8>) -> int {
    packet[0] as int % 16 * 4
}

/// Where the payload of an IPv4 packet ends: where it says, within what was
/// captured. What follows is padding.
pub open spec fn v4_end(packet: Seq<u8>) -> int {
    clamped(
        bytes::be16_at(packet, 2) as int,
        v4_header_size(packet),
        packet.len() as int,
    )
}

/// An IPv4 packet. A fragment other than the first has no transport header,
/// and is left out.
pub open spec fn v4_packet(packet: Seq<u8>) -> Option<IpModel> {
    let header = v4_header_size(packet);
    if packet.len() == 0 || header < 20 || packet.len() < header {
        None
    } else if bytes::be16_at(packet, 6) as int % 0x2000 != 0 {
        None
    } else {
        Some(
            IpModel {
                protocol: packet[9],
                src: ip::address_of(packet.subrange(12, 16)),
                dst: ip::address_of(packet.subrange(16, 20)),
                payload: packet.subrange(header, v4_end(packet)),
            },
        )
    }
}

/// A number that names an extension header of IPv6.
pub open spec fn is_extension(number: u8) -> bool {
    number == 0 || number == 43 || number == 60
}

/// What stands behind the extension headers of an IPv6 packet, and its
/// number. Each extension starts with the number of what follows it and its
/// own size; none is left to be looked through when `budget` is zero.
pub open spec fn behind_extensions(number: u8, rest: Seq<u8>, budget: nat) -> Option<
    (u8, Seq<u8>),
>
    decreases budget,
{
    if budget == 0 {
        None
    } else if !is_extension(number) {
        Some((number, rest))
    } else if rest.len() < 2 || rest.len() < (rest[1] + 1) * 8 {
        None
    } else {
        behind_extensions(rest[0], rest.skip((rest[1] + 1) * 8), (budget - 1) as nat)
    }
}

/// Where the payload of an IPv6 packet ends.
pub open spec fn v6_end(packet: Seq<u8>) -> int {
    let said = 40 + bytes::be16_at(packet, 4);
    if said < packet.len() {
        said
    } else {
        packet.len() as int
    }
}

/// An IPv6 packet.
pub open spec fn v6_packet(packet: Seq<u8>) -> Option<IpModel> {
    if packet.len() < 40 {
        None
    } else {
        match behind_extensions(
            packet[6],
            packet.subrange(40, v6_end(packet)),
            MAX_EXTENSIONS as nat,
        ) {
            Some((protocol, payload)) => Some(
                IpModel {
                    protocol,
                    src: ip::address_of(packet.subrange(8, 24)),
                    dst: ip::address_of(packet.subrange(24, 40)),
                    payload,
                },
            ),
            None => None,
        }
    }
}

/// An IP packet: its first half byte is its version.
pub open spec fn ip_packet(packet: Seq<u8>) -> Option<IpModel> {
    if packet.len() == 0 {
        None
    } else if packet[0] as int / 16 == 4 {
        v4_packet(packet)
    } else if packet[0] as int / 16 == 6 {
        v6_packet(packet)
    } else {
        None
    }
}

/// The protocol and the payload of an IPv4 or IPv6 packet.
pub fn ip_payload(packet: &[u8]) -> (r: Option<IpPacket<'_>>)
    ensures
        ip_view(r) == ip_packet(packet@),
{
    if packet.len() == 0 {
        return None;
    }
    match packet[0] / 16 {
        4 => ipv4_payload(packet),
        6 => ipv6_payload(packet),
        _ => None,
    }
}

/// The protocol and the payload of an IPv4 packet.
pub fn ipv4_payload(packet: &[u8]) -> (r: Option<IpPacket<'_>>)
    ensures
        ip_view(r) == v4_packet(packet@),
{
    if packet.len() == 0 {
        return None;
    }
    // IHL: the size of the header in words of 32 bits, 5 at least.
    let header_len: usize = (packet[0] % 16) as usize * 4;
    if header_len < 20 || packet.len() < header_len {
        return None;
    }
    let fragment_offset: u16 = bytes::join16(packet[6], packet[7]) % 0x2000;
    if fragment_offset != 0 {
        return None;
    }
    let total_len: usize = bytes::join16(packet[2], packet[3]) as usize;
    let end: usize = if total_len < header_len {
        header_len
    } else if total_len > packet.len() {
        packet.len()
    } else {
        total_len
    };
    Some(
        IpPacket {
            protocol: packet[9],
            src: ip::read_address(slice_subrange(packet, 12, 16)),
            dst: ip::read_address(slice_subrange(packet, 16, 20)),
            payload: slice_subrange(packet, header_len, end),
        },
    )
}

/// The protocol and the payload of an IPv6 packet.
pub fn ipv6_payload(packet: &[u8]) -> (r: Option<IpPacket<'_>>)
    ensures
        ip_view(r) == v6_packet(packet@),
{
    if packet.len() < 40 {
        return None;
    }
    let payload_len: usize = bytes::join16(packet[4], packet[5]) as usize;
    let end: usize = if 40 + payload_len < packet.len() {
        40 + payload_len
    } else {
        packet.len()
    };
    let mut next_header: u8 = packet[6];
    let mut rest: &[u8] = slice_subrange(packet, 40, end);
    let mut budget: usize = MAX_EXTENSIONS;
    let ghost found = behind_extensions(next_header, rest@, budget as nat);
    while budget > 0
        invariant
            packet@.len() >= 40,
            found == behind_extensions(next_header, rest@, budget as nat),
            found == behind_extensions(
                packet@[6],
                packet@.subrange(40, v6_end(packet@)),
                MAX_EXTENSIONS as nat,
            ),
        decreases budget,
    {
        match next_header {
            0 | 43 | 60 => {
                if rest.len() < 2 {
                    return None;
                }
                let len: usize = (rest[1] as usize + 1) * 8;
                if rest.len() < len {
                    return None;
                }
                next_header = rest[0];
                rest = tail(rest, len);
                budget = budget - 1;
            },
            _ => {
                return Some(
                    IpPacket {
                        protocol: next_header,
                        src: ip::read_address(slice_subrange(packet, 8, 24)),
                        dst: ip::read_address(slice_subrange(packet, 24, 40)),
                        payload: rest,
                    },
                );
            },
        }
    }
    None
}

// ---------------------------------------------------------------------------
// The transport layer
// ---------------------------------------------------------------------------

/// The ports and the payload of a UDP datagram. Its length counts the 8 bytes
/// of its header.
pub open spec fn udp_parts(datagram: Seq<u8>) -> Option<(u16, u16, Seq<u8>)> {
    if datagram.len() < 8 {
        None
    } else {
        Some(
            (
                bytes::be16_at(datagram, 0),
                bytes::be16_at(datagram, 2),
                datagram.subrange(
                    8,
                    clamped(bytes::be16_at(datagram, 4) as int, 8, datagram.len() as int),
                ),
            ),
        )
    }
}

/// The size of a TCP header: its options make it vary.
pub open spec fn tcp_header_size(segment: Seq<u8>) -> int {
    segment[12] as int / 16 * 4
}

/// The ports and the payload of a TCP segment.
pub open spec fn tcp_parts(segment: Seq<u8>) -> Option<(u16, u16, Seq<u8>)> {
    if segment.len() < 20 || tcp_header_size(segment) < 20 || tcp_header_size(segment)
        > segment.len() {
        None
    } else {
        Some(
            (
                bytes::be16_at(segment, 0),
                bytes::be16_at(segment, 2),
                segment.skip(tcp_header_size(segment)),
            ),
        )
    }
}

/// What the ports and the payload are.
pub open spec fn ports_view(r: Option<(u16, u16, &[u8])>) -> Option<(u16, u16, Seq<u8>)> {
    match r {
        Some((from, to, payload)) => Some((from, to, payload@)),
        None => None,
    }
}

/// The ports and the payload of a UDP datagram.
pub fn parse_udp(datagram: &[u8]) -> (r: Option<(u16, u16, &[u8])>)
    ensures
        ports_view(r) == udp_parts(datagram@),
{
    if datagram.len() < 8 {
        return None;
    }
    let len: usize = bytes::join16(datagram[4], datagram[5]) as usize;
    let end: usize = if len < 8 {
        8
    } else if len > datagram.len() {
        datagram.len()
    } else {
        len
    };
    Some(
        (
            bytes::join16(datagram[0], datagram[1]),
            bytes::join16(datagram[2], datagram[3]),
            slice_subrange(datagram, 8, end),
        ),
    )
}

/// The ports and the payload of a TCP segment.
pub fn parse_tcp(segment: &[u8]) -> (r: Option<(u16, u16, &[u8])>)
    ensures
        ports_view(r) == tcp_parts(segment@),
{
    if segment.len() < 20 {
        return None;
    }
    let header_len: usize = (segment[12] / 16) as usize * 4;
    if header_len < 20 || header_len > segment.len() {
        return None;
    }
    Some(
        (
            bytes::join16(segment[0], segment[1]),
            bytes::join16(segment[2], segment[3]),
            tail(segment, header_len),
        ),
    )
}

// ---------------------------------------------------------------------------
// The whole
// ---------------------------------------------------------------------------

/// The segment that an IP packet carries.
pub open spec fn ip_segment(packet: Seq<u8>) -> Option<SegmentModel> {
    match ip_packet(packet) {
        None => None,
        Some(p) => {
            let (protocol, parts) = if p.protocol == PROTO_TCP {
                (Transport::Tcp, tcp_parts(p.payload))
            } else if p.protocol == PROTO_UDP {
                (Transport::Udp, udp_parts(p.payload))
            } else {
                (Transport::Udp, None)
            };
            match parts {
                Some((src_port, dst_port, payload)) => Some(
                    SegmentModel { protocol, src: p.src, dst: p.dst, src_port, dst_port, payload },
                ),
                None => None,
            }
        },
    }
}

/// The segment that a frame carries.
pub open spec fn frame_segment(link: LinkType, frame: Seq<u8>) -> Option<SegmentModel> {
    match stripped(link, frame) {
        Some(packet) => ip_segment(packet),
        None => None,
    }
}

/// The TCP or UDP segment of a captured frame, if there is one.
///
/// `None`, silently, for everything else: traffic that is not IP, other
/// protocols, fragments. That is the ordinary case, not an anomaly.
pub fn segment(link: LinkType, frame: &[u8]) -> (r: Option<Segment<'_>>)
    ensures
        segment_view(r) == frame_segment(link, frame@),
{
    let packet = match link.strip(frame) {
        Some(packet) => packet,
        None => {
            return None;
        },
    };
    let carried = match ip_payload(packet) {
        Some(carried) => carried,
        None => {
            return None;
        },
    };
    let (protocol, parts) = if carried.protocol == PROTO_TCP {
        (Transport::Tcp, parse_tcp(carried.payload))
    } else if carried.protocol == PROTO_UDP {
        (Transport::Udp, parse_udp(carried.payload))
    } else {
        return None;
    };
    match parts {
        Some((src_port, dst_port, payload)) => Some(
            Segment {
                protocol,
                src: carried.src,
                dst: carried.dst,
                src_port,
                dst_port,
                payload,
            },
        ),
        None => None,
    }
}

// ---------------------------------------------------------------------------
// Laws
// ---------------------------------------------------------------------------

/// The size that an IP packet gives itself, header included.
pub open spec fn said_size(packet: Seq<u8>) -> int {
    if packet[0] as int / 16 == 6 {
        40 + bytes::be16_at(packet, 4)
    } else {
        bytes::be16_at(packet, 2) as int
    }
}

/// The size of the header of an IP packet, before any extension.
pub open spec fn header_size(packet: Seq<u8>) -> int {
    if packet[0] as int / 16 == 6 {
        40
    } else {
        v4_header_size(packet)
    }
}

/// Bytes that the link layer adds behind a whole packet are never taken for
/// data: with or without them, the same segment is read.
pub proof fn law_padding_is_not_payload(link: LinkType, frame: Seq<u8>, padding: Seq<u8>)
    requires
        stripped(link, frame) matches Some(packet) && 0 < packet.len() && header_size(packet)
            <= packet.len() && said_size(packet) <= packet.len(),
    ensures
        frame_segment(link, frame + padding) == frame_segment(link, frame),
{
    let packet = stripped(link, frame).unwrap();
    let padded = packet + padding;
    assert((frame + padding).skip(link_size(link)) =~= padded);
    if packet[0] as int / 16 == 4 {
        if v4_header_size(packet) >= 20 {
            assert(padded.subrange(12, 16) =~= packet.subrange(12, 16));
            assert(padded.subrange(16, 20) =~= packet.subrange(16, 20));
            assert(padded.subrange(v4_header_size(packet), v4_end(packet)) =~= packet.subrange(
                v4_header_size(packet),
                v4_end(packet),
            ));
        }
    } else if packet[0] as int / 16 == 6 {
        assert(padded.subrange(8, 24) =~= packet.subrange(8, 24));
        assert(padded.subrange(24, 40) =~= packet.subrange(24, 40));
        assert(padded.subrange(40, v6_end(packet)) =~= packet.subrange(40, v6_end(packet)));
    }
}

/// The first bytes of a sequence: so many as are asked for, and no more than
/// there are.
pub open spec fn upto(s: Seq<u8>, count: int) -> Seq<u8> {
    if count <= 0 {
        Seq::empty()
    } else if count < s.len() {
        s.take(count)
    } else {
        s
    }
}

/// A UDP datagram: two ports, the size that it gives itself, a checksum, and
/// what follows.
pub open spec fn udp_bytes(
    src_port: u16,
    dst_port: u16,
    said: u16,
    checksum: Seq<u8>,
    rest: Seq<u8>,
) -> Seq<u8> {
    bytes::be16_bytes(src_port as int) + bytes::be16_bytes(dst_port as int) + bytes::be16_bytes(
        said as int,
    ) + checksum + rest
}

/// A TCP segment: two ports, the sequence numbers, the words of its header
/// with four bits that are reserved, the rest of the header, and what follows.
pub open spec fn tcp_bytes(
    src_port: u16,
    dst_port: u16,
    sequence: Seq<u8>,
    words: int,
    reserved: int,
    flags: Seq<u8>,
    rest: Seq<u8>,
) -> Seq<u8> {
    bytes::be16_bytes(src_port as int) + bytes::be16_bytes(dst_port as int) + sequence + seq![
        (words * 16 + reserved) as u8,
    ] + flags + rest
}

/// An IPv4 packet: the version, the words of its header, the service, the size
/// that it gives itself, the identification, three flags, the offset of the
/// fragment, the lifetime, the protocol, a checksum, the two addresses, the
/// options, and what follows.
pub open spec fn v4_bytes(
    service: u8,
    said: u16,
    id: Seq<u8>,
    flags: int,
    offset: int,
    lifetime: u8,
    protocol: u8,
    checksum: Seq<u8>,
    src: u32,
    dst: u32,
    options: Seq<u8>,
    rest: Seq<u8>,
) -> Seq<u8> {
    seq![(0x40 + 5 + options.len() / 4) as u8, service] + bytes::be16_bytes(said as int) + id
        + bytes::be16_bytes(flags * 0x2000 + offset) + seq![lifetime, protocol] + checksum
        + ip::address_bytes(IpAddr::V4(src)) + ip::address_bytes(IpAddr::V4(dst)) + options + rest
}

/// Of an IPv4 packet put together field by field, the protocol, the two
/// addresses and the data are read: whatever its flags and its options are,
/// and up to the size that it gives itself or to the end of what was captured.
/// It is left out exactly where it is a fragment other than the first.
pub proof fn law_ipv4_reads_back(
    service: u8,
    said: u16,
    id: Seq<u8>,
    flags: int,
    offset: int,
    lifetime: u8,
    protocol: u8,
    checksum: Seq<u8>,
    src: u32,
    dst: u32,
    options: Seq<u8>,
    rest: Seq<u8>,
)
    requires
        id.len() == 2,
        0 <= flags < 8,
        0 <= offset < 0x2000,
        checksum.len() == 2,
        options.len() % 4 == 0,
        options.len() <= 40,
    ensures
        ip_packet(
            v4_bytes(
                service,
                said,
                id,
                flags,
                offset,
                lifetime,
                protocol,
                checksum,
                src,
                dst,
                options,
                rest,
            ),
        ) == (if offset == 0 {
            Some(
                IpModel {
                    protocol,
                    src: IpAddr::V4(src),
                    dst: IpAddr::V4(dst),
                    payload: upto(rest, said - 20 - options.len()),
                },
            )
        } else {
            None
        }),
{
    ip::law_address_bytes_read_back(IpAddr::V4(src));
    ip::law_address_bytes_read_back(IpAddr::V4(dst));
    let from = ip::address_bytes(IpAddr::V4(src));
    let to = ip::address_bytes(IpAddr::V4(dst));
    let packet = v4_bytes(
        service,
        said,
        id,
        flags,
        offset,
        lifetime,
        protocol,
        checksum,
        src,
        dst,
        options,
        rest,
    );
    let header = 20 + options.len() as int;
    let words = 0x40 + 5 + options.len() / 4;
    assert(packet[0] == words as u8);
    assert(words as u8 as int / 16 == 4 && words as u8 as int % 16 * 4 == header);
    let control = flags * 0x2000 + offset;
    assert(packet[2] == (said / 256) as u8 && packet[3] == (said % 256) as u8);
    assert(bytes::be16_at(packet, 2) == said);
    assert(packet[6] == (control / 256) as u8 && packet[7] == (control % 256) as u8);
    assert(bytes::be16_at(packet, 6) == control);
    assert(control % 0x2000 == offset);
    assert(packet[9] == protocol);
    assert(packet.subrange(12, 16) =~= from);
    assert(packet.subrange(16, 20) =~= to);
    assert(packet.len() == header + rest.len());
    assert(packet.subrange(header, v4_end(packet)) =~= upto(rest, said - header));
}

/// An IPv4 packet whose header is cut, or said to be shorter than it can be, is
/// left out; so is a packet of any version but 4 and 6.
pub proof fn law_broken_headers_are_left_out(packet: Seq<u8>, version: int, words: int)
    requires
        0 <= version < 16,
        0 <= words < 16,
        packet.len() > 0 ==> packet[0] == version * 16 + words,
    ensures
        packet.len() == 0 ==> ip_packet(packet) is None,
        version != 4 && version != 6 ==> ip_packet(packet) is None,
        version == 4 && (words < 5 || packet.len() < words * 4) ==> ip_packet(packet) is None,
        version == 6 && packet.len() < 40 ==> ip_packet(packet) is None,
{
}

/// An extension header of IPv6: its number, and what it holds behind its first
/// two bytes.
pub type Extension = (u8, Seq<u8>);

/// The number of the first of some extension headers, or of what follows them.
pub open spec fn first_number(extensions: Seq<Extension>, last: u8) -> u8 {
    if extensions.len() == 0 {
        last
    } else {
        extensions[0].0
    }
}

/// Some extension headers: each has the number of what follows it and its own
/// size, in units of eight bytes without the first.
pub open spec fn extensions_bytes(extensions: Seq<Extension>, last: u8) -> Seq<u8>
    decreases extensions.len(),
{
    if extensions.len() == 0 {
        Seq::empty()
    } else {
        let rest = extensions.skip(1);
        let body = extensions[0].1;
        seq![first_number(rest, last), ((body.len() + 2) / 8 - 1) as u8] + body + extensions_bytes(
            rest,
            last,
        )
    }
}

/// Some extension headers are whole: each is a hop-by-hop, routing or
/// destination header, and fills its units.
pub open spec fn are_extensions(extensions: Seq<Extension>) -> bool {
    forall|i: int|
        0 <= i < extensions.len() ==> {
            let number = (#[trigger] extensions[i]).0;
            let size = extensions[i].1.len() + 2;
            (number == 0 || number == 43 || number == 60) && size % 8 == 0 && size <= 2048
        }
}

/// An IPv6 packet: the version with the class and the flow, the size that it
/// gives to what follows its header, the number of that, the hops left, the two
/// addresses, and what follows.
pub open spec fn v6_bytes(
    class: int,
    flow: Seq<u8>,
    said: u16,
    number: u8,
    hops: u8,
    src: u128,
    dst: u128,
    rest: Seq<u8>,
) -> Seq<u8> {
    seq![(0x60 + class) as u8] + flow + bytes::be16_bytes(said as int) + seq![number, hops]
        + ip::address_bytes(IpAddr::V6(src)) + ip::address_bytes(IpAddr::V6(dst)) + rest
}

/// Up to three extension headers are looked through, and no more.
proof fn lemma_extensions_read_back(
    extensions: Seq<Extension>,
    last: u8,
    data: Seq<u8>,
    budget: nat,
)
    requires
        are_extensions(extensions),
        last != 0 && last != 43 && last != 60,
    ensures
        behind_extensions(
            first_number(extensions, last),
            extensions_bytes(extensions, last) + data,
            budget,
        ) == (if extensions.len() < budget {
            Some((last, data))
        } else {
            None
        }),
    decreases extensions.len(),
{
    let whole = extensions_bytes(extensions, last) + data;
    if extensions.len() == 0 {
        assert(whole =~= data);
    } else if budget > 0 {
        let rest = extensions.skip(1);
        let body = extensions[0].1;
        let size = body.len() + 2;
        let more = extensions_bytes(rest, last) + data;
        assert(are_extensions(rest)) by {
            assert forall|i: int| 0 <= i < rest.len() implies {
                let number = (#[trigger] rest[i]).0;
                let size = rest[i].1.len() + 2;
                (number == 0 || number == 43 || number == 60) && size % 8 == 0 && size <= 2048
            } by {
                assert(rest[i] == extensions[i + 1]);
            }
        }
        lemma_extensions_read_back(rest, last, data, (budget - 1) as nat);
        assert(whole =~= seq![first_number(rest, last), (size / 8 - 1) as u8] + body + more);
        assert(whole[1] == (size / 8 - 1) as u8);
        assert((whole[1] + 1) * 8 == size);
        assert(whole.skip(size as int) =~= more);
    }
}

/// Of an IPv6 packet put together field by field, the protocol, the two
/// addresses and the data are read: whatever follows what it says to hold, and
/// with up to three extension headers in between. With more it is left out.
pub proof fn law_ipv6_reads_back(
    class: int,
    flow: Seq<u8>,
    said: u16,
    hops: u8,
    src: u128,
    dst: u128,
    rest: Seq<u8>,
    extensions: Seq<Extension>,
    protocol: u8,
    data: Seq<u8>,
)
    requires
        0 <= class < 16,
        flow.len() == 3,
        are_extensions(extensions),
        protocol != 0 && protocol != 43 && protocol != 60,
        upto(rest, said as int) == extensions_bytes(extensions, protocol) + data,
    ensures
        ip_packet(
            v6_bytes(
                class,
                flow,
                said,
                first_number(extensions, protocol),
                hops,
                src,
                dst,
                rest,
            ),
        ) == (if extensions.len() <= 3 {
            Some(
                IpModel {
                    protocol,
                    src: IpAddr::V6(src),
                    dst: IpAddr::V6(dst),
                    payload: data,
                },
            )
        } else {
            None
        }),
{
    ip::law_address_bytes_read_back(IpAddr::V6(src));
    ip::law_address_bytes_read_back(IpAddr::V6(dst));
    let from = ip::address_bytes(IpAddr::V6(src));
    let to = ip::address_bytes(IpAddr::V6(dst));
    let number = first_number(extensions, protocol);
    let packet = v6_bytes(class, flow, said, number, hops, src, dst, rest);
    let first = (0x60 + class) as u8;
    assert(packet[0] == first && first as int / 16 == 6);
    assert(packet[4] == (said / 256) as u8 && packet[5] == (said % 256) as u8);
    assert(bytes::be16_at(packet, 4) == said);
    assert(packet[6] == number);
    assert(packet.subrange(8, 24) =~= from);
    assert(packet.subrange(24, 40) =~= to);
    assert(packet.len() == 40 + rest.len());
    assert(packet.subrange(40, v6_end(packet)) =~= upto(rest, said as int));
    lemma_extensions_read_back(extensions, protocol, data, MAX_EXTENSIONS as nat);
}

/// Of a datagram put together field by field, the ports and the data are read,
/// up to the size that it gives itself or to the end of what was captured. One
/// without a whole header is left out.
pub proof fn law_udp_reads_back(
    src_port: u16,
    dst_port: u16,
    said: u16,
    checksum: Seq<u8>,
    rest: Seq<u8>,
    cut: int,
)
    requires
        checksum.len() == 2,
        0 <= cut < 8,
    ensures
        udp_parts(udp_bytes(src_port, dst_port, said, checksum, rest)) == Some(
            (src_port, dst_port, upto(rest, said - 8)),
        ),
        udp_parts(udp_bytes(src_port, dst_port, said, checksum, rest).take(cut)) is None,
{
    let datagram = udp_bytes(src_port, dst_port, said, checksum, rest);
    assert(datagram[0] == (src_port / 256) as u8 && datagram[1] == (src_port % 256) as u8);
    assert(datagram[2] == (dst_port / 256) as u8 && datagram[3] == (dst_port % 256) as u8);
    assert(datagram[4] == (said / 256) as u8 && datagram[5] == (said % 256) as u8);
    assert(bytes::be16_at(datagram, 4) == said);
    let end = clamped(said as int, 8, datagram.len() as int);
    assert(datagram.subrange(8, end) =~= upto(rest, said - 8));
}

/// Of a segment put together field by field, the ports and what follows its
/// header are read, without the options. One whose header is cut, or said to be
/// shorter than it can be, is left out.
pub proof fn law_tcp_reads_back(
    src_port: u16,
    dst_port: u16,
    sequence: Seq<u8>,
    words: int,
    reserved: int,
    flags: Seq<u8>,
    rest: Seq<u8>,
    cut: int,
)
    requires
        sequence.len() == 8,
        0 <= words < 16,
        0 <= reserved < 16,
        flags.len() == 7,
        0 <= cut < 20,
    ensures
        tcp_parts(tcp_bytes(src_port, dst_port, sequence, words, reserved, flags, rest)) == (if 5
            <= words && words * 4 - 20 <= rest.len() {
            Some((src_port, dst_port, rest.skip(words * 4 - 20)))
        } else {
            None
        }),
        tcp_parts(
            tcp_bytes(src_port, dst_port, sequence, words, reserved, flags, rest).take(cut),
        ) is None,
{
    let segment = tcp_bytes(src_port, dst_port, sequence, words, reserved, flags, rest);
    assert(segment[0] == (src_port / 256) as u8 && segment[1] == (src_port % 256) as u8);
    assert(segment[2] == (dst_port / 256) as u8 && segment[3] == (dst_port % 256) as u8);
    assert(segment[12] == (words * 16 + reserved) as u8);
    assert(tcp_header_size(segment) == words * 4);
    if 5 <= words && words * 4 - 20 <= rest.len() {
        assert(segment.skip(words * 4) =~= rest.skip(words * 4 - 20));
    }
}

/// An IP packet that carries TCP or UDP gives a segment between its two
/// addresses and the ports of that; any other gives none.
pub proof fn law_segment_has_both_ends(
    packet: Seq<u8>,
    protocol: u8,
    src: IpAddr,
    dst: IpAddr,
    payload: Seq<u8>,
    src_port: u16,
    dst_port: u16,
    data: Seq<u8>,
)
    requires
        ip_packet(packet) == Some(IpModel { protocol, src, dst, payload }),
    ensures
        protocol == 6 && tcp_parts(payload) == Some((src_port, dst_port, data)) ==> ip_segment(
            packet,
        ) == Some(
            SegmentModel {
                protocol: Transport::Tcp,
                src,
                dst,
                src_port,
                dst_port,
                payload: data,
            },
        ),
        protocol == 17 && udp_parts(payload) == Some((src_port, dst_port, data)) ==> ip_segment(
            packet,
        ) == Some(
            SegmentModel {
                protocol: Transport::Udp,
                src,
                dst,
                src_port,
                dst_port,
                payload: data,
            },
        ),
        protocol != 6 && protocol != 17 ==> ip_segment(packet) is None,
        protocol == 6 && tcp_parts(payload) is None ==> ip_segment(packet) is None,
        protocol == 17 && udp_parts(payload) is None ==> ip_segment(packet) is None,
{
}

/// Whatever header the link puts before a packet, the packet behind it is the
/// one that is read; a frame shorter than that header, and one of Ethernet that
/// says to carry anything but IP, give nothing.
pub proof fn law_link_header_is_taken_off(link: LinkType, header: Seq<u8>, packet: Seq<u8>)
    requires
        header.len() == (match link {
            LinkType::Raw => 0int,
            LinkType::Null => 4,
            LinkType::Ethernet => 14,
            LinkType::LinuxCooked => 16,
            LinkType::LinuxCooked2 => 20,
        }),
    ensures
        link != LinkType::Ethernet ==> frame_segment(link, header + packet) == ip_segment(packet),
        link == LinkType::Ethernet ==> frame_segment(link, header + packet) == (if (header[12]
            == 0x08 && header[13] == 0x00) || (header[12] == 0x86 && header[13] == 0xdd) {
            ip_segment(packet)
        } else {
            None
        }),
        forall|cut: int|
            0 <= cut < header.len() ==> frame_segment(link, #[trigger] header.take(cut)) is None,
{
    let frame = header + packet;
    assert(frame.skip(header.len() as int) =~= packet);
    if link == LinkType::Ethernet {
        assert(frame[12] == header[12] && frame[13] == header[13]);
    }
}

/// What a segment carries is a part of the frame, nothing else.
pub proof fn law_payload_is_part_of_the_frame(link: LinkType, frame: Seq<u8>)
    ensures
        frame_segment(link, frame) matches Some(s) ==> exists|from: int, to: int|
            is_part(s.payload, frame, from, to),
{
    if let Some(s) = frame_segment(link, frame) {
        let packet = stripped(link, frame).unwrap();
        let carried = ip_packet(packet).unwrap();
        let at = link_size(link);
        assert(exists|from: int, to: int| is_part(carried.payload, packet, from, to)) by {
            if packet[0] as int / 16 == 4 {
                assert(is_part(
                    carried.payload,
                    packet,
                    v4_header_size(packet),
                    v4_end(packet),
                ));
            } else {
                let end = v6_end(packet);
                let rest = packet.subrange(40, end);
                lemma_behind_extensions(packet[6], rest, MAX_EXTENSIONS as nat);
                let from = rest.len() - carried.payload.len();
                assert(carried.payload =~= packet.subrange(40 + from, end));
                assert(is_part(carried.payload, packet, 40 + from, end));
            }
        }
        let (from, to) = choose|from: int, to: int| is_part(carried.payload, packet, from, to);
        let inner = if carried.protocol == PROTO_TCP {
            tcp_header_size(carried.payload)
        } else {
            8
        };
        let start = at + from + inner;
        assert(s.payload =~= frame.subrange(start, start + s.payload.len()));
        assert(is_part(s.payload, frame, start, start + s.payload.len() as int));
    }
}

/// A sequence stands in another between two positions.
pub open spec fn is_part(part: Seq<u8>, whole: Seq<u8>, from: int, to: int) -> bool {
    0 <= from <= to <= whole.len() && part == whole.subrange(from, to)
}

/// What stands behind the extensions is the end of what they stand in.
proof fn lemma_behind_extensions(number: u8, rest: Seq<u8>, budget: nat)
    ensures
        behind_extensions(number, rest, budget) matches Some((_, payload)) ==> payload.len()
            <= rest.len() && payload == rest.skip(rest.len() - payload.len()),
    decreases budget,
{
    if budget > 0 {
        if !is_extension(number) {
            assert(rest.skip(0) =~= rest);
        } else if rest.len() >= 2 && rest.len() >= (rest[1] + 1) * 8 {
            let len = (rest[1] + 1) * 8;
            lemma_behind_extensions(rest[0], rest.skip(len), (budget - 1) as nat);
            if let Some((_, payload)) = behind_extensions(number, rest, budget) {
                assert(payload =~= rest.skip(rest.len() - payload.len()));
            }
        }
    }
}

/// The numbers that libpcap gives to link layers: each that is handled has its
/// own, and no other number is handled.
pub proof fn law_link_numbers(value: int)
    ensures
        seq![0int, 108].contains(value) <==> link_of(value) == Some(LinkType::Null),
        seq![1int].contains(value) <==> link_of(value) == Some(LinkType::Ethernet),
        seq![12int, 14, 101].contains(value) <==> link_of(value) == Some(LinkType::Raw),
        seq![113int].contains(value) <==> link_of(value) == Some(LinkType::LinuxCooked),
        seq![276int].contains(value) <==> link_of(value) == Some(LinkType::LinuxCooked2),
{
    assert(seq![0int, 108][0] == 0 && seq![0int, 108][1] == 108);
    assert(seq![1int][0] == 1);
    assert(seq![12int, 14, 101][0] == 12 && seq![12int, 14, 101][1] == 14 && seq![
        12int,
        14,
        101,
    ][2] == 101);
    assert(seq![113int][0] == 113);
    assert(seq![276int][0] == 276);
}

} // verus!
