//! Frames, the segments they carry, and the names in those.

use perses_mother::dns::message::HEADER_LEN;
use perses_mother::ip::IpAddr;
use perses_mother::sniff::capture::{
    domain_of, link_layer, observation, open_error, step, Captured, Step,
};
use perses_mother::sniff::module::SnifferVars;
use perses_mother::sniff::packet::{PROTO_TCP, PROTO_UDP};
use perses_mother::sniff::reassembly::{MAX_BUFFERED, MAX_FLOWS};
use perses_mother::sniff::{
    segment, ClientHelloTracker, FlowKey, LinkType, SniffConfig, SniffError, Sniffer, Transport,
    DEFAULT_FILTER, DNS_PORT,
};
use perses_mother::tls::client_hello::{
    EXT_SERVER_NAME, HANDSHAKE_CLIENT_HELLO, NAME_TYPE_HOST, RECORD_HANDSHAKE,
};

/// A minimal ClientHello that announces `sni`.
fn client_hello(sni: &str) -> Vec<u8> {
    let mut list = vec![NAME_TYPE_HOST];
    list.extend_from_slice(&(sni.len() as u16).to_be_bytes());
    list.extend_from_slice(sni.as_bytes());

    let mut extension = EXT_SERVER_NAME.to_be_bytes().to_vec();
    extension.extend_from_slice(&(list.len() as u16 + 2).to_be_bytes());
    extension.extend_from_slice(&(list.len() as u16).to_be_bytes());
    extension.extend_from_slice(&list);

    let mut hello = vec![0x03, 0x03];
    hello.extend_from_slice(&[0x00; 32]);
    hello.push(0x00);
    hello.extend_from_slice(&[0x00, 0x02, 0x13, 0x01]);
    hello.extend_from_slice(&[0x01, 0x00]);
    hello.extend_from_slice(&(extension.len() as u16).to_be_bytes());
    hello.extend_from_slice(&extension);

    let mut handshake = vec![HANDSHAKE_CLIENT_HELLO, 0];
    handshake.extend_from_slice(&(hello.len() as u16).to_be_bytes());
    handshake.extend_from_slice(&hello);

    let mut record = vec![RECORD_HANDSHAKE, 0x03, 0x01];
    record.extend_from_slice(&(handshake.len() as u16).to_be_bytes());
    record.extend_from_slice(&handshake);
    record
}

/// `payload` in UDP/IPv4/DLT_NULL, as a `utunN` would give it.
fn null_ipv4_udp(src_port: u16, dst_port: u16, payload: &[u8]) -> Vec<u8> {
    let mut transport = src_port.to_be_bytes().to_vec();
    transport.extend_from_slice(&dst_port.to_be_bytes());
    transport.extend_from_slice(&((8 + payload.len()) as u16).to_be_bytes());
    transport.extend_from_slice(&[0x00, 0x00]);
    transport.extend_from_slice(payload);
    null_ipv4(PROTO_UDP, &transport)
}

/// `payload` in TCP/IPv4/DLT_NULL.
fn null_ipv4_tcp(src_port: u16, dst_port: u16, payload: &[u8]) -> Vec<u8> {
    let mut transport = src_port.to_be_bytes().to_vec();
    transport.extend_from_slice(&dst_port.to_be_bytes());
    transport.extend_from_slice(&[0x00; 8]);
    transport.extend_from_slice(&[0x50, 0x18]); // a header of 20 bytes, ACK+PSH
    transport.extend_from_slice(&[0xFF, 0xFF]);
    transport.extend_from_slice(&[0x00; 4]);
    transport.extend_from_slice(payload);
    null_ipv4(PROTO_TCP, &transport)
}

fn null_ipv4(protocol: u8, transport: &[u8]) -> Vec<u8> {
    let total_len = 20 + transport.len();

    let mut frame = vec![0x02, 0x00, 0x00, 0x00]; // AF_INET
    frame.extend_from_slice(&[0x45, 0x00]); // version 4, IHL 5
    frame.extend_from_slice(&(total_len as u16).to_be_bytes());
    frame.extend_from_slice(&[0x00, 0x00, 0x00, 0x00]);
    frame.extend_from_slice(&[64, protocol]);
    frame.extend_from_slice(&[0x00, 0x00]);
    frame.extend_from_slice(&[10, 8, 0, 2]); // source
    frame.extend_from_slice(&[10, 8, 0, 1]); // destination
    frame.extend_from_slice(transport);
    frame
}

/// A minimal A query for `name`.
fn query(id: u16, name: &str) -> Vec<u8> {
    let mut packet = Vec::with_capacity(HEADER_LEN + name.len() + 6);
    packet.extend_from_slice(&id.to_be_bytes());
    packet.extend_from_slice(&[0x01, 0x00, 0x00, 0x01]);
    packet.extend_from_slice(&[0x00; 6]);
    for label in name.split('.') {
        packet.push(label.len() as u8);
        packet.extend_from_slice(label.as_bytes());
    }
    packet.extend_from_slice(&[0x00, 0x00, 0x01, 0x00, 0x01]);
    packet
}

fn domain(frame: &[u8]) -> Option<String> {
    domain_of(LinkType::Null, frame, &mut ClientHelloTracker::new())
}

fn key(port: u16) -> FlowKey {
    FlowKey {
        src: IpAddr::from_text("10.8.0.2").unwrap(),
        dst: IpAddr::from_text("140.82.121.3").unwrap(),
        src_port: port,
        dst_port: 443,
    }
}

// ---- packets ----

#[test]
fn link_types_map_to_the_right_header_length() {
    assert_eq!(LinkType::from_raw(0), Some(LinkType::Null));
    assert_eq!(LinkType::from_raw(12), Some(LinkType::Raw));
    assert_eq!(LinkType::from_raw(1), Some(LinkType::Ethernet));
    assert_eq!(LinkType::from_raw(113), Some(LinkType::LinuxCooked));
    assert_eq!(LinkType::from_raw(999), None);

    assert_eq!(LinkType::Raw.strip(&[0x45, 0x00]), Some(&[0x45, 0x00][..]));
    assert_eq!(LinkType::Null.strip(&[2, 0, 0, 0, 0x45]), Some(&[0x45][..]));
    assert_eq!(LinkType::Null.strip(&[2, 0]), None, "trame trop courte");
}

#[test]
fn the_other_link_types_are_stripped_too() {
    assert_eq!(LinkType::from_raw(276), Some(LinkType::LinuxCooked2));
    assert_eq!(LinkType::from_raw(-1), None);
    let mut ethernet = vec![0u8; 14];
    ethernet[12] = 0x08;
    ethernet.push(0x45);
    assert_eq!(LinkType::Ethernet.strip(&ethernet), Some(&[0x45][..]));
    ethernet[12] = 0x86;
    ethernet[13] = 0xdd;
    assert_eq!(LinkType::Ethernet.strip(&ethernet), Some(&[0x45][..]));
    ethernet[13] = 0x06;
    assert_eq!(LinkType::Ethernet.strip(&ethernet), None, "ARP");
    assert_eq!(LinkType::LinuxCooked.strip(&[9u8; 17]), Some(&[9][..]));
    assert_eq!(LinkType::LinuxCooked2.strip(&[9u8; 21]), Some(&[9][..]));
}

#[test]
fn extracts_udp_from_a_utun_frame() {
    let frame = null_ipv4_udp(53000, 53, b"charge utile");
    let segment = segment(LinkType::Null, &frame).unwrap();
    assert_eq!(segment.protocol, Transport::Udp);
    assert_eq!(segment.src.to_string(), "10.8.0.2");
    assert_eq!(segment.src_port, 53000);
    assert_eq!(segment.dst_port, 53);
    assert_eq!(segment.payload, b"charge utile");
}

#[test]
fn extracts_tcp_and_skips_its_options() {
    let frame = null_ipv4_tcp(51000, 443, b"salut");
    let parsed = segment(LinkType::Null, &frame).unwrap();
    assert_eq!(parsed.protocol, Transport::Tcp);
    assert_eq!(parsed.dst_port, 443);
    assert_eq!(parsed.payload, b"salut");

    // A header of 24 bytes: 4 bytes of options before the payload.
    let mut with_options = null_ipv4_tcp(51000, 443, &[0xAA; 4]);
    let tcp_at = 4 + 20;
    with_options[tcp_at + 12] = 0x60;
    let parsed = segment(LinkType::Null, &with_options).unwrap();
    assert!(parsed.payload.is_empty(), "les options ne sont pas des données");
}

#[test]
fn ignores_traffic_that_is_neither_tcp_nor_udp() {
    let mut frame = null_ipv4_udp(1, 2, b"x");
    frame[13] = 1; // ICMP
    assert!(segment(LinkType::Null, &frame).is_none());

    let mut frame = null_ipv4_udp(1, 2, b"x");
    frame[4] = 0x75; // IP version 7
    assert!(segment(LinkType::Null, &frame).is_none());
}

#[test]
fn ignores_non_initial_fragments() {
    let mut frame = null_ipv4_udp(1, 53, b"x");
    frame[10] = 0x00;
    frame[11] = 0x02;
    assert!(segment(LinkType::Null, &frame).is_none());
}

#[test]
fn trailing_padding_is_not_mistaken_for_payload() {
    let mut frame = null_ipv4_udp(1, 53, b"utile");
    frame.extend_from_slice(&[0xFF; 16]);
    let datagram = segment(LinkType::Null, &frame).unwrap();
    assert_eq!(datagram.payload, b"utile");
}

#[test]
fn truncated_frames_never_panic() {
    let frame = null_ipv4_udp(1, 53, b"charge");
    for len in 0..frame.len() {
        let _ = segment(LinkType::Null, &frame[..len]);
    }
    let tcp = null_ipv4_tcp(1, 443, b"charge");
    for len in 0..tcp.len() {
        let _ = segment(LinkType::Null, &tcp[..len]);
    }
}

/// UDP over IPv6 with these extension headers before it.
fn ipv6_udp(first: u8, extensions: &[u8]) -> Vec<u8> {
    let mut frame = vec![0x02, 0x00, 0x00, 0x00];
    frame.push(0x60); // version 6
    frame.extend_from_slice(&[0x00; 3]);
    frame.extend_from_slice(&[0x00, 0x0D + extensions.len() as u8]);
    frame.push(first);
    frame.push(64);
    frame.extend_from_slice(&[0x00; 32]);
    frame.extend_from_slice(extensions);
    frame.extend_from_slice(&[0x00, 0x35, 0x00, 0x35, 0x00, 0x0D, 0x00, 0x00]);
    frame.extend_from_slice(b"abcde");
    frame
}

#[test]
fn reads_udp_over_ipv6() {
    let frame = ipv6_udp(17, &[]);
    let datagram = segment(LinkType::Null, &frame).unwrap();
    assert_eq!(datagram.dst_port, 53);
    assert_eq!(datagram.payload, b"abcde");
    assert!(datagram.src.is_ipv6());
}

#[test]
fn looks_through_three_extension_headers_of_ipv6_and_no_more() {
    let one = [60, 0, 0, 0, 0, 0, 0, 0];
    let last = [17, 0, 0, 0, 0, 0, 0, 0];
    let three = [one, one, last].concat();
    let frame = ipv6_udp(0, &three);
    assert_eq!(segment(LinkType::Null, &frame).unwrap().payload, b"abcde");
    let four = [one, one, one, last].concat();
    assert!(segment(LinkType::Null, &ipv6_udp(43, &four)).is_none());
}

// ---- handshakes ----

#[test]
fn reads_a_client_hello_that_fits_in_one_segment() {
    let mut tracker = ClientHelloTracker::new();
    let name = tracker.observe(key(51000), &client_hello("github.com"));
    assert_eq!(name.as_deref(), Some("github.com"));
    assert_eq!(tracker.pending_flows(), 0, "rien ne doit rester en attente");
}

#[test]
fn reassembles_a_client_hello_split_by_the_mtu() {
    let hello = client_hello("api.github.com");
    let (first, second) = hello.split_at(hello.len() / 2);

    let mut tracker = ClientHelloTracker::new();
    assert_eq!(tracker.observe(key(51001), first), None);
    assert_eq!(tracker.pending_flows(), 1);
    assert_eq!(
        tracker.observe(key(51001), second).as_deref(),
        Some("api.github.com")
    );
    assert_eq!(tracker.pending_flows(), 0);
}

#[test]
fn keeps_concurrent_handshakes_apart() {
    let github = client_hello("github.com");
    let crates = client_hello("crates.io");
    let (g1, g2) = github.split_at(20);
    let (c1, c2) = crates.split_at(20);

    let mut tracker = ClientHelloTracker::new();
    tracker.observe(key(51002), g1);
    tracker.observe(key(51003), c1);
    assert_eq!(tracker.pending_flows(), 2);
    assert_eq!(
        tracker.observe(key(51003), c2).as_deref(),
        Some("crates.io")
    );
    assert_eq!(
        tracker.observe(key(51002), g2).as_deref(),
        Some("github.com")
    );
}

#[test]
fn other_traffic_between_two_segments_changes_nothing() {
    let hello = client_hello("api.github.com");
    let mut tracker = ClientHelloTracker::new();
    for part in hello[..hello.len() - 1].chunks(20) {
        assert_eq!(tracker.observe(key(51009), part), None);
        // An empty segment, a whole handshake, the start of one, and noise.
        assert_eq!(tracker.observe(key(51009), &[]), None);
        assert_eq!(
            tracker.observe(key(51010), &client_hello("crates.io")).as_deref(),
            Some("crates.io")
        );
        tracker.observe(key(51011), &hello[..10]);
        assert_eq!(tracker.observe(key(51012), &[0x17, 0x03, 0x03]), None);
    }
    assert_eq!(
        tracker.observe(key(51009), &hello[hello.len() - 1..]).as_deref(),
        Some("api.github.com")
    );
}

#[test]
fn application_data_is_not_tracked() {
    let mut tracker = ClientHelloTracker::new();
    assert_eq!(tracker.observe(key(51004), &[0x17, 0x03, 0x03, 0x00, 0x05]), None);
    assert_eq!(tracker.pending_flows(), 0, "un flux déjà chiffré est lâché");
}

#[test]
fn memory_stays_bounded_under_a_flood() {
    let mut tracker = ClientHelloTracker::new();
    let partial = &client_hello("example.com")[..10];
    for port in 0..(MAX_FLOWS as u16 * 2) {
        tracker.observe(key(port), partial);
    }
    assert!(tracker.pending_flows() <= MAX_FLOWS);
}

#[test]
fn a_flow_that_never_completes_is_dropped_past_the_limit() {
    let mut tracker = ClientHelloTracker::new();
    let hello = client_hello("example.com");
    tracker.observe(key(51005), &hello[..10]);
    for _ in 0..3 {
        tracker.observe(key(51005), &vec![0u8; MAX_BUFFERED / 2]);
    }
    assert_eq!(tracker.pending_flows(), 0);
}

#[test]
fn no_more_is_kept_of_a_first_segment_than_the_limit() {
    let mut tracker = ClientHelloTracker::new();
    // A record that announces more than it has brought.
    let mut first = vec![RECORD_HANDSHAKE, 0x03, 0x01, 0xFF, 0xFF];
    first.resize(MAX_BUFFERED + 1, 0);
    assert_eq!(tracker.observe(key(51007), &first), None);
    assert_eq!(tracker.pending_flows(), 0);
    first.truncate(MAX_BUFFERED);
    assert_eq!(tracker.observe(key(51007), &first), None);
    assert_eq!(tracker.pending_flows(), 1);
    assert_eq!(tracker.observe(key(51007), &[0]), None);
    assert_eq!(tracker.pending_flows(), 0);

    // One that is whole gives its name, however much follows it.
    let mut hello = client_hello("github.com");
    hello.resize(MAX_BUFFERED + 1, 0);
    assert_eq!(tracker.observe(key(51008), &hello).as_deref(), Some("github.com"));
    assert_eq!(tracker.pending_flows(), 0);
}

#[test]
fn a_client_hello_byte_by_byte_is_reassembled() {
    let hello = client_hello("github.com");
    let mut tracker = ClientHelloTracker::default();
    for b in &hello[..hello.len() - 1] {
        assert_eq!(tracker.observe(key(51006), &[*b]), None);
        assert_eq!(tracker.observe(key(51006), &[]), None, "an empty segment changes nothing");
        assert_eq!(tracker.pending_flows(), 1);
    }
    let last = &hello[hello.len() - 1..];
    assert_eq!(tracker.observe(key(51006), last).as_deref(), Some("github.com"));
    assert_eq!(tracker.pending_flows(), 0);
}

// ---- captures ----

#[test]
fn reads_the_domain_out_of_a_captured_query() {
    let frame = null_ipv4_udp(51234, DNS_PORT, &query(0x1234, "www.rust-lang.org"));
    assert_eq!(domain(&frame).as_deref(), Some("www.rust-lang.org"));
}

#[test]
fn reads_the_sni_out_of_a_captured_client_hello() {
    let frame = null_ipv4_tcp(51234, 443, &client_hello("api.github.com"));
    assert_eq!(domain(&frame).as_deref(), Some("api.github.com"));
}

#[test]
fn reads_the_sni_of_a_client_hello_split_across_two_frames() {
    let hello = client_hello("github.com");
    let (first, second) = hello.split_at(hello.len() / 2);
    let mut tracker = ClientHelloTracker::new();

    let frame = null_ipv4_tcp(51234, 443, first);
    assert_eq!(domain_of(LinkType::Null, &frame, &mut tracker), None);

    let frame = null_ipv4_tcp(51234, 443, second);
    assert_eq!(
        domain_of(LinkType::Null, &frame, &mut tracker).as_deref(),
        Some("github.com")
    );
}

#[test]
fn encrypted_traffic_yields_nothing() {
    let frame = null_ipv4_tcp(51234, 443, &[0x17, 0x03, 0x03, 0x01, 0x00]);
    assert_eq!(domain(&frame), None);
}

#[test]
fn skips_responses_so_each_name_appears_once() {
    let mut response = query(0x1234, "example.com");
    response[2] |= 0x80; // QR = 1
    let frame = null_ipv4_udp(DNS_PORT, 51234, &response);
    assert_eq!(domain(&frame), None);
    // Even one sent to port 53.
    let frame = null_ipv4_udp(51234, DNS_PORT, &response);
    assert_eq!(domain(&frame), None);
}

#[test]
fn skips_udp_traffic_that_is_not_dns() {
    let frame = null_ipv4_udp(51234, 443, b"quic, pas du dns");
    assert_eq!(domain(&frame), None);
}

#[test]
fn a_garbage_payload_on_port_53_is_ignored() {
    let frame = null_ipv4_udp(51234, DNS_PORT, b"\xff\xff");
    assert_eq!(domain(&frame), None);
}

#[test]
fn a_capture_goes_on_until_it_fails() {
    let mut tracker = ClientHelloTracker::new();
    let frame = null_ipv4_udp(51234, DNS_PORT, &query(1, "a.example"));
    match step(LinkType::Null, Captured::Frame(&frame), &mut tracker) {
        Step::Print(name, client) => {
            assert_eq!(name, "a.example");
            assert_eq!(client.to_string(), "10.8.0.2");
            let seen = observation(&name, client, Some(true), 1757030400).unwrap();
            assert_eq!((seen.domain.as_str(), seen.observed_at), ("a.example", 1757030400));
            assert_eq!(observation(&name, client, Some(false), 0), None);
            assert_eq!(observation(&name, client, None, 0), None);
        }
        _ => panic!("a name was expected"),
    }
    assert!(matches!(step(LinkType::Null, Captured::Timeout, &mut tracker), Step::Continue));
    assert!(matches!(
        step(LinkType::Null, Captured::Frame(b"noise"), &mut tracker),
        Step::Continue
    ));
    match step(LinkType::Null, Captured::Failed("gone".to_string()), &mut tracker) {
        Step::Stop(SniffError::Capture(reason)) => assert_eq!(reason, "gone"),
        _ => panic!("an end was expected"),
    }
}

#[test]
fn missing_rights_are_told_apart_from_other_failures() {
    for reason in ["(cannot open BPF device) /dev/bpf0: Permission denied", "socket: Operation not permitted"] {
        match open_error("utun3", reason.to_string()) {
            SniffError::PermissionDenied(device) => assert_eq!(device, "utun3"),
            other => panic!("{other:?}"),
        }
    }
    match open_error("utun3", "No such device exists".to_string()) {
        SniffError::Open { device, source } => {
            assert_eq!((device.as_str(), source.as_str()), ("utun3", "No such device exists"));
        }
        other => panic!("{other:?}"),
    }
    assert_eq!(link_layer("wg0", 12).unwrap(), LinkType::Raw);
    match link_layer("wg0", 127) {
        Err(SniffError::UnsupportedLink { device, dlt }) => {
            assert_eq!((device.as_str(), dlt), ("wg0", 127));
        }
        other => panic!("{other:?}"),
    }
}

#[test]
fn the_capture_is_set_up_from_the_environment() {
    let none = SnifferVars { device: Some(String::new()), interface: None, filter: None };
    let sniffer = Sniffer::from_env(&none);
    assert_eq!(sniffer.asks_for().as_deref(), Some("wg0"));
    assert_eq!(
        sniffer.device(None).unwrap_err(),
        "interface wg0 arrêtée — la monter, ou imposer PERSES_DEVICE"
    );
    let cfg = sniffer.config(sniffer.device(Some("utun11".to_string())).unwrap());
    assert_eq!((cfg.device.as_str(), cfg.filter.as_str()), ("utun11", DEFAULT_FILTER));
    assert_eq!(SniffConfig::new("utun11").filter, "udp port 53 or tcp port 443");

    let imposed = Sniffer::from_env(&SnifferVars {
        device: Some("eth0".to_string()),
        interface: Some("wg7".to_string()),
        filter: Some("tcp".to_string()),
    });
    assert_eq!(imposed.asks_for(), None);
    assert_eq!(imposed.device(None).unwrap(), "eth0");
    assert_eq!(imposed.config("eth0".to_string()).filter, "tcp");
}
