//! Cutting the connections to the domains of the blacklist.

use std::collections::HashSet;

use perses_mother::filter::module::BlacklistVars;
use perses_mother::filter::policy::{Outcome, MAX_BLOCKED_FLOWS};
use perses_mother::filter::queue::{verdict_line, Action, Event};
use perses_mother::filter::{
    filter, iptables_rule, Blacklist, Decision, FilterConfig, Policy, Verdict, BLACKLIST_SET, SEEN_SET,
};
use perses_mother::sniff::packet::{PROTO_TCP, PROTO_UDP};
use perses_mother::tls::client_hello::{
    EXT_SERVER_NAME, HANDSHAKE_CLIENT_HELLO, NAME_TYPE_HOST, RECORD_HANDSHAKE,
};

/// A minimal ClientHello that announces `sni`.
fn client_hello(sni: &str) -> Vec<u8> {
    let mut list = vec![NAME_TYPE_HOST];
    list.extend_from_slice(&(sni.len() as u16).to_be_bytes());
    list.extend_from_slice(sni.as_bytes());

    let mut extension = EXT_SERVER_NAME.to_be_bytes().to_vec();
    extension.extend_from_slice(&(list.len() as u16 + 2).to_be_bytes());
    extension.extend_from_slice(&(list.len() as u16).to_be_bytes());
    extension.extend_from_slice(&list);

    let mut hello = vec![0x03, 0x03];
    hello.extend_from_slice(&[0x00; 32]);
    hello.push(0x00);
    hello.extend_from_slice(&[0x00, 0x02, 0x13, 0x01]);
    hello.extend_from_slice(&[0x01, 0x00]);
    hello.extend_from_slice(&(extension.len() as u16).to_be_bytes());
    hello.extend_from_slice(&extension);

    let mut handshake = vec![HANDSHAKE_CLIENT_HELLO, 0];
    handshake.extend_from_slice(&(hello.len() as u16).to_be_bytes());
    handshake.extend_from_slice(&hello);

    let mut record = vec![RECORD_HANDSHAKE, 0x03, 0x01];
    record.extend_from_slice(&(handshake.len() as u16).to_be_bytes());
    record.extend_from_slice(&handshake);
    record
}

/// `payload` in UDP/IPv4/DLT_NULL, as a `utunN` would give it.
fn null_ipv4_udp(src_port: u16, dst_port: u16, payload: &[u8]) -> Vec<u8> {
    let mut transport = src_port.to_be_bytes().to_vec();
    transport.extend_from_slice(&dst_port.to_be_bytes());
    transport.extend_from_slice(&((8 + payload.len()) as u16).to_be_bytes());
    transport.extend_from_slice(&[0x00, 0x00]);
    transport.extend_from_slice(payload);
    null_ipv4(PROTO_UDP, &transport)
}

/// `payload` in TCP/IPv4/DLT_NULL.
fn null_ipv4_tcp(src_port: u16, dst_port: u16, payload: &[u8]) -> Vec<u8> {
    let mut transport = src_port.to_be_bytes().to_vec();
    transport.extend_from_slice(&dst_port.to_be_bytes());
    transport.extend_from_slice(&[0x00; 8]);
    transport.extend_from_slice(&[0x50, 0x18]); // a header of 20 bytes, ACK+PSH
    transport.extend_from_slice(&[0xFF, 0xFF]);
    transport.extend_from_slice(&[0x00; 4]);
    transport.extend_from_slice(payload);
    null_ipv4(PROTO_TCP, &transport)
}

fn null_ipv4(protocol: u8, transport: &[u8]) -> Vec<u8> {
    let total_len = 20 + transport.len();

    let mut frame = vec![0x02, 0x00, 0x00, 0x00]; // AF_INET
    frame.extend_from_slice(&[0x45, 0x00]); // version 4, IHL 5
    frame.extend_from_slice(&(total_len as u16).to_be_bytes());
    frame.extend_from_slice(&[0x00, 0x00, 0x00, 0x00]);
    frame.extend_from_slice(&[64, protocol]);
    frame.extend_from_slice(&[0x00, 0x00]);
    frame.extend_from_slice(&[10, 8, 0, 2]); // source
    frame.extend_from_slice(&[10, 8, 0, 1]); // destination
    frame.extend_from_slice(transport);
    frame
}

/// The bare IP packet, without the 4 bytes of the link.
fn ip_packet(frame: Vec<u8>) -> Vec<u8> {
    frame[4..].to_vec()
}

/// The blacklist and the domains seen, in memory.
#[derive(Default)]
struct Lists {
    blacklist: HashSet<String>,
    seen: HashSet<String>,
    silent: bool,
}

/// Decides on a packet, with the blacklist asked where it has to be.
fn inspect(policy: &mut Policy, lists: &mut Lists, packet: &[u8]) -> Decision {
    match policy.inspect(packet) {
        Outcome::Decided(decision) => decision,
        Outcome::Ask(pending) => {
            let reply = if lists.silent {
                None
            } else {
                Some(lists.blacklist.contains(&pending.domain))
            };
            let judged = policy.answer(pending, reply);
            if let Some(domain) = judged.seen {
                lists.seen.insert(domain);
            }
            judged.decision
        }
    }
}

#[test]
fn lets_an_unlisted_domain_through() {
    let mut policy = Policy::new();
    let mut lists = Lists::default();

    let packet = ip_packet(null_ipv4_tcp(51000, 443, &client_hello("crates.io")));
    let decision = inspect(&mut policy, &mut lists, &packet);
    assert_eq!(decision.verdict, Verdict::Accept);
    assert_eq!(decision.domain.as_deref(), Some("crates.io"));
    assert!(lists.seen.contains("crates.io"));
}

#[test]
fn cuts_a_blacklisted_domain_and_the_rest_of_its_flow() {
    let mut policy = Policy::new();
    let mut lists = Lists::default();
    lists.blacklist.insert("interdit.example".to_string());

    let hello = ip_packet(null_ipv4_tcp(51001, 443, &client_hello("interdit.example")));
    let decision = inspect(&mut policy, &mut lists, &hello);
    assert_eq!(decision.verdict, Verdict::Drop);
    assert_eq!(decision.domain.as_deref(), Some("interdit.example"));
    assert!(!decision.already_blocked);

    // The same ClientHello again: cut without a second look.
    let again = inspect(&mut policy, &mut lists, &hello);
    assert_eq!(again.verdict, Verdict::Drop);
    assert!(again.already_blocked);

    // What follows in the flow: cut too.
    let data = ip_packet(null_ipv4_tcp(51001, 443, &[0x17, 0x03, 0x03, 0x00, 0x10]));
    assert_eq!(inspect(&mut policy, &mut lists, &data).verdict, Verdict::Drop);

    // Another flow to the same port stays free.
    let other = ip_packet(null_ipv4_tcp(51002, 443, &client_hello("autorise.example")));
    assert_eq!(inspect(&mut policy, &mut lists, &other).verdict, Verdict::Accept);
    assert_eq!(policy.blocked_flows(), 1);
    assert!(!lists.seen.contains("interdit.example"));
}

#[test]
fn never_holds_back_traffic_it_does_not_understand() {
    let mut policy = Policy::new();
    let mut lists = Lists::default();

    for packet in [
        ip_packet(null_ipv4_udp(51000, 53, b"une requete dns")),
        ip_packet(null_ipv4_tcp(51000, 443, b"")),
        vec![0xFF, 0xFF, 0xFF],
        vec![],
    ] {
        assert_eq!(
            inspect(&mut policy, &mut lists, &packet).verdict,
            Verdict::Accept,
            "un paquet non compris ne doit jamais couper le trafic"
        );
    }
}

#[test]
fn blocked_flow_memory_stays_bounded() {
    let mut policy = Policy::new();
    let mut lists = Lists::default();
    lists.blacklist.insert("interdit.example".to_string());

    for port in 0..(MAX_BLOCKED_FLOWS as u16).wrapping_add(50) {
        let packet = ip_packet(null_ipv4_tcp(port, 443, &client_hello("interdit.example")));
        inspect(&mut policy, &mut lists, &packet);
    }
    assert!(policy.blocked_flows() <= MAX_BLOCKED_FLOWS);
    assert_eq!(policy.blocked_flows(), 50);
}

#[test]
fn without_a_reply_the_packet_passes() {
    let mut policy = Policy::new().without_recording();
    let mut lists = Lists { silent: true, ..Lists::default() };
    lists.blacklist.insert("interdit.example".to_string());
    let hello = ip_packet(null_ipv4_tcp(51001, 443, &client_hello("interdit.example")));
    let decision = inspect(&mut policy, &mut lists, &hello);
    assert_eq!(decision.verdict, Verdict::Accept);
    assert_eq!(policy.blocked_flows(), 0);
    assert!(lists.seen.is_empty(), "nothing is recorded");
    assert_eq!((BLACKLIST_SET, SEEN_SET), ("blacklist", "seen"));
}

#[test]
fn a_client_hello_in_two_packets_is_cut_at_the_second() {
    let mut policy = Policy::new();
    let mut lists = Lists::default();
    lists.blacklist.insert("interdit.example".to_string());
    let hello = client_hello("interdit.example");
    let (first, second) = hello.split_at(30);
    let first = ip_packet(null_ipv4_tcp(51003, 443, first));
    let second = ip_packet(null_ipv4_tcp(51003, 443, second));
    assert_eq!(inspect(&mut policy, &mut lists, &first).verdict, Verdict::Accept);
    assert_eq!(inspect(&mut policy, &mut lists, &second).verdict, Verdict::Drop);
}

#[test]
fn the_printed_rule_matches_the_queue_it_serves() {
    let rule = iptables_rule(3, "wg0");
    assert!(rule.contains("--queue-num 3"));
    assert!(rule.contains("-i wg0"));
}

#[test]
fn the_rule_is_whole() {
    assert_eq!(
        iptables_rule(0, "wg0"),
        "iptables -I FORWARD -i wg0 -p tcp --dport 443 -j NFQUEUE --queue-num 0"
    );
}

#[test]
fn a_line_is_written_of_each_domain_decided_on() {
    let mut cfg = FilterConfig::default();
    let mut decision = Decision {
        verdict: Verdict::Drop,
        domain: Some("a.example".to_string()),
        already_blocked: false,
    };
    assert_eq!(verdict_line(&cfg, &decision).as_deref(), Some("BLOQUÉ a.example"));
    decision.verdict = Verdict::Accept;
    assert_eq!(verdict_line(&cfg, &decision).as_deref(), Some("permis a.example"));
    assert_eq!(verdict_line(&cfg, &Decision::accept()), None);
    cfg.verbose = false;
    assert_eq!(verdict_line(&cfg, &decision), None);
}

#[test]
fn a_packet_is_answered_for_at_once_or_once_the_blacklist_is_asked() {
    let cfg = FilterConfig::default();
    let mut policy = Policy::new();
    let noise = filter(&cfg, &mut policy, Event::Packet(&[0xFF, 0xFF]));
    assert!(matches!(
        noise,
        Action::Tell { verdict: Verdict::Accept, seen: None, line: None }
    ));

    let hello = ip_packet(null_ipv4_tcp(51004, 443, &client_hello("a.example")));
    for (reply, verdict, seen, line) in [
        (None, Verdict::Accept, Some("a.example"), "permis a.example"),
        (Some(false), Verdict::Accept, Some("a.example"), "permis a.example"),
        (Some(true), Verdict::Drop, None, "BLOQUÉ a.example"),
    ] {
        let pending = match filter(&cfg, &mut policy, Event::Packet(&hello)) {
            Action::Ask(pending) => pending,
            Action::Tell { .. } => panic!("the blacklist has to be asked"),
        };
        match filter(&cfg, &mut policy, Event::Replied { pending, reply }) {
            Action::Tell { verdict: told, seen: noted, line: written } => {
                assert_eq!(told, verdict);
                assert_eq!(noted.as_deref(), seen);
                assert_eq!(written.as_deref(), Some(line));
            }
            Action::Ask(_) => panic!("a reply leads to a verdict"),
        }
    }
    match filter(&cfg, &mut policy, Event::Packet(&hello)) {
        Action::Tell { verdict, line, .. } => assert_eq!((verdict, line), (Verdict::Drop, None)),
        Action::Ask(_) => panic!("the connection was cut"),
    }
}

#[test]
fn a_queue_that_cannot_be_read_is_the_usual_one() {
    let vars = |queue: &str| BlacklistVars { queue: Some(queue.to_string()), interface: None };
    let (blacklist, readable) = Blacklist::from_env(&vars("7"));
    assert_eq!((blacklist.cfg.queue, readable), (7, true));
    assert_eq!(blacklist.interface, "wg0");
    let (blacklist, readable) = Blacklist::from_env(&vars("70000"));
    assert_eq!((blacklist.cfg.queue, readable), (0, false));
    let (blacklist, readable) = Blacklist::from_env(&vars(""));
    assert_eq!((blacklist.cfg.queue, readable), (0, true));
}
