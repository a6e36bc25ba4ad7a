//! The DNS relay: reading, deciding, answering.

use std::collections::HashSet;

use perses_mother::dns::message::HEADER_LEN;
use perses_mother::dns::module::{number, parse_bind, ResolverVars, Tunnel};
use perses_mother::dns::policy::{
    suffixes, Outcome, Question, DEFAULT_TTL, MAX_MEMO, MAX_SUFFIXES,
};
use perses_mother::dns::server::{
    dispatch, forward, queued, reception, Action, Dispatch, Event, Queued, Received, Reception,
    Reply,
};
use perses_mother::dns::{
    id, nxdomain, parse_query, serve, Decision, DnsConfig, DnsError, ParseError, Policy, Resolver,
    Verdict, DEFAULT_UPSTREAM,
};
use perses_mother::fault::{IoFault, IoKind};
use perses_mother::ip::{IpAddr, SocketAddr};

/// A minimal A query for `name`.
fn query(id: u16, name: &str) -> Vec<u8> {
    let mut packet = Vec::with_capacity(HEADER_LEN + name.len() + 6);
    packet.extend_from_slice(&id.to_be_bytes());
    packet.extend_from_slice(&[0x01, 0x00]); // a recursive query
    packet.extend_from_slice(&[0x00, 0x01]); // QDCOUNT = 1
    packet.extend_from_slice(&[0x00; 6]); // AN/NS/AR = 0
    for label in name.split('.').filter(|l| !l.is_empty()) {
        packet.push(label.len() as u8);
        packet.extend_from_slice(label.as_bytes());
    }
    packet.push(0x00);
    packet.extend_from_slice(&[0x00, 0x01]); // QTYPE = A
    packet.extend_from_slice(&[0x00, 0x01]); // QCLASS = IN
    packet
}

/// A cache in memory: the keys, the blacklist, and whether it replies.
#[derive(Default)]
struct Marks {
    keys: HashSet<String>,
    blacklist: HashSet<String>,
    silent: bool,
    asked: usize,
}

impl Marks {
    fn reply(&mut self, question: &Question) -> Option<bool> {
        self.asked += 1;
        if self.silent {
            return None;
        }
        Some(match question {
            Question::Exists(name) => self.keys.contains(name),
            Question::Listed(name) => self.blacklist.contains(name),
        })
    }
}

/// Decides on a name, with the questions answered by `marks`.
fn decide(policy: &mut Policy, marks: &mut Marks, name: &str, now: u128) -> Decision {
    let mut outcome = policy.decide(name, now);
    loop {
        match outcome {
            Outcome::Decided(decision) => return decision,
            Outcome::Ask(lookup) => {
                let reply = marks.reply(&lookup.question());
                outcome = policy.answer(lookup, reply, now);
            }
        }
    }
}

fn address(text: &str) -> SocketAddr {
    SocketAddr::from_text(text).unwrap()
}

// ---- messages ----

#[test]
fn reads_the_question_of_a_well_formed_query() {
    let parsed = parse_query(&query(0x1234, "example.com")).unwrap();
    assert_eq!(parsed.id, 0x1234);
    assert_eq!(parsed.name, "example.com");
    assert_eq!(parsed.qtype, 1);
}

#[test]
fn reads_a_deep_subdomain() {
    let parsed = parse_query(&query(1, "a.b.c.example.co.uk")).unwrap();
    assert_eq!(parsed.name, "a.b.c.example.co.uk");
}

#[test]
fn rejects_responses_and_stunted_packets() {
    let mut response = query(1, "example.com");
    response[2] |= 0x80; // QR = 1
    assert_eq!(parse_query(&response), Err(ParseError::NotAQuery));

    assert_eq!(parse_query(&[]), Err(ParseError::TooShort(0)));

    let packet = query(1, "example.com");
    assert_eq!(
        parse_query(&packet[..packet.len() - 6]),
        Err(ParseError::UnexpectedEnd)
    );

    let mut no_question = query(1, "example.com");
    no_question[4] = 0;
    no_question[5] = 0;
    assert_eq!(parse_query(&no_question), Err(ParseError::NoQuestion));
}

#[test]
fn a_label_length_past_the_end_does_not_panic() {
    let mut packet = query(1, "example.com");
    packet[HEADER_LEN] = 0xFF; // a label of 255 bytes in a shorter packet
    assert_eq!(parse_query(&packet), Err(ParseError::UnexpectedEnd));
}

#[test]
fn a_pointer_loop_is_stopped() {
    let mut packet = query(1, "example.com");
    packet[HEADER_LEN] = 0xC0; // a pointer...
    packet[HEADER_LEN + 1] = HEADER_LEN as u8; // ...to itself
    assert_eq!(parse_query(&packet), Err(ParseError::TooManyPointers));
}

#[test]
fn control_bytes_in_a_label_are_escaped() {
    let mut packet = query(1, "x");
    packet[HEADER_LEN + 1] = 0x1B; // ESC, the start of an ANSI sequence
    let parsed = parse_query(&packet).unwrap();
    assert_eq!(parsed.name, "\\027");
    assert!(!parsed.name.contains('\u{1b}'));
}

#[test]
fn a_dot_within_a_label_is_escaped() {
    let mut packet = query(1, "axb.com");
    packet[HEADER_LEN + 2] = b'.';
    assert_eq!(parse_query(&packet).unwrap().name, "a\\.b.com");
}

#[test]
fn the_root_is_a_dot() {
    assert_eq!(parse_query(&query(1, "")).unwrap().name, ".");
}

#[test]
fn a_pointer_leads_to_the_rest_of_the_name() {
    // The question is `www` and a pointer to `example.com` behind it.
    let mut packet = query(7, "")[..HEADER_LEN].to_vec();
    packet.extend_from_slice(b"\x03www\xc0\x16");
    packet.extend_from_slice(&[0, 28, 0, 1]);
    assert_eq!(packet.len(), 0x16);
    packet.extend_from_slice(b"\x07example\x03com\x00");
    let parsed = parse_query(&packet).unwrap();
    assert_eq!(parsed.name, "www.example.com");
    assert_eq!(parsed.qtype, 28);
}

#[test]
fn overlong_names_and_reserved_labels_are_refused() {
    let label = "a".repeat(63);
    let long = [label.as_str(); 4].join(".");
    assert_eq!(parse_query(&query(1, &long)), Err(ParseError::NameTooLong));
    let fitting = format!("{label}.{label}.{label}.{}", "b".repeat(62));
    assert_eq!(parse_query(&query(1, &fitting)).unwrap().name, fitting);

    let mut packet = query(1, "x");
    packet[HEADER_LEN] = 0x41;
    assert_eq!(parse_query(&packet), Err(ParseError::ReservedLabel(0x41)));
}

#[test]
fn a_refusal_carries_the_identifier_and_the_question() {
    let request = query(0xbeef, "chatgpt.com");
    let response = nxdomain(&request).unwrap();
    assert_eq!(id(&response), Some(0xbeef));
    assert_eq!(&response[2..12], &[0x81, 0x83, 0, 1, 0, 0, 0, 0, 0, 0]);
    assert_eq!(&response[12..], &request[12..]);
    assert_eq!(parse_query(&response), Err(ParseError::NotAQuery));
    // Cut before its class, a question cannot be sent back.
    assert_eq!(nxdomain(&request[..request.len() - 1]), None);
    assert_eq!(id(&[1]), None);
}

// ---- names looked up ----

#[test]
fn walks_up_from_the_name_to_its_parents() {
    assert_eq!(
        suffixes("ws.chatgpt.com"),
        ["ws.chatgpt.com", "chatgpt.com", "com"]
    );
    assert_eq!(suffixes("com"), ["com"]);
    // The root, and a name with a dot behind it: no empty suffix.
    assert_eq!(suffixes("."), ["."]);
    assert_eq!(suffixes("chatgpt.com."), ["chatgpt.com.", "com."]);
}

#[test]
fn a_thousand_labels_do_not_make_a_thousand_lookups() {
    let long = "a.".repeat(500) + "example";
    assert!(suffixes(&long).len() <= MAX_SUFFIXES);
}

#[test]
fn an_escaped_name_is_only_looked_up_whole() {
    assert_eq!(suffixes("evil\\.chatgpt.com"), ["evil\\.chatgpt.com"]);
}

#[test]
fn an_empty_name_is_not_looked_up() {
    assert!(suffixes("").is_empty());
    let mut policy = Policy::new();
    let decision = decide(&mut policy, &mut Marks::default(), "", 0);
    assert_eq!(decision.verdict, Verdict::Resolve);
    assert_eq!(policy.memoized(), 1);
}

// ---- decisions ----

#[test]
fn resolves_a_name_nobody_marked() {
    let mut policy = Policy::new().with_ttl(0);
    let decision = decide(&mut policy, &mut Marks::default(), "crates.io", 0);
    assert_eq!(decision.verdict, Verdict::Resolve);
    assert_eq!(decision.matched, None);
}

#[test]
fn denies_a_name_the_sniffer_marked_and_all_below_it() {
    let mut policy = Policy::new().with_ttl(0);
    let mut marks = Marks::default();
    marks.keys.insert("chatgpt.com".to_string());

    assert!(decide(&mut policy, &mut marks, "chatgpt.com", 0).denied());

    // A subdomain that was never marked: denied by its parent.
    let decision = decide(&mut policy, &mut marks, "ws.chatgpt.com", 0);
    assert_eq!(decision.verdict, Verdict::Deny);
    assert_eq!(decision.matched.as_deref(), Some("chatgpt.com"));

    // Case protects from nothing.
    assert!(decide(&mut policy, &mut marks, "WS.ChatGPT.COM", 0).denied());

    // A neighbour that ends alike without being a subdomain passes.
    assert!(!decide(&mut policy, &mut marks, "notchatgpt.com", 0).denied());
}

#[test]
fn denies_a_name_the_blacklist_holds() {
    let mut policy = Policy::new().with_ttl(0);
    let mut marks = Marks::default();
    marks.blacklist.insert("interdit.example".to_string());

    let decision = decide(&mut policy, &mut marks, "cdn.interdit.example", 0);
    assert_eq!(decision.verdict, Verdict::Deny);
    assert_eq!(decision.matched.as_deref(), Some("interdit.example"));
}

#[test]
fn a_decision_is_not_asked_twice() {
    let mut policy = Policy::new().with_ttl(DEFAULT_TTL);
    let mut marks = Marks::default();

    assert!(!decide(&mut policy, &mut marks, "chatgpt.com", 0).denied());
    // Marked afterwards: the decision holds until its time is over.
    marks.keys.insert("chatgpt.com".to_string());
    assert!(!decide(&mut policy, &mut marks, "chatgpt.com", DEFAULT_TTL - 1).denied());
    assert_eq!(policy.memoized(), 1);
    assert!(decide(&mut policy, &mut marks, "chatgpt.com", DEFAULT_TTL).denied());
}

#[test]
fn the_memory_stays_bounded() {
    let mut policy = Policy::new().with_ttl(DEFAULT_TTL);
    let mut marks = Marks::default();
    for n in 0..(MAX_MEMO + 50) {
        decide(&mut policy, &mut marks, &format!("h{n}"), 0);
    }
    assert!(policy.memoized() <= MAX_MEMO);
    assert_eq!(policy.memoized(), 50);
}

#[test]
fn a_cache_that_does_not_reply_denies_nothing_and_is_asked_once_per_suffix() {
    let mut policy = Policy::new();
    let mut marks = Marks { silent: true, ..Marks::default() };
    marks.keys.insert("chatgpt.com".to_string());
    assert!(!decide(&mut policy, &mut marks, "ws.chatgpt.com", 0).denied());
    assert_eq!(marks.asked, 3);
}

// ---- the relay ----

/// What a client gets: the answer, and whether the question was forwarded.
fn ask(policy: &mut Policy, marks: &mut Marks, packet: &[u8]) -> (Option<Vec<u8>>, bool) {
    let mut cfg = DnsConfig::new(address("127.0.0.1:53"));
    cfg.verbose = false;
    let from = address("10.8.0.2:4000");
    let mut action = serve(&cfg, policy, Event::Datagram { request: packet, client: from }, 0);
    loop {
        action = match action {
            Action::Receive => return (None, false),
            Action::Ask(asking) => {
                let reply = marks.reply(&asking.lookup.question());
                serve(&cfg, policy, Event::Replied { asking, reply }, 0)
            }
            Action::Refuse { client, refusal } => {
                assert_eq!(client, from);
                assert_eq!(refusal.line, None);
                return (refusal.response, false);
            }
            Action::Hand { relay, .. } => {
                assert_eq!(relay.client, from);
                // The upstream answers with the question, and AA set.
                let mut answer = relay.request.clone();
                answer[2] |= 0x84;
                assert!(matches!(forward(&relay.request, &answer, 1, 0), Reply::Answer));
                return (Some(answer), true);
            }
            Action::Abandon(line) => panic!("{line}"),
            Action::Stop(e) => panic!("{e:?}"),
        };
    }
}

#[test]
fn a_marked_name_is_denied_and_never_reaches_the_upstream() {
    let mut policy = Policy::new().with_ttl(0);
    let mut marks = Marks::default();
    marks.keys.insert("chatgpt.com".to_string());

    for (id, name) in [(0x1111u16, "chatgpt.com"), (0x2222, "ws.chatgpt.com")] {
        let (response, forwarded) = ask(&mut policy, &mut marks, &query(id, name));
        let response = response.expect("le relais doit répondre");
        assert_eq!(
            u16::from_be_bytes([response[0], response[1]]),
            id,
            "{name}: la réponse doit porter l'identifiant de la question"
        );
        let flags = u16::from_be_bytes([response[2], response[3]]);
        assert_eq!(flags & 0x000F, 3, "{name}: NXDOMAIN attendu");
        assert!(
            !forwarded && flags & 0x0400 == 0,
            "{name}: la question n'aurait pas dû sortir du tunnel"
        );
        assert_eq!(
            &response[12..],
            &query(id, name)[12..],
            "{name}: la question doit revenir telle quelle"
        );
    }

    let (response, forwarded) = ask(&mut policy, &mut marks, &query(0x3333, "crates.io"));
    let response = response.expect("le relais doit répondre");
    assert_eq!(response[3] & 0x0F, 0);
    assert!(forwarded, "la question devait être relayée");
}

#[test]
fn a_packet_that_is_not_a_query_gets_no_answer() {
    let mut policy = Policy::new();
    let mut marks = Marks::default();
    assert_eq!(ask(&mut policy, &mut marks, b"\xff\xff"), (None, false));
    let mut response = query(1, "crates.io");
    response[2] |= 0x80;
    assert_eq!(ask(&mut policy, &mut marks, &response), (None, false));
    assert_eq!(marks.asked, 0);
}

#[test]
fn an_answer_meant_for_another_question_is_not_relayed() {
    let request = query(0x1234, "crates.io");
    let mut answer = request.clone();
    answer[2] |= 0x80; // QR = 1
    assert!(matches!(forward(&request, &answer, 200, 0), Reply::Answer));
    assert_eq!(id(&answer), Some(0x1234));

    answer[1] = 0x35;
    assert!(matches!(forward(&request, &answer, 200, 199), Reply::Wait));
}

#[test]
fn a_silent_upstream_ends_in_a_timeout_not_a_wait_forever() {
    let request = query(1, "crates.io");
    match forward(&request, &query(2, "crates.io"), 100, 100) {
        Reply::Late(fault) => {
            assert_eq!(fault.kind, IoKind::TimedOut);
            assert_eq!(fault.text, "aucune réponse à la question posée");
        }
        other => panic!("{other:?}"),
    }
}

#[test]
fn a_refused_question_is_noted_with_its_rule() {
    let cfg = DnsConfig::new(address("10.8.0.1:53"));
    let request = query(1, "ws.chatgpt.com");
    let decision = Decision::deny("chatgpt.com".to_string());
    match dispatch(&cfg, &request, address("10.8.0.2:4000"), "ws.chatgpt.com", &decision) {
        Dispatch::Refuse(refusal) => assert_eq!(
            refusal.line.as_deref(),
            Some("NXDOMAIN ws.chatgpt.com (10.8.0.2:4000) — règle: chatgpt.com")
        ),
        Dispatch::Forward(_) => panic!("refused"),
    }
}

#[test]
fn failures_of_the_socket_end_the_relay_or_not() {
    for (kind, ends) in [
        (IoKind::ConnectionRefused, false),
        (IoKind::Interrupted, false),
        (IoKind::Other, true),
    ] {
        let fault = IoFault { kind, text: "x".to_string() };
        match reception(Received::Failed(fault)) {
            Reception::Ignore => assert!(!ends),
            Reception::Stop(DnsError::Recv(f)) => assert!(ends && f.text == "x"),
            _ => panic!("{kind:?}"),
        }
    }
    assert!(queued(Queued::Waiting).unwrap());
    assert!(!queued(Queued::Full).unwrap());
    match queued(Queued::Disconnected) {
        Err(DnsError::Recv(f)) => assert_eq!(f.text, "plus aucun relais en vie"),
        other => panic!("{other:?}"),
    }
}

#[test]
fn a_question_that_finds_no_place_is_lost_and_the_relay_goes_on() {
    let cfg = DnsConfig::new(address("10.8.0.1:53"));
    let mut policy = Policy::new();
    let mut handed = |state: Queued| {
        let name = "crates.io".to_string();
        serve(&cfg, &mut policy, Event::Handed { name, state }, 0)
    };
    assert!(matches!(handed(Queued::Waiting), Action::Receive));
    match handed(Queued::Full) {
        Action::Abandon(line) => assert_eq!(line, "[dns] file pleine — crates.io abandonné"),
        _ => panic!("lost"),
    }
    assert!(matches!(handed(Queued::Disconnected), Action::Stop(DnsError::Recv(_))));
    let fault = |kind: IoKind| Event::Failed(IoFault { kind, text: "x".to_string() });
    assert!(matches!(serve(&cfg, &mut policy, fault(IoKind::Interrupted), 0), Action::Receive));
    assert!(matches!(serve(&cfg, &mut policy, fault(IoKind::Other), 0), Action::Stop(_)));
}

#[test]
fn a_relay_has_one_worker_and_one_place_at_least() {
    let mut cfg = DnsConfig::new(address("10.8.0.1:53"));
    assert_eq!(cfg.upstream, address(DEFAULT_UPSTREAM));
    assert_eq!((cfg.relays(), cfg.capacity()), (4, 256));
    assert_eq!(cfg.local_address(), address("0.0.0.0:0"));
    cfg.workers = 0;
    cfg.queue = 0;
    cfg.upstream = address("[2606:4700::1111]:53");
    assert_eq!((cfg.relays(), cfg.capacity()), (1, 1));
    assert_eq!(cfg.local_address(), address("[::]:0"));
}

// ---- settings ----

#[test]
fn an_address_without_a_port_is_served_on_53() {
    assert_eq!(parse_bind("10.8.0.1").unwrap(), address("10.8.0.1:53"));
    assert_eq!(parse_bind("10.8.0.1:5353").unwrap(), address("10.8.0.1:5353"));
    assert_eq!(parse_bind("::1").unwrap(), address("[::1]:53"));
}

#[test]
fn an_unreadable_address_says_what_was_expected() {
    let err = parse_bind("wg0").unwrap_err();
    assert!(err.contains("10.8.0.1"), "{err}");
    assert_eq!(
        err,
        "adresse illisible: wg0 — attendu `10.8.0.1` ou `10.8.0.1:53`"
    );
}

#[test]
fn settings_fall_back_on_the_usual_ones() {
    let some = |s: &str| Some(s.to_string());
    let resolver = Resolver::from_env(&ResolverVars {
        bind: some("  "),
        interface: None,
        upstream: some("9.9.9.9"),
        timeout: some(" 7 "),
        workers: some("0"),
        queue: some("many"),
    });
    assert_eq!(resolver.bind, None);
    assert_eq!(resolver.asks_for().as_deref(), Some("wg0"));
    assert_eq!(resolver.timeout, 7_000_000_000);
    assert_eq!((resolver.workers, resolver.queue), (4, 256));

    let bind = resolver.listen_address(Tunnel::At(IpAddr::v4(10, 8, 0, 1))).unwrap();
    let cfg = resolver.config(bind).unwrap();
    assert_eq!(cfg.bind, address("10.8.0.1:53"));
    assert_eq!(cfg.upstream, address("9.9.9.9:53"));
    assert_eq!(
        resolver.listen_address(Tunnel::Down).unwrap_err(),
        "interface wg0 arrêtée — la monter, ou imposer PERSES_DNS_BIND"
    );
    assert_eq!(
        resolver.listen_address(Tunnel::Unaddressed("utun3".to_string())).unwrap_err(),
        "aucune adresse sur utun3 — imposer PERSES_DNS_BIND (ex. 10.8.0.1:53)"
    );
    assert_eq!(number(&some("+12")), Some(12));
    assert_eq!(number(&some("-1")), None);
}
