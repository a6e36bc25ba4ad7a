//! Reports: what they say, and how they get out.

use perses_mother::fault::{IoFault, IoKind};
use perses_mother::ip::IpAddr;
use perses_mother::report::client::{
    is_lost, loss_line, Deposit, Peers, Sink, SinkEvent, SinkStep,
};
use perses_mother::report::config::{ReportVars, DEFAULT_QUEUE};
use perses_mother::report::json::Object;
use perses_mother::report::{payload, Observation, ReportConfig};
use perses_mother::wg::{DeviceStatus, PeerStatus, WgError};

fn device() -> DeviceStatus {
    DeviceStatus {
        device: "wg0".to_string(),
        public_key: "sPub=".to_string(),
        listen_port: 51820,
        peers: vec![PeerStatus {
            public_key: "peerA=".to_string(),
            endpoint: Some("203.0.113.7:51820".to_string()),
            allowed_ips: vec!["10.8.0.2/32".to_string()],
            latest_handshake: Some(1757030390),
            transfer_rx: 1024,
            transfer_tx: 2048,
            persistent_keepalive: Some(25),
        }],
    }
}

fn observation(client: &str) -> Observation {
    Observation {
        domain: "ads.example.com".to_string(),
        client: IpAddr::from_text(client).unwrap(),
        observed_at: 1757030400,
    }
}

// ---- JSON ----

#[test]
fn writes_a_flat_object() {
    let mut object = Object::new();
    object
        .string("domain", "ads.example.com")
        .boolean("blocked", true)
        .number("observed_at", 1757030400u64);
    assert_eq!(
        object.finish(),
        r#"{"domain":"ads.example.com","blocked":true,"observed_at":1757030400}"#
    );
}

#[test]
fn an_empty_object_is_still_valid_json() {
    assert_eq!(Object::new().finish(), "{}");
}

#[test]
fn nests_objects_and_arrays() {
    let mut peer = Object::new();
    peer.string("public_key", "abc=")
        .strings("allowed_ips", &["10.8.0.2/32".to_string()]);
    let mut root = Object::new();
    root.object("client", peer).maybe_string("endpoint", None);
    assert_eq!(
        root.finish(),
        r#"{"client":{"public_key":"abc=","allowed_ips":["10.8.0.2/32"]},"endpoint":null}"#
    );
}

#[test]
fn escapes_anything_that_would_break_out_of_a_string() {
    let mut object = Object::new();
    object.string("domain", "a\"b\\c\nd\u{1}");
    let expected = "{\"domain\":\"a\\\"b\\\\c\\nd\\u0001\"}";
    assert_eq!(object.finish(), expected);
}

#[test]
fn escapes_keys_too() {
    let mut object = Object::new();
    object.number("a\"b", 1);
    assert_eq!(object.finish(), r#"{"a\"b":1}"#);
}

#[test]
fn writes_every_kind_of_member() {
    let mut object = Object::default();
    object
        .strings("none", &[])
        .strings("two", &["a".to_string(), "\t\r\u{1f}é".to_string()])
        .maybe_number("n", Some(0))
        .maybe_number("m", None)
        .maybe_string("s", Some("x"))
        .boolean("b", false)
        .null("z");
    assert_eq!(
        object.finish(),
        "{\"none\":[],\"two\":[\"a\",\"\\t\\r\\u001fé\"],\"n\":0,\"m\":null,\"s\":\"x\",\"b\":false,\"z\":null}"
    );
}

// ---- reports ----

#[test]
fn carries_the_public_key_and_the_endpoint_of_the_client() {
    let body = payload(&observation("10.8.0.2"), Some(&device()));
    for expected in [
        r#""domain":"ads.example.com""#,
        r#""listed":true"#,
        r#""observed_at":1757030400"#,
        r#""tunnel_ip":"10.8.0.2""#,
        r#""public_key":"peerA=""#,
        r#""endpoint":"203.0.113.7:51820""#,
        r#""allowed_ips":["10.8.0.2/32"]"#,
        r#""latest_handshake":1757030390"#,
        r#""transfer_rx":1024"#,
        r#""transfer_tx":2048"#,
        r#""persistent_keepalive":25"#,
        r#""listen_port":51820"#,
    ] {
        assert!(body.contains(expected), "{expected} absent de {body}");
    }
}

#[test]
fn a_report_is_written_whole() {
    assert_eq!(
        payload(&observation("10.8.0.2"), Some(&device())),
        r#"{"domain":"ads.example.com","listed":true,"observed_at":1757030400,"client":{"tunnel_ip":"10.8.0.2","public_key":"peerA=","endpoint":"203.0.113.7:51820","allowed_ips":["10.8.0.2/32"],"latest_handshake":1757030390,"transfer_rx":1024,"transfer_tx":2048,"persistent_keepalive":25},"server":{"device":"wg0","public_key":"sPub=","listen_port":51820,"peers":1}}"#
    );
    assert_eq!(
        payload(&observation("fd00::3"), None),
        r#"{"domain":"ads.example.com","listed":true,"observed_at":1757030400,"client":{"tunnel_ip":"fd00::3","public_key":null,"endpoint":null},"server":{"device":null,"public_key":null}}"#
    );
}

#[test]
fn a_report_holds_on_a_single_line() {
    let body = payload(&observation("10.8.0.2"), Some(&device()));
    assert!(!body.contains('\n'), "rapport multiligne: {body}");

    let mut nasty = device();
    nasty.peers[0].public_key = "a\nb\u{7}".to_string();
    let body = payload(&observation("10.8.0.2"), Some(&nasty));
    assert!(body.chars().all(|c| c >= ' '), "{body}");
}

#[test]
fn an_unknown_address_yields_a_null_peer_rather_than_no_report() {
    let body = payload(&observation("10.8.0.9"), Some(&device()));
    assert!(body.contains(r#""tunnel_ip":"10.8.0.9""#));
    assert!(body.contains(r#""public_key":null"#));
}

#[test]
fn an_unreadable_interface_still_produces_a_report() {
    let body = payload(&observation("10.8.0.2"), None);
    assert!(body.contains(r#""device":null"#));
    assert!(body.contains(r#""tunnel_ip":"10.8.0.2""#));
}

#[test]
fn an_observation_is_dated() {
    let seen = Observation::now("x.example".to_string(), IpAddr::v4(10, 8, 0, 5), 7);
    assert_eq!((seen.domain.as_str(), seen.observed_at), ("x.example", 7));
}

// ---- queue ----

#[test]
fn a_report_is_lost_where_the_queue_is_full() {
    assert!(is_lost(Deposit::Full));
    for kept in [Deposit::Disabled, Deposit::Taken, Deposit::Disconnected] {
        assert!(!is_lost(kept));
    }
    assert_eq!(loss_line(0), None);
    assert_eq!(
        loss_line(12).as_deref(),
        Some("rapport: 12 rapport(s) abandonné(s), file pleine")
    );
}

// ---- output ----

/// Writes a line to `file`, where `opens` and `writes` say what goes well.
fn write_line(
    sink: &mut Sink,
    line: &str,
    file: &mut String,
    opens: &mut dyn FnMut() -> bool,
    writes: &mut dyn FnMut() -> bool,
) -> Result<(), IoFault> {
    let fault = |text: &str| IoFault { kind: IoKind::NotFound, text: text.to_string() };
    let mut step = sink.write_line(SinkEvent::Line);
    loop {
        step = match step {
            SinkStep::Open { second } => {
                let result = if opens() { Ok(()) } else { Err(fault("no such directory")) };
                sink.write_line(SinkEvent::Opened { second, result })
            }
            SinkStep::Write { second } => {
                let result = if writes() {
                    file.push_str(line);
                    file.push('\n');
                    Ok(())
                } else {
                    Err(fault("closed"))
                };
                sink.write_line(SinkEvent::Written { second, result })
            }
            SinkStep::Done(result) => return result,
        };
    }
}

#[test]
fn writing_appends_one_line_per_report() {
    let mut file = String::new();
    let mut sink = Sink::new("/tmp/perses-sink.socket".to_string());
    let mut opened = 0;
    let mut opens = || {
        opened += 1;
        true
    };
    write_line(&mut sink, r#"{"domain":"a.test"}"#, &mut file, &mut opens, &mut || true).unwrap();
    write_line(&mut sink, r#"{"domain":"b.test"}"#, &mut file, &mut opens, &mut || true).unwrap();
    assert_eq!(file, "{\"domain\":\"a.test\"}\n{\"domain\":\"b.test\"}\n");
    assert_eq!(opened, 1, "the output stays open");
}

#[test]
fn an_unreachable_path_is_an_error_not_a_panic() {
    let mut file = String::new();
    let mut sink = Sink::new("/nonexistent-dir-perses/report.socket".to_string());
    let first = write_line(&mut sink, "{}", &mut file, &mut || false, &mut || true);
    assert_eq!(first.unwrap_err().text, "no such directory");
    // The second time the same failure is marked as told.
    let second = write_line(&mut sink, "{}", &mut file, &mut || false, &mut || true);
    assert_eq!(second.unwrap_err().text, "no such directory (déjà signalé)");
    assert!(file.is_empty());
}

#[test]
fn a_closed_output_is_opened_again_once() {
    let mut file = String::new();
    let mut sink = Sink::new("s".to_string());
    let mut first = true;
    let mut once = || !std::mem::replace(&mut first, false);
    write_line(&mut sink, "a", &mut file, &mut || true, &mut once).unwrap();
    assert_eq!(file, "a\n");
    let mut tries = 0;
    let mut never = || {
        tries += 1;
        false
    };
    let lost = write_line(&mut sink, "b", &mut file, &mut || true, &mut never);
    assert_eq!(lost.unwrap_err().text, "closed");
    assert_eq!(tries, 2);
    assert!(!sink.open);
}

#[test]
fn peers_are_reread_only_once_their_ttl_has_passed() {
    let mut peers = Peers::new("nonexistent-device".to_string(), 60_000_000_000);
    let mut read = |peers: &mut Peers, now: u128| {
        if peers.is_stale(now) {
            peers.refresh(now, Err(WgError::MissingBinary("wg")));
        }
    };
    read(&mut peers, 1_000);
    assert!(peers.current().is_none());
    let first = peers.fetched;
    // A second time within the window: nothing is read.
    read(&mut peers, 59_000_000_000);
    assert!(peers.current().is_none());
    assert_eq!(peers.fetched, first);
    assert!(peers.is_stale(60_000_001_000));
}

#[test]
fn a_failed_reading_keeps_the_last_state_and_is_told_of_once() {
    let mut peers = Peers::new("wg0".to_string(), 5);
    assert!(peers.refresh(0, Ok(device())).is_none());
    assert!(peers.refresh(10, Err(WgError::MissingBinary("wg"))).is_some());
    assert!(peers.refresh(20, Err(WgError::MissingBinary("wg"))).is_none());
    assert_eq!(peers.current(), Some(&device()));
    assert!(peers.refresh(30, Ok(device())).is_none());
    assert!(peers.refresh(40, Err(WgError::MissingBinary("wg"))).is_some());
}

// ---- settings ----

#[test]
fn falls_back_on_the_default_socket() {
    assert_eq!(ReportConfig::default().socket, "/tmp/perses.socket");
}

#[test]
fn the_default_queue_is_bounded() {
    assert_eq!(ReportConfig::default().queue, DEFAULT_QUEUE);
    assert!(DEFAULT_QUEUE > 0);
}

#[test]
fn reads_the_settings_of_the_environment() {
    let some = |s: &str| Some(s.to_string());
    let cfg = ReportConfig::from_env(&ReportVars {
        socket: some("/run/p.sock"),
        queue: some("8"),
        peers_ttl: some("0"),
    });
    assert_eq!((cfg.socket.as_str(), cfg.queue, cfg.peers_ttl), ("/run/p.sock", 8, 0));
    let cfg = ReportConfig::from_env(&ReportVars {
        socket: some(" "),
        queue: some("0"),
        peers_ttl: some("five"),
    });
    assert_eq!(
        (cfg.socket.as_str(), cfg.queue, cfg.peers_ttl),
        ("/tmp/perses.socket", 256, 5_000_000_000)
    );
}
