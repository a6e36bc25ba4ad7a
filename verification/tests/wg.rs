//! The WireGuard server: keys, configuration, peers, life.

use std::collections::HashMap;

use base64::engine::general_purpose::STANDARD;
use base64::Engine;

use perses_mother::fault::{IoFault, IoKind};
use perses_mother::ip::IpAddr;
use perses_mother::wg::config::{extract_private_key, interface_from_path, join_path};
use perses_mother::wg::keys::{key_from, preshared_key, validate_key_b64};
use perses_mother::wg::peers::{dump_args, match_len, parse};
use perses_mother::wg::server::{
    device_name_file, device_name_path, provision, resolve_step, reuse_existing, run, show_args,
    start_step, started, wg_show_succeeds, Answer, ColdStart, CommandOutput, FilePlan, Found,
    Search, StartStep, StopStep, WG_QUICK,
};
use perses_mother::wg::{
    cold_start, dump, generate_preshared_key, is_running, resolve_device, start, status, stop,
    DeviceStatus, KeyPair, Peer, PeerStatus, Provisioning, ServerConfig, StartOutcome, StopOutcome,
    WgError,
};

fn cfg() -> ServerConfig {
    ServerConfig {
        config_dir: "/tmp/wg-test".to_string(),
        ..Default::default()
    }
}

fn reason(e: WgError) -> String {
    match e {
        WgError::InvalidConfig(said) => said,
        WgError::InvalidKey(said) => said,
        other => panic!("{other:?}"),
    }
}

// ---- keys ----

#[test]
fn generated_keys_are_valid_base64_32_bytes() {
    let kp = KeyPair::generate();
    validate_key_b64(&kp.private_b64()).unwrap();
    validate_key_b64(&kp.public_b64()).unwrap();
}

#[test]
fn private_key_roundtrips_to_same_public_key() {
    let kp = KeyPair::generate();
    let restored = KeyPair::from_private_b64(&kp.private_b64()).unwrap();
    assert_eq!(kp.public_b64(), restored.public_b64());
}

#[test]
fn private_key_is_clamped_like_wg_genkey() {
    let kp = KeyPair::generate();
    let private = STANDARD.decode(kp.private_b64()).unwrap();
    assert_eq!(private[0] & 7, 0);
    assert_eq!(private[31] & 128, 0);
    assert_eq!(private[31] & 64, 64);
}

#[test]
fn rejects_malformed_keys() {
    assert!(validate_key_b64("pas-du-base64!!").is_err());
    assert!(validate_key_b64("dHJvcCBjb3VydA==").is_err());
}

#[test]
fn debug_does_not_leak_private_key() {
    let kp = KeyPair::generate();
    let dbg = kp.redacted();
    assert!(!dbg.contains(&kp.private_b64()));
    assert_eq!(
        dbg,
        format!("KeyPair {{ public: \"{}\", private: \"<redacted>\" }}", kp.public_b64())
    );
}

#[test]
fn the_public_key_is_that_of_curve25519() {
    // The first secret of RFC 7748, section 6.1.
    let secret = [
        0x77, 0x07, 0x6d, 0x0a, 0x73, 0x18, 0xa5, 0x7d, 0x3c, 0x16, 0xc1, 0x72, 0x51, 0xb2, 0x66,
        0x45, 0xdf, 0x4c, 0x2f, 0x87, 0xeb, 0xc0, 0x99, 0x2a, 0xb1, 0x77, 0xfb, 0xa5, 0x1d, 0xb9,
        0x2c, 0x2a,
    ];
    let public = [
        0x85, 0x20, 0xf0, 0x09, 0x89, 0x30, 0xa7, 0x54, 0x74, 0x8b, 0x7d, 0xdc, 0xb4, 0x3e, 0xf7,
        0x5a, 0x0d, 0xbf, 0x3a, 0x0d, 0x26, 0x38, 0x1a, 0xf4, 0xeb, 0xa4, 0xa9, 0x8e, 0xaa, 0x9b,
        0x4e, 0x6a,
    ];
    let pair = KeyPair::from_secret(secret);
    assert_eq!(pair.public_b64(), STANDARD.encode(public));
    let restored = KeyPair::from_private_b64(&format!(" {}\n", STANDARD.encode(secret))).unwrap();
    assert_eq!(restored.public_b64(), pair.public_b64());
    assert_eq!(restored.private_b64(), pair.private_b64());
}

#[test]
fn what_is_wrong_with_a_key_is_said() {
    assert_eq!(
        reason(validate_key_b64("dHJvcCBjb3VydA==").unwrap_err()),
        "longueur 10 au lieu de 32"
    );
    assert_eq!(
        reason(validate_key_b64("pas-du-base64!!").unwrap_err()),
        "base64 invalide: Invalid symbol 45, offset 3."
    );
    assert_eq!(reason(key_from(Err("x".to_string())).unwrap_err()), "base64 invalide: x");
    assert_eq!(key_from(Ok(vec![7; 32])).unwrap(), [7; 32]);
}

#[test]
fn preshared_keys_are_keys_and_differ() {
    let (a, b) = (generate_preshared_key(), generate_preshared_key());
    validate_key_b64(&a).unwrap();
    assert_eq!(a.len(), 44);
    assert_ne!(a, b);
    assert_eq!(preshared_key([7; 32]), STANDARD.encode([7; 32]));
}

// ---- configuration ----

#[test]
fn paths_are_derived_from_interface() {
    let c = cfg();
    assert_eq!(c.config_path(), "/tmp/wg-test/wg0.conf");
    assert_eq!(c.private_key_path(), "/tmp/wg-test/wg0.key");
    assert_eq!(c.public_key_path(), "/tmp/wg-test/wg0.pub");
}

#[test]
fn render_contains_interface_section() {
    let kp = KeyPair::generate();
    let rendered = cfg().render(&kp.private_b64()).unwrap();
    assert!(rendered.contains("[Interface]"));
    assert!(rendered.contains("ListenPort = 51820"));
    assert!(rendered.contains(&format!("PrivateKey = {}", kp.private_b64())));
    assert!(!rendered.contains("[Peer]"));
}

#[test]
fn render_emits_nat_rules_only_with_wan_interface() {
    let kp = KeyPair::generate();
    assert!(!cfg().render(&kp.private_b64()).unwrap().contains("PostUp"));

    let mut c = cfg();
    c.wan_interface = Some("eth0".to_string());
    let rendered = c.render(&kp.private_b64()).unwrap();
    assert!(rendered.contains("POSTROUTING -o eth0 -j MASQUERADE"));
    assert!(rendered.contains("PostDown"));
}

#[test]
fn render_emits_one_section_per_peer() {
    let server = KeyPair::generate();
    let client = KeyPair::generate();
    let mut c = cfg();
    let mut peer = Peer::new(client.public_b64(), "10.8.0.2/32".to_string());
    peer.name = Some("laptop".to_string());
    peer.persistent_keepalive = Some(25);
    c.peers.push(peer);

    let rendered = c.render(&server.private_b64()).unwrap();
    assert!(rendered.contains("# laptop"));
    assert!(rendered.contains(&format!("PublicKey = {}", client.public_b64())));
    assert!(rendered.contains("AllowedIPs = 10.8.0.2/32"));
    assert!(rendered.contains("PersistentKeepalive = 25"));
}

#[test]
fn render_rejects_invalid_input() {
    let kp = KeyPair::generate();
    let mut c = cfg();
    c.address = "10.8.0.1".to_string();
    assert!(c.render(&kp.private_b64()).is_err());

    let mut c = cfg();
    c.peers.push(Peer::new("pas-une-cle".to_string(), "10.8.0.2/32".to_string()));
    assert!(c.render(&kp.private_b64()).is_err());

    assert!(cfg().render("pas-une-cle").is_err());
}

#[test]
fn extract_private_key_reads_back_rendered_config() {
    let kp = KeyPair::generate();
    let rendered = cfg().render(&kp.private_b64()).unwrap();
    assert_eq!(extract_private_key(&rendered), Some(kp.private_b64()));
    assert_eq!(extract_private_key("[Interface]\n"), None);
}

#[test]
fn a_whole_file_is_rendered() {
    let key = STANDARD.encode([8u8; 32]);
    let mut c = cfg();
    c.wan_interface = Some("eth0".to_string());
    c.dns = vec!["10.8.0.1".to_string(), "1.1.1.1".to_string()];
    c.mtu = Some(1380);
    let mut peer = Peer::new(key.clone(), "10.8.0.2/32".to_string());
    peer.allowed_ips.push("fd00::2/128".to_string());
    peer.preshared_key = Some(key.clone());
    c.peers.push(peer);
    assert_eq!(
        c.render(&key).unwrap(),
        format!(
            "# Généré par perses-mother — ne pas éditer à la main.\n[Interface]\n\
             Address = 10.8.0.1/24\nListenPort = 51820\nPrivateKey = {key}\n\
             DNS = 10.8.0.1, 1.1.1.1\nMTU = 1380\n\
             PostUp = iptables -A FORWARD -i wg0 -j ACCEPT; iptables -A FORWARD -o wg0 -j ACCEPT; \
             iptables -t nat -A POSTROUTING -o eth0 -j MASQUERADE\n\
             PostDown = iptables -D FORWARD -i wg0 -j ACCEPT; iptables -D FORWARD -o wg0 -j ACCEPT; \
             iptables -t nat -D POSTROUTING -o eth0 -j MASQUERADE\n\
             \n[Peer]\nPublicKey = {key}\nPresharedKey = {key}\n\
             AllowedIPs = 10.8.0.2/32, fd00::2/128\n"
        )
    );
}

#[test]
fn any_key_a_file_is_rendered_with_is_read_back() {
    for byte in [0u8, 8, 0xFB, 0xFF] {
        let key = STANDARD.encode([byte; 32]);
        assert!(key.ends_with('='));
        let rendered = cfg().render(&key).unwrap();
        assert_eq!(extract_private_key(&rendered), Some(key));
    }
    // Outside the alphabet nothing is accepted.
    for wrong in ["AAAA\nAAAA", "AAAA AAAA", "AAAA-AAAA", "é"] {
        assert!(cfg().render(wrong).is_err(), "{wrong}");
    }
}

#[test]
fn what_is_wrong_with_a_configuration_is_said() {
    let mut c = cfg();
    c.interface = "wg\t0".to_string();
    assert_eq!(reason(c.validate().unwrap_err()), "nom d'interface invalide: \"wg\\t0\"");
    c.interface = String::new();
    assert_eq!(reason(c.validate().unwrap_err()), "nom d'interface invalide: \"\"");

    let mut c = cfg();
    c.address = "a\"b".to_string();
    assert_eq!(
        reason(c.validate().unwrap_err()),
        "l'adresse \"a\\\"b\" doit être en notation CIDR (ex. 10.8.0.1/24)"
    );

    let mut c = cfg();
    c.listen_port = 0;
    assert_eq!(reason(c.validate().unwrap_err()), "le port d'écoute ne peut pas être 0");

    let key = STANDARD.encode([8u8; 32]);
    let mut c = cfg();
    let mut peer = Peer::new(key.clone(), "x".to_string());
    peer.allowed_ips.clear();
    c.peers.push(Peer::new(key.clone(), "x".to_string()));
    c.peers.push(peer);
    assert_eq!(
        reason(c.validate().unwrap_err()),
        format!("le pair {key} n'a aucun AllowedIPs")
    );
    c.peers[0].preshared_key = Some("AAAA".to_string());
    assert_eq!(reason(c.validate().unwrap_err()), "longueur 3 au lieu de 32");
}

#[test]
fn the_first_private_key_of_a_file_is_read() {
    assert_eq!(
        extract_private_key("# PrivateKey\r\n privatekey =  a=b \r\nPrivateKey = c\n").as_deref(),
        Some("a=b")
    );
    assert_eq!(extract_private_key("PublicKey = x\nPrivateKey=").as_deref(), Some(""));
}

#[test]
fn an_interface_is_named_after_its_file() {
    for (path, name) in [
        ("/etc/wireguard/wg0.conf", Some("wg0")),
        ("wg0", Some("wg0")),
        ("a.b.conf", Some("a.b")),
        (".conf", Some(".conf")),
        ("dir/wg1.conf/", Some("wg1")),
        ("dir/wg1.conf/.", Some("wg1")),
        ("dir//.//", Some("dir")),
        ("", None),
        ("/", None),
        (".", None),
        ("a/..", None),
        ("wg.", Some("wg")),
    ] {
        assert_eq!(interface_from_path(path).as_deref(), name, "{path}");
    }
    assert_eq!(join_path("/etc", "/abs"), "/abs");
    assert_eq!(join_path("", "a"), "a");
    assert_eq!(join_path("d/", "a"), "d/a");
}

// ---- peers ----

const DUMP: &str = "\
sPriv=\tsPub=\t51820\toff
peerA=\t(none)\t203.0.113.7:51820\t10.8.0.2/32\t1757030390\t1024\t2048\t25
peerB=\tpsk=\t(none)\t10.8.0.3/32,fd00::3/128\t0\t0\t0\toff";

fn device_status() -> DeviceStatus {
    parse("wg0", DUMP).unwrap()
}

fn ip(text: &str) -> IpAddr {
    IpAddr::from_text(text).unwrap()
}

#[test]
fn reads_the_interface_line_without_the_private_key() {
    let status = device_status();
    assert_eq!(status.public_key, "sPub=");
    assert_eq!(status.listen_port, 51820);
    assert_eq!(status.peers.len(), 2);
}

#[test]
fn reads_a_peer_that_has_already_spoken() {
    let status = device_status();
    let peer = &status.peers[0];
    assert_eq!(peer.public_key, "peerA=");
    assert_eq!(peer.endpoint.as_deref(), Some("203.0.113.7:51820"));
    assert_eq!(peer.allowed_ips, ["10.8.0.2/32"]);
    assert_eq!(peer.latest_handshake, Some(1757030390));
    assert_eq!((peer.transfer_rx, peer.transfer_tx), (1024, 2048));
    assert_eq!(peer.persistent_keepalive, Some(25));
}

#[test]
fn a_peer_that_never_connected_has_no_endpoint_and_no_handshake() {
    let status = device_status();
    let peer = &status.peers[1];
    assert_eq!(peer.endpoint, None);
    assert_eq!(peer.latest_handshake, None);
    assert_eq!(peer.persistent_keepalive, None);
    assert_eq!(peer.allowed_ips, ["10.8.0.3/32", "fd00::3/128"]);
}

#[test]
fn matches_a_tunnel_address_to_its_owner() {
    let status = device_status();
    let owner = |text: &str| status.peer_for(ip(text)).map(|p| p.public_key.as_str());
    assert_eq!(owner("10.8.0.2"), Some("peerA="));
    assert_eq!(owner("10.8.0.3"), Some("peerB="));
    assert_eq!(owner("fd00::3"), Some("peerB="));
    assert_eq!(owner("10.8.0.9"), None);
}

fn gateway(name: &str, cidr: &str) -> PeerStatus {
    PeerStatus {
        public_key: name.to_string(),
        endpoint: None,
        allowed_ips: vec![cidr.to_string()],
        latest_handshake: None,
        transfer_rx: 0,
        transfer_tx: 0,
        persistent_keepalive: None,
    }
}

#[test]
fn the_most_specific_peer_wins_over_a_catch_all() {
    let mut status = device_status();
    status.peers.push(gateway("gateway=", "0.0.0.0/0"));
    let owner = status.peer_for(ip("10.8.0.2")).unwrap();
    assert_eq!(owner.public_key, "peerA=");
    // Outside the /32 only the default route is left.
    let owner = status.peer_for(ip("10.8.0.9")).unwrap();
    assert_eq!(owner.public_key, "gateway=");
}

#[test]
fn of_two_equally_specific_peers_the_last_one_wins() {
    let mut status = device_status();
    status.peers.push(gateway("copy=", "10.8.0.2"));
    assert_eq!(status.peer_for(ip("10.8.0.2")).unwrap().public_key, "copy=");
}

#[test]
fn a_prefix_that_does_not_stop_on_a_byte_boundary_is_honoured() {
    assert_eq!(match_len("10.8.0.0/20", ip("10.8.15.1")), Some(20));
    assert_eq!(match_len("10.8.0.0/20", ip("10.8.16.1")), None);
}

#[test]
fn prefixes_of_every_form_are_matched() {
    assert_eq!(match_len("10.8.0.2", ip("10.8.0.2")), Some(32));
    assert_eq!(match_len(" 10.8.0.2 / 99 ", ip("10.8.0.2")), Some(32));
    assert_eq!(match_len("10.8.0.2/31", ip("10.8.0.3")), Some(31));
    assert_eq!(match_len("::/0", ip("fd00::1")), Some(0));
    assert_eq!(match_len("0.0.0.0/0", ip("fd00::1")), None);
    assert_eq!(match_len("fd00::/8", ip("fdff::1")), Some(8));
    assert_eq!(match_len("fd00::1/127", ip("fd00::2")), None);
    assert_eq!(match_len("10.8.0.0/x", ip("10.8.0.1")), None);
    assert_eq!(match_len("10.8.0/24", ip("10.8.0.1")), None);
}

#[test]
fn an_empty_dump_is_an_error_not_an_empty_device() {
    assert!(parse("wg0", "").is_err());
    assert_eq!(reason(parse("wg0", "\n \n").unwrap_err()), "wg show wg0 dump: sortie vide");
    assert_eq!(reason(parse("wg0", "a\tb\n").unwrap_err()), "wg show wg0 dump: en-tête illisible");
}

#[test]
fn a_truncated_peer_line_is_skipped_rather_than_fatal() {
    let status = parse("wg0", "sPriv=\tsPub=\t51820\toff\npeerA=\t(none)").unwrap();
    assert!(status.peers.is_empty());
}

#[test]
fn fields_that_are_no_numbers_are_zero() {
    let raw = "p\tq\tport\noff\na\t-\t \t off \tx\t18446744073709551616\t7\t70000\textra\r\n";
    let status = parse("wg0", raw).unwrap();
    assert_eq!(status.listen_port, 0);
    assert_eq!(status.peers.len(), 1);
    let peer = &status.peers[0];
    assert_eq!(peer.endpoint, None);
    assert!(peer.allowed_ips.is_empty());
    assert_eq!((peer.transfer_rx, peer.transfer_tx), (0, 7));
    assert_eq!(peer.persistent_keepalive, None);
}

// ---- life ----

/// Files in memory.
type Disk = HashMap<String, (String, bool)>;

fn write(disk: &mut Disk, file: FilePlan) {
    disk.insert(file.path, (file.contents, file.secret));
}

/// Provisions a server on a disk.
fn provision_on(disk: &mut Disk, cfg: &ServerConfig, force: bool) -> Result<Provisioning, WgError> {
    match cold_start(cfg, force, disk.contains_key(&cfg.config_path()))? {
        ColdStart::Reuse(path) => {
            let existing = Ok(disk[&path].0.clone());
            reuse_existing(&path, existing)
        }
        ColdStart::Create(plan) => {
            write(disk, plan.private_key);
            write(disk, plan.public_key);
            write(disk, plan.config);
            Ok(plan.provisioning)
        }
    }
}

#[test]
fn cold_start_writes_key_and_config_with_tight_permissions() {
    let mut disk = Disk::new();
    let cfg = cfg();
    let out = provision_on(&mut disk, &cfg, false).unwrap();

    assert!(out.created);
    assert_eq!(out.config_path, cfg.config_path());
    for path in [cfg.config_path(), cfg.private_key_path()] {
        assert!(disk[&path].1, "{path} devrait être en 0600");
    }
    assert!(disk[&cfg.config_path()].0.contains("[Interface]"));
    let (public, secret) = &disk[&cfg.public_key_path()];
    assert_eq!(public.trim(), out.public_key);
    assert!(!secret);
    let private = disk[&cfg.private_key_path()].0.trim().to_string();
    assert_eq!(KeyPair::from_private_b64(&private).unwrap().public_b64(), out.public_key);
}

#[test]
fn cold_start_is_idempotent_and_force_rotates_keys() {
    let mut disk = Disk::new();
    let cfg = cfg();
    let first = provision_on(&mut disk, &cfg, false).unwrap();
    let second = provision_on(&mut disk, &cfg, false).unwrap();
    assert!(!second.created);
    assert_eq!(first.public_key, second.public_key);

    let forced = provision_on(&mut disk, &cfg, true).unwrap();
    assert!(forced.created);
    assert_ne!(first.public_key, forced.public_key);
}

#[test]
fn a_plan_holds_the_keys_it_is_given() {
    let pair = KeyPair::from_secret([9; 32]);
    let plan = provision(&cfg(), &pair).unwrap();
    assert_eq!(plan.dir, "/tmp/wg-test");
    assert_eq!(plan.private_key.contents, format!("{}\n", pair.private_b64()));
    assert_eq!(plan.provisioning.public_key, pair.public_b64());
    assert_eq!(extract_private_key(&plan.config.contents), Some(pair.private_b64()));
}

#[test]
fn a_configuration_without_a_key_cannot_be_used_again() {
    let fault = IoFault { kind: IoKind::Other, text: "disk".to_string() };
    match reuse_existing("/c", Err(fault)) {
        Err(WgError::Io { path, source }) => {
            assert_eq!((path.as_str(), source.text.as_str()), ("/c", "disk"));
        }
        other => panic!("{other:?}"),
    }
    assert_eq!(
        reason(reuse_existing("/c", Ok("[Interface]\n".to_string())).unwrap_err()),
        "/c ne contient pas de PrivateKey"
    );
    assert!(reuse_existing("/c", Ok("PrivateKey = short\n".to_string())).is_err());
}

#[test]
fn start_without_provisioning_reports_not_provisioned() {
    let cfg = cfg();
    match start(&cfg, false) {
        Err(WgError::NotProvisioned(path)) => assert_eq!(path, cfg.config_path()),
        other => panic!("attendu NotProvisioned, obtenu {other:?}"),
    }
    assert!(start(&cfg, true).is_ok());
}

#[test]
fn device_name_file_reads_the_wg_quick_mapping() {
    let path = device_name_path("/tmp/perses-name", "wg0");
    assert_eq!(path, "/tmp/perses-name/wg0.name");
    let missing = IoFault { kind: IoKind::NotFound, text: String::new() };
    assert_eq!(device_name_file(&path, Err(missing)).unwrap(), None);
    assert_eq!(
        device_name_file(&path, Ok("utun11\n".to_string())).unwrap(),
        Some("utun11".to_string())
    );
    // An empty file must not give an empty name.
    assert_eq!(device_name_file(&path, Ok("\n".to_string())).unwrap(), None);

    let denied = IoFault { kind: IoKind::PermissionDenied, text: String::new() };
    match device_name_file(&path, Err(denied)) {
        Err(WgError::PermissionDenied(what)) => {
            assert_eq!(what, "lecture de /tmp/perses-name/wg0.name");
        }
        other => panic!("{other:?}"),
    }
    let other = IoFault { kind: IoKind::Other, text: "io".to_string() };
    assert!(matches!(device_name_file(&path, Err(other)), Err(WgError::Io { .. })));
}

#[test]
fn invalid_interface_name_never_reaches_the_filesystem() {
    let mut disk = Disk::new();
    let mut cfg = cfg();
    cfg.interface = "wg0; rm -rf /".to_string();
    assert!(matches!(
        provision_on(&mut disk, &cfg, false),
        Err(WgError::InvalidConfig(_))
    ));
    assert!(disk.is_empty());
}

/// Finds the device of an interface among these, with this note of it.
fn find(interface: &str, devices: &[&str], note: Option<&str>) -> Option<String> {
    let mut search = resolve_device(interface);
    loop {
        let answer = match &search {
            Search::Direct(name) | Search::Noted(name) => {
                Answer::Shown(devices.contains(&name.as_str()))
            }
            Search::Named(_) => Answer::Read(note.map(str::to_string)),
        };
        match resolve_step(search, answer) {
            Found::More(more) => search = more,
            Found::Device(device) => return device,
        }
    }
}

#[test]
fn a_device_is_found_by_its_name_or_by_the_note_of_it() {
    assert_eq!(find("wg0", &["wg0"], Some("utun4")).as_deref(), Some("wg0"));
    assert_eq!(find("wg0", &["utun4"], Some("utun4")).as_deref(), Some("utun4"));
    assert_eq!(find("wg0", &["utun5"], Some("utun4")), None, "an old note is not believed");
    assert_eq!(find("wg0", &["utun5"], None), None);
    assert!(is_running(&Some("wg0".to_string())));
    assert!(!is_running(&None));
}

fn output(success: bool, code: Option<i32>, stdout: &str, stderr: &str) -> Result<CommandOutput, IoFault> {
    Ok(CommandOutput { success, code, stdout: stdout.to_string(), stderr: stderr.to_string() })
}

#[test]
fn what_a_program_does_is_told_apart() {
    let args = vec!["up".to_string(), "/c/wg0.conf".to_string()];
    assert_eq!(run(WG_QUICK, &args, output(true, Some(0), "done\n", "")).unwrap(), "done\n");
    match run(WG_QUICK, &args, output(false, None, "", " bad \n")) {
        Err(WgError::CommandFailed { cmd, code, stderr }) => {
            assert_eq!((cmd.as_str(), code, stderr.as_str()), ("wg-quick up /c/wg0.conf", -1, "bad"));
        }
        other => panic!("{other:?}"),
    }
    let missing = IoFault { kind: IoKind::NotFound, text: String::new() };
    match run(WG_QUICK, &args, Err(missing)) {
        Err(WgError::MissingBinary(bin)) => assert_eq!(bin, "wg-quick"),
        other => panic!("{other:?}"),
    }
    assert!(wg_show_succeeds("wg0", output(true, Some(0), "", "")).unwrap());
    assert!(!wg_show_succeeds("wg0", output(false, Some(1), "", "No such device")).unwrap());
    match wg_show_succeeds("wg0", output(false, Some(1), "", "x: Operation not permitted")) {
        Err(WgError::PermissionDenied(what)) => assert_eq!(what, "wg show wg0"),
        other => panic!("{other:?}"),
    }
}

#[test]
fn an_interface_is_started_and_stopped_once() {
    let cfg = cfg();
    match start_step(&cfg, Some("wg0".to_string())) {
        StartStep::Done(outcome) => assert_eq!(
            outcome,
            StartOutcome::AlreadyRunning { device: "wg0".to_string() }
        ),
        other => panic!("{other:?}"),
    }
    match start_step(&cfg, None) {
        StartStep::Up(args) => assert_eq!(args, ["up", "/tmp/wg-test/wg0.conf"]),
        other => panic!("{other:?}"),
    }
    let wg0 = StartOutcome::Started { device: "wg0".to_string() };
    assert_eq!(started(&cfg, None), wg0);
    assert_eq!(
        started(&cfg, Some("utun4".to_string())),
        StartOutcome::Started { device: "utun4".to_string() }
    );

    let running = Some("wg0".to_string());
    match stop(&cfg, &running, true).unwrap() {
        StopStep::Down(args) => assert_eq!(args, ["down", "/tmp/wg-test/wg0.conf"]),
        other => panic!("{other:?}"),
    }
    match stop(&cfg, &running, false).unwrap() {
        StopStep::Down(args) => assert_eq!(args, ["down", "wg0"]),
        other => panic!("{other:?}"),
    }
    match stop(&cfg, &None, true).unwrap() {
        StopStep::Done(outcome) => assert_eq!(outcome, StopOutcome::AlreadyStopped),
        other => panic!("{other:?}"),
    }
}

#[test]
fn a_device_tells_of_itself() {
    assert_eq!(show_args("wg0"), ["show", "wg0"]);
    assert_eq!(dump_args("wg0"), ["show", "wg0", "dump"]);
    let told = status("wg0".to_string(), output(true, Some(0), "interface: wg0", "")).unwrap();
    assert_eq!((told.device.as_str(), told.details.as_str()), ("wg0", "interface: wg0"));
    assert_eq!(dump("wg0", output(true, Some(0), DUMP, "")).unwrap(), device_status());
    assert!(dump("wg0", output(false, Some(1), DUMP, "")).is_err());
}
