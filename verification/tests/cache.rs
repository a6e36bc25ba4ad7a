//! The cache: its settings, and how a command is carried through.

use perses_mother::cache::client::{changed, ttl_seconds, CommandEvent, CommandStep, Request};
use perses_mother::cache::config::CacheVars;
use perses_mother::cache::error::RedisFault;
use perses_mother::cache::{Cache, CacheConfig, CacheError};

#[test]
fn namespaces_keys() {
    let cfg = CacheConfig::default();
    assert_eq!(cfg.key("visited"), "perses:visited");

    let flat = CacheConfig {
        namespace: String::new(),
        ..Default::default()
    };
    assert_eq!(flat.key("visited"), "visited");
}

#[test]
fn endpoint_never_shows_the_password() {
    let cfg = CacheConfig {
        password: Some("secret-du-vps".to_string()),
        ..Default::default()
    };
    assert_eq!(cfg.endpoint(), "127.0.0.1:6379/0");
    assert!(!cfg.endpoint().contains("secret"));
}

#[test]
fn connection_info_carries_the_credentials() {
    let cfg = CacheConfig {
        host: "10.8.0.1".to_string(),
        port: 6380,
        password: Some("s3cr3t".to_string()),
        db: 3,
        ..Default::default()
    };
    let info = cfg.connection_info();
    assert_eq!(info.redis.password.as_deref(), Some("s3cr3t"));
    assert_eq!(info.redis.db, 3);
    assert_eq!((info.addr.host.as_str(), info.addr.port), ("10.8.0.1", 6380));
}

#[test]
fn two_namespaces_have_different_keys() {
    let first = CacheConfig { namespace: "perses-test:namespace".to_string(), ..Default::default() };
    assert_eq!(first.key("marqueur"), "perses-test:namespace:marqueur");
    let other = CacheConfig { namespace: "autre".to_string(), ..Default::default() };
    assert_ne!(first.key("marqueur"), other.key("marqueur"));
}

fn vars() -> CacheVars {
    CacheVars { host: None, port: None, db: None, password: None }
}

#[test]
fn reads_the_environment() {
    let some = |s: &str| Some(s.to_string());
    let cfg = CacheConfig::from_env(&CacheVars {
        host: some("redis"),
        port: some("6380"),
        db: some("-3"),
        password: some("p"),
    })
    .unwrap();
    assert_eq!((cfg.host.as_str(), cfg.port, cfg.db), ("redis", 6380, -3));
    assert_eq!(cfg.password.as_deref(), Some("p"));
    assert_eq!(cfg.endpoint(), "redis:6380/-3");

    let cfg = CacheConfig::from_env(&CacheVars { password: some(""), ..vars() }).unwrap();
    assert_eq!(cfg.password, None, "an empty password is none");
    assert_eq!(cfg.namespace, "perses");
}

#[test]
fn settings_that_cannot_be_read_are_an_error() {
    let bad = |vars: CacheVars| match CacheConfig::from_env(&vars) {
        Err(CacheError::InvalidConfig(said)) => said,
        other => panic!("{other:?}"),
    };
    assert_eq!(
        bad(CacheVars { port: Some("65536".to_string()), ..vars() }),
        "REDIS_PORT invalide: 65536"
    );
    assert_eq!(
        bad(CacheVars { db: Some("0x1".to_string()), ..vars() }),
        "REDIS_DB invalide: 0x1"
    );
}

fn fault(dropped: bool, io: bool, refused: bool) -> RedisFault {
    RedisFault { dropped, io, refused, text: "t".to_string() }
}

/// Carries a command through; `answers` are what the server says each time.
fn run(cache: &mut Cache, answers: Vec<Result<(), RedisFault>>) -> (usize, Result<(), CacheError>) {
    let mut sent = 0;
    let mut answers = answers.into_iter();
    let mut step = cache.run("GET", CommandEvent::Begin);
    loop {
        step = match step {
            CommandStep::Connect { retried } => {
                cache.run("GET", CommandEvent::Connected { retried, result: Ok(()) })
            }
            CommandStep::Send { retried } => {
                sent += 1;
                let result = answers.next().unwrap();
                cache.run("GET", CommandEvent::Answered { retried, result })
            }
            CommandStep::Done => return (sent, Ok(())),
            CommandStep::Failed(e) => return (sent, Err(e)),
        };
    }
}

#[test]
fn a_lost_connection_is_opened_again_and_the_command_sent_again() {
    let mut cache = Cache::new(CacheConfig::default());
    assert!(!cache.connected);
    let (sent, outcome) = run(&mut cache, vec![Err(fault(true, false, false)), Ok(())]);
    assert_eq!(sent, 2);
    assert!(outcome.is_ok() && cache.connected);

    let (sent, outcome) = run(&mut cache, vec![Ok(())]);
    assert_eq!((sent, outcome.is_ok()), (1, true));

    let lost = || Err(fault(false, true, false));
    let (sent, outcome) = run(&mut cache, vec![lost(), lost()]);
    assert_eq!(sent, 2, "once, not for ever");
    assert!(outcome.unwrap_err().is_connection_issue());
}

#[test]
fn a_command_that_is_refused_is_not_sent_again() {
    let mut cache = Cache::new(CacheConfig::default());
    let (sent, outcome) = run(&mut cache, vec![Err(fault(false, false, false))]);
    assert_eq!(sent, 1);
    match outcome {
        Err(e) => {
            assert!(!e.is_connection_issue());
            match e {
                CacheError::Command { command, source } => {
                    assert_eq!((command, source.text.as_str()), ("GET", "t"));
                }
                other => panic!("{other:?}"),
            }
        }
        Ok(()) => panic!("refused"),
    }
}

#[test]
fn a_server_that_cannot_be_reached_is_named_without_the_password() {
    let config = CacheConfig { password: Some("p".to_string()), ..Default::default() };
    let mut cache = Cache::new(config);
    let event = CommandEvent::Connected { retried: false, result: Err(fault(false, false, true)) };
    match cache.run("PING", event) {
        CommandStep::Failed(e) => {
            assert!(e.is_connection_issue());
            match e {
                CacheError::Connect { endpoint, .. } => assert_eq!(endpoint, "127.0.0.1:6379/0"),
                other => panic!("{other:?}"),
            }
        }
        other => panic!("{other:?}"),
    }
}

#[test]
fn a_value_is_kept_a_second_at_least() {
    assert_eq!(ttl_seconds(0), 1);
    assert_eq!(ttl_seconds(999_999_999), 1);
    assert_eq!(ttl_seconds(2_500_000_000), 2);
    assert!(changed(1));
    assert!(!changed(0));
}

#[test]
fn keys_are_namespaced_in_all_that_is_asked() {
    let cache = Cache::new(CacheConfig::default());
    let said = |request: Request| format!("{} {}", request.command, request.args.join(" "));
    assert_eq!(said(cache.ping()), "PING ");
    assert_eq!(said(cache.set("k", "v")), "SET perses:k v");
    assert_eq!(said(cache.set_with_ttl("k", "v", 90_500_000_000)), "SETEX perses:k 90 v");
    assert_eq!(said(cache.set_with_ttl("k", "v", 0)), "SETEX perses:k 1 v");
    assert_eq!(said(cache.get("k")), "GET perses:k");
    assert_eq!(said(cache.delete("k")), "DEL perses:k");
    assert_eq!(said(cache.key_exists("k")), "EXISTS perses:k");
    assert_eq!(said(cache.increment("k", -5)), "INCRBY perses:k -5");
    assert_eq!(said(cache.expire("k", 60_000_000_000)), "EXPIRE perses:k 60");
    assert_eq!(said(cache.add_to_set("s", "m")), "SADD perses:s m");
    assert_eq!(said(cache.remove_from_set("s", "m")), "SREM perses:s m");
    assert_eq!(said(cache.set_contains("s", "m")), "SISMEMBER perses:s m");
    assert_eq!(said(cache.set_members("s")), "SMEMBERS perses:s");
    assert_eq!(said(cache.set_len("s")), "SCARD perses:s");
}
