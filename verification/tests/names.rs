//! Names from the network, and their safe display.

use perses_mother::name::{escape, escape_into};

#[test]
fn keeps_ordinary_host_names_intact() {
    assert_eq!(escape(b"api.github.com"), "api.github.com");
    assert_eq!(escape(b"xn--80ak6aa92e.com"), "xn--80ak6aa92e.com");
}

#[test]
fn escapes_anything_a_terminal_would_interpret() {
    assert_eq!(escape(b"\x1b[2Kevil"), "\\027[2Kevil");
    assert_eq!(escape(b"a b"), "a\\032b");
    assert_eq!(escape(b"a\\b"), "a\\\\b");
    assert_eq!(escape(b"\n"), "\\010");
    assert_eq!(escape("café".as_bytes()), "caf\\195\\169");
}

#[test]
fn escaping_goes_on_behind_what_is_there() {
    let mut out = String::from("name=");
    escape_into(b"a.b\x00", &mut out);
    assert_eq!(out, "name=a.b\\000");
    assert_eq!(escape(b""), "");
}

#[test]
fn every_byte_is_shown_in_visible_ascii_and_differently() {
    let mut seen: Vec<String> = Vec::new();
    for b in 0..=255u8 {
        let shown = escape(&[b]);
        assert!(shown.chars().all(|c| ('!'..='~').contains(&c)), "{b}: {shown}");
        assert!(!seen.contains(&shown), "{b}: {shown}");
        seen.push(shown);
    }
}
