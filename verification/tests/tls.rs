//! The server name of a TLS ClientHello.

use perses_mother::tls::client_hello::{
    EXT_SERVER_NAME, HANDSHAKE_CLIENT_HELLO, NAME_TYPE_HOST, RECORD_HANDSHAKE,
};
use perses_mother::tls::{server_name, TlsError};

/// A minimal ClientHello that announces `sni`.
fn client_hello(sni: &str) -> Vec<u8> {
    let mut list = vec![NAME_TYPE_HOST];
    list.extend_from_slice(&(sni.len() as u16).to_be_bytes());
    list.extend_from_slice(sni.as_bytes());

    let mut body = (list.len() as u16).to_be_bytes().to_vec();
    body.extend_from_slice(&list);
    with_extension(EXT_SERVER_NAME, &body)
}

/// A ClientHello whose only extension is padding.
fn client_hello_without_sni() -> Vec<u8> {
    with_extension(0x0015, &[0x00, 0x00])
}

/// A ClientHello with a single extension.
fn with_extension(ext_type: u16, ext_body: &[u8]) -> Vec<u8> {
    let mut extensions = ext_type.to_be_bytes().to_vec();
    extensions.extend_from_slice(&(ext_body.len() as u16).to_be_bytes());
    extensions.extend_from_slice(ext_body);

    let mut hello = vec![0x03, 0x03];
    hello.extend_from_slice(&[0x00; 32]);
    hello.push(0x00);
    hello.extend_from_slice(&[0x00, 0x02, 0x13, 0x01]);
    hello.extend_from_slice(&[0x01, 0x00]);
    hello.extend_from_slice(&(extensions.len() as u16).to_be_bytes());
    hello.extend_from_slice(&extensions);

    let mut handshake = vec![HANDSHAKE_CLIENT_HELLO];
    let len = hello.len();
    handshake.extend_from_slice(&[(len >> 16) as u8, (len >> 8) as u8, len as u8]);
    handshake.extend_from_slice(&hello);

    let mut record = vec![RECORD_HANDSHAKE, 0x03, 0x01];
    record.extend_from_slice(&(handshake.len() as u16).to_be_bytes());
    record.extend_from_slice(&handshake);
    record
}

#[test]
fn reads_the_server_name() {
    assert_eq!(
        server_name(&client_hello("api.github.com")).unwrap(),
        "api.github.com"
    );
}

#[test]
fn a_split_client_hello_asks_for_more() {
    let hello = client_hello("github.com");
    for len in 1..hello.len() {
        assert_eq!(
            server_name(&hello[..len]),
            Err(TlsError::Incomplete),
            "préfixe de {len} octets"
        );
    }
}

#[test]
fn rejects_what_is_not_a_client_hello() {
    assert_eq!(server_name(b""), Err(TlsError::Incomplete));
    assert_eq!(
        server_name(&[0x17, 0x03, 0x03, 0x00, 0x01, 0x00]),
        Err(TlsError::NotAClientHello),
        "un record de données applicatives"
    );

    let mut server_hello = client_hello("example.com");
    server_hello[5] = 0x02; // ServerHello
    assert_eq!(server_name(&server_hello), Err(TlsError::NotAClientHello));
}

#[test]
fn a_client_hello_without_sni_is_reported_as_such() {
    let hello = client_hello_without_sni();
    assert_eq!(server_name(&hello), Err(TlsError::NoServerName));
}

#[test]
fn a_lying_length_field_cannot_read_past_the_end() {
    let mut hello = client_hello("example.com");
    hello[3] = 0xFF; // the record announces 65 xxx bytes
    hello[4] = 0xFF;
    assert_eq!(server_name(&hello), Err(TlsError::Incomplete));
}

#[test]
fn control_bytes_in_the_name_are_escaped() {
    let hello = client_hello("a\u{1b}b.com");
    let name = server_name(&hello).unwrap();
    assert_eq!(name, "a\\027b.com");
    assert!(!name.contains('\u{1b}'));
}

#[test]
fn what_follows_the_record_changes_nothing() {
    let mut hello = client_hello("github.com");
    hello.extend_from_slice(&[0x16, 0x03, 0x01, 0xff]);
    assert_eq!(server_name(&hello).unwrap(), "github.com");
}

#[test]
fn an_empty_host_name_is_malformed() {
    assert_eq!(server_name(&client_hello("")), Err(TlsError::Malformed));
}

#[test]
fn names_of_another_type_are_passed_over() {
    // A name of type 7 stands before the host.
    let mut list = vec![7, 0, 2, b'x', b'y', NAME_TYPE_HOST, 0, 3];
    list.extend_from_slice(b"a.b");
    let mut body = (list.len() as u16).to_be_bytes().to_vec();
    body.extend_from_slice(&list);
    assert_eq!(server_name(&with_extension(EXT_SERVER_NAME, &body)).unwrap(), "a.b");
}
