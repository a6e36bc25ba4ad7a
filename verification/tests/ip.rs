//! Internet addresses as text.

use perses_mother::ip::{read_address, IpAddr, SocketAddr};

fn parse(s: &str) -> Option<IpAddr> {
    IpAddr::from_text(s)
}

fn v6(groups: [u16; 8]) -> IpAddr {
    let mut n: u128 = 0;
    for g in groups {
        n = n << 16 | g as u128;
    }
    IpAddr::V6(n)
}

#[test]
fn reads_ipv4_addresses() {
    assert_eq!(parse("10.8.0.1"), Some(IpAddr::V4(0x0a08_0001)));
    assert_eq!(parse("255.255.255.255"), Some(IpAddr::V4(u32::MAX)));
    assert_eq!(parse("0.0.0.0"), Some(IpAddr::V4(0)));
    for wrong in ["", "1.2.3", "1.2.3.4.5", "256.1.1.1", "01.2.3.4", "1..2.3", "1.2.3.4 ", "+1.2.3.4", "1.2.3.0004"] {
        assert_eq!(parse(wrong), None, "{wrong}");
    }
}

#[test]
fn reads_ipv6_addresses() {
    assert_eq!(parse("::"), Some(IpAddr::V6(0)));
    assert_eq!(parse("::1"), Some(IpAddr::V6(1)));
    assert_eq!(parse("fd00::3"), Some(v6([0xfd00, 0, 0, 0, 0, 0, 0, 3])));
    assert_eq!(parse("1:2:3:4:5:6:7:8"), Some(v6([1, 2, 3, 4, 5, 6, 7, 8])));
    assert_eq!(parse("2001:DB8::aB"), Some(v6([0x2001, 0xdb8, 0, 0, 0, 0, 0, 0xab])));
    assert_eq!(parse("1::"), Some(v6([1, 0, 0, 0, 0, 0, 0, 0])));
    assert_eq!(parse("1:2:3:4:5:6:7::"), Some(v6([1, 2, 3, 4, 5, 6, 7, 0])));
    assert_eq!(parse("::ffff:10.8.0.2"), Some(v6([0, 0, 0, 0, 0, 0xffff, 0x0a08, 2])));
    assert_eq!(parse("1:2:3:4:5:6:1.2.3.4"), Some(v6([1, 2, 3, 4, 5, 6, 0x102, 0x304])));
    for wrong in [
        ":", ":::", "1:2:3:4:5:6:7", "1:2:3:4:5:6:7:8:9", "1:2:3:4:5:6:7:8::", "::1::",
        "12345::", "g::", "1.2.3.4::", "1:2:3:4:5:6:7:1.2.3.4", ":1::2", "::1:", "fe80::1%2",
    ] {
        assert_eq!(parse(wrong), None, "{wrong}");
    }
}

#[test]
fn writes_addresses_in_their_shortest_form() {
    assert_eq!(IpAddr::v4(10, 8, 0, 2).to_string(), "10.8.0.2");
    assert_eq!(IpAddr::V6(0).to_string(), "::");
    assert_eq!(IpAddr::V6(1).to_string(), "::1");
    assert_eq!(v6([1, 0, 0, 0, 0, 0, 0, 0]).to_string(), "1::");
    assert_eq!(v6([0x2001, 0xdb8, 0, 0, 1, 0, 0, 1]).to_string(), "2001:db8::1:0:0:1");
    assert_eq!(v6([1, 0, 2, 3, 4, 5, 6, 7]).to_string(), "1:0:2:3:4:5:6:7");
    assert_eq!(v6([1, 0, 0, 2, 0, 0, 0, 3]).to_string(), "1:0:0:2::3");
    assert_eq!(v6([0, 0, 0, 0, 0, 0xffff, 0x0a08, 2]).to_string(), "::ffff:10.8.0.2");
    assert_eq!(v6([0xffff; 8]).to_string(), "ffff:ffff:ffff:ffff:ffff:ffff:ffff:ffff");
    assert!(IpAddr::V6(1).is_ipv6());
    assert!(!IpAddr::V4(1).is_ipv6());
}

#[test]
fn what_is_written_reads_back() {
    for n in [0u32, 1, 255, 256, 0x0a08_0001, 0x7f00_0001, u32::MAX] {
        assert_eq!(parse(&IpAddr::V4(n).to_string()), Some(IpAddr::V4(n)));
    }
    let mut n: u128 = 1;
    for _ in 0..200 {
        n = n.wrapping_mul(0x1_0000_0000_0000_01b3).rotate_left(17) & !(0xffff << 48);
        let address = IpAddr::V6(n);
        assert_eq!(parse(&address.to_string()), Some(address), "{n:x}");
        assert_eq!(SocketAddr::from_text(&address.to_string()), None, "{n:x}");
        let mut socket = SocketAddr::new(address, 53);
        socket.scope_id = n as u32 % 3;
        assert_eq!(SocketAddr::from_text(&socket.to_string()), Some(socket), "{n:x}");
    }
}

#[test]
fn reads_and_writes_an_address_with_its_port() {
    let a = SocketAddr::from_text("10.8.0.1:53").unwrap();
    assert_eq!(a, SocketAddr::new(IpAddr::v4(10, 8, 0, 1), 53));
    assert_eq!(a.to_string(), "10.8.0.1:53");

    let b = SocketAddr::from_text("[::1]:0053").unwrap();
    assert_eq!(b, SocketAddr::new(IpAddr::V6(1), 53));
    assert_eq!(b.to_string(), "[::1]:53");

    let c = SocketAddr::from_text("[fe80::1%7]:1").unwrap();
    assert_eq!(c.scope_id, 7);
    assert_eq!(c.to_string(), "[fe80::1%7]:1");

    for wrong in ["10.8.0.1", "10.8.0.1:", "10.8.0.1:65536", "::1:53", "[::1]", "[::1]53", "[10.8.0.1]:53", "10.8.0.1:+5"] {
        assert_eq!(SocketAddr::from_text(wrong), None, "{wrong}");
    }
}

#[test]
fn reads_an_address_from_its_bytes() {
    assert_eq!(read_address(&[10, 8, 0, 2]), IpAddr::v4(10, 8, 0, 2));
    let mut bytes = [0u8; 16];
    bytes[0] = 0xfd;
    bytes[15] = 3;
    assert_eq!(read_address(&bytes).to_string(), "fd00::3");
}
