use loganon::validate::check_ip4;
use loganon::validate::check_ip6;

fn v4(s: &str) -> bool {
    check_ip4(&s.as_bytes().to_vec())
}

fn v6(s: &str) -> bool {
    check_ip6(&s.as_bytes().to_vec())
}

#[test]
fn ip4_accepts_well_formed_quads() {
    assert!(v4("0.0.0.0"));
    assert!(v4("255.255.255.255"));
    assert!(v4("192.168.1.10"));
    assert!(v4("1.2.3.4"));
    assert!(v4("001.02.3.44"));
}

#[test]
fn ip4_rejects_malformed_text() {
    assert!(!v4("256.1.1.1"));
    assert!(!v4("1.2.3"));
    assert!(!v4("1.2.3.4.5"));
    assert!(!v4("1..2.3"));
    assert!(!v4("1234.1.1.1"));
    assert!(!v4("a.b.c.d"));
    assert!(!v4("1.2.3.4 "));
    assert!(!v4(""));
    assert!(!v4("1299.1.1.1"));
}

#[test]
fn ip6_accepts_well_formed_addresses() {
    assert!(v6("::"));
    assert!(v6("::1"));
    assert!(v6("1::"));
    assert!(v6("2001:db8::1"));
    assert!(v6("1:2:3:4:5:6:7:8"));
    assert!(v6("fe80::a:b:c:d"));
    assert!(v6("::ffff:192.0.2.128"));
    assert!(v6("1:2:3:4:5:6:1.2.3.4"));
    assert!(v6("1:2:3:4:5:6:7::"));
    assert!(v6("ABCD:ef01::2"));
}

#[test]
fn ip6_rejects_malformed_text() {
    assert!(!v6(""));
    assert!(!v6(":"));
    assert!(!v6(":::"));
    assert!(!v6("1:2"));
    assert!(!v6("12:30:45"));
    assert!(!v6("1:2:3:4:5:6:7:8:9"));
    assert!(!v6("1:2:3:4:5:6:7:8::"));
    assert!(!v6("1::2::3"));
    assert!(!v6("12345::1"));
    assert!(!v6("g::1"));
    assert!(!v6("1.2.3.4"));
    assert!(!v6("1:2:3:1.2.3.4:5"));
}
