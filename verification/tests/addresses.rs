//! The text form of IP addresses.

use netdump::addr::{IpAddr, Ipv4Addr, Ipv6Addr};
use netdump::addr_text::{parse_ipv4, parse_ipv6, push_ip};
use netdump::text::chars_of;
use netdump::HostAddr;

fn v4(text: &str) -> Option<u32> {
    parse_ipv4(&chars_of(text)).map(|addr| addr.bits)
}

fn v6(text: &str) -> Option<u128> {
    parse_ipv6(&chars_of(text)).map(|addr| addr.bits)
}

fn text(addr: IpAddr) -> String {
    let mut out = String::new();
    push_ip(&mut out, addr);
    out
}

fn text6(a: [u16; 8]) -> String {
    text(IpAddr::V6(Ipv6Addr::new(
        a[0], a[1], a[2], a[3], a[4], a[5], a[6], a[7],
    )))
}

#[test]
fn ipv4_text_is_strict() {
    assert_eq!(v4("192.168.1.1"), Some(0xc0a8_0101));
    assert_eq!(v4("0.0.0.0"), Some(0));
    assert_eq!(v4("255.255.255.255"), Some(u32::MAX));
    for bad in [
        "", "1.2.3", "1.2.3.4.5", "1.2.3.256", "01.2.3.4", "1..3.4", "1.2.3.4 ", "1.2.3.0000",
    ] {
        assert_eq!(v4(bad), None, "{bad}");
    }
}

#[test]
fn ipv6_text_in_full_and_shortened() {
    assert_eq!(
        v6("1:2:3:4:5:6:7:8"),
        Some(0x0001_0002_0003_0004_0005_0006_0007_0008)
    );
    assert_eq!(v6("::"), Some(0));
    assert_eq!(v6("::1"), Some(1));
    assert_eq!(v6("fe80::"), Some(0xfe80 << 112));
    assert_eq!(v6("1:2:3:4:5:6:7::"), Some(0x0001_0002_0003_0004_0005_0006_0007_0000));
    assert_eq!(v6("::ffff:1.2.3.4"), Some(0xffff_0102_0304));
    assert_eq!(v6("1:2:3:4:5:6:1.2.3.4"), v6("1:2:3:4:5:6:102:304"));
    assert_eq!(v6("FE80::aB"), Some((0xfe80 << 112) + 0xab));
    for bad in [
        "", ":", ":::", "1", "1:2:3:4:5:6:7", "1:2:3:4:5:6:7:8:9", "1::2::3", "12345::", "g::",
        "1:2:3:4:5:6:7:8::", "::1.2.3", "1.2.3.4::", "1:2:3:4:5:6:7:1.2.3.4", "1.2.3.4", ":1:2::",
    ] {
        assert_eq!(v6(bad), None, "{bad}");
    }
}

#[test]
fn addresses_are_shown_in_short_form() {
    assert_eq!(text(IpAddr::V4(Ipv4Addr::new(10, 0, 200, 7))), "10.0.200.7");
    assert_eq!(text6([0; 8]), "::");
    assert_eq!(text6([0, 0, 0, 0, 0, 0, 0, 1]), "::1");
    assert_eq!(text6([0xfe80, 0, 0, 0, 0, 0, 0, 0]), "fe80::");
    assert_eq!(text6([0x2001, 0xdb8, 0, 0, 1, 0, 0, 1]), "2001:db8::1:0:0:1");
    assert_eq!(text6([1, 0, 0, 2, 0, 0, 0, 3]), "1:0:0:2::3");
    assert_eq!(text6([1, 0, 2, 3, 4, 5, 6, 7]), "1:0:2:3:4:5:6:7");
    assert_eq!(text6([0, 0, 0, 0, 0, 0xffff, 0x0102, 0x0304]), "::ffff:1.2.3.4");
}

#[test]
fn shown_addresses_parse_back() {
    for bits in [0u32, 1, 0x7f00_0001, 0xc0a8_01fe, u32::MAX] {
        assert_eq!(v4(&text(IpAddr::V4(Ipv4Addr { bits }))), Some(bits));
    }
    for bits in [0u128, 1, 0xffff_0102_0304, 0xfe80 << 112, u128::MAX, 1 << 64, 1 << 48] {
        assert_eq!(v6(&text(IpAddr::V6(Ipv6Addr { bits }))), Some(bits));
    }
}

#[test]
fn parts_of_addresses() {
    assert_eq!(Ipv4Addr::new(1, 2, 3, 4).octets(), [1, 2, 3, 4]);
    let addr = Ipv6Addr::new(1, 2, 3, 4, 5, 6, 7, 8);
    assert_eq!(addr.segments(), [1, 2, 3, 4, 5, 6, 7, 8]);
    assert_eq!(
        addr.words(),
        [0x0001_0002, 0x0003_0004, 0x0005_0006, 0x0007_0008]
    );
    assert_eq!(HostAddr::from(IpAddr::V6(addr)), HostAddr::V6(addr));
}
