//! Filter expressions in text form: what is accepted, and what is said of the rest.

use netdump::addr::{Ipv4Addr, Ipv6Addr};
use netdump::text::chars_of;
use netdump::values::{combine_net, default_netmask, parse_mac, parse_relop, NetMask};
use netdump::{parse, Direction, FilterAst, HostAddr, NetAddr, Protocol, RelOp};

fn message(text: &str) -> String {
    parse(text).unwrap_err().message()
}

fn proto(proto: Protocol) -> FilterAst {
    FilterAst::Proto(proto)
}

fn port(port: u16) -> FilterAst {
    FilterAst::Port {
        port,
        dir: Direction::Any,
    }
}

fn v4_net(text: &str) -> (u32, u32) {
    match parse(text).unwrap() {
        FilterAst::Net {
            addr: NetAddr::V4 { addr, mask },
            ..
        } => (addr.bits, mask.bits),
        other => panic!("{other:?}"),
    }
}

fn v6_net(text: &str) -> (u128, u128) {
    match parse(text).unwrap() {
        FilterAst::Net {
            addr: NetAddr::V6 { addr, mask },
            ..
        } => (addr.bits, mask.bits),
        other => panic!("{other:?}"),
    }
}

#[test]
fn keywords_may_be_in_either_case() {
    assert_eq!(
        parse("TCP And pORt 80").unwrap(),
        parse("tcp and port 80").unwrap()
    );
}

#[test]
fn and_may_be_left_out() {
    assert_eq!(
        parse("tcp port 80").unwrap(),
        parse("tcp and port 80").unwrap()
    );
    assert_eq!(
        parse("tcp not port 22 (udp)").unwrap(),
        parse("tcp and not port 22 and udp").unwrap()
    );
}

#[test]
fn and_binds_before_or() {
    let expected = FilterAst::Or(
        Box::new(FilterAst::And(
            Box::new(proto(Protocol::Tcp)),
            Box::new(port(80)),
        )),
        Box::new(FilterAst::And(
            Box::new(proto(Protocol::Udp)),
            Box::new(port(53)),
        )),
    );
    assert_eq!(parse("tcp and port 80 or udp and port 53").unwrap(), expected);
}

#[test]
fn operators_group_to_the_left() {
    let expected = FilterAst::Or(
        Box::new(FilterAst::Or(
            Box::new(proto(Protocol::Tcp)),
            Box::new(proto(Protocol::Udp)),
        )),
        Box::new(proto(Protocol::Icmp)),
    );
    assert_eq!(parse("tcp or udp or icmp").unwrap(), expected);
}

#[test]
fn not_binds_to_the_next_primary() {
    let expected = FilterAst::And(
        Box::new(FilterAst::Not(Box::new(proto(Protocol::Tcp)))),
        Box::new(proto(Protocol::Udp)),
    );
    assert_eq!(parse("not tcp and udp").unwrap(), expected);
}

#[test]
fn white_space_is_free() {
    assert_eq!(
        parse(" \t( tcp\r\nor udp )and portrange 1 - 9 ").unwrap(),
        parse("(tcp or udp) and portrange 1-9").unwrap()
    );
    assert_eq!(parse("greater\t100").unwrap(), parse("greater 100").unwrap());
    assert_eq!(parse("LESS\r\n100").unwrap(), parse("less 100").unwrap());
}

#[test]
fn ether_takes_a_direction_or_host() {
    let addr = [0x0a, 0xb, 0xc, 0xd, 0xe, 0xf];
    for (text, dir) in [
        ("ether host a:b:c:d:e:f", Direction::Any),
        ("ether 0a:0b:0c:0d:0e:0f", Direction::Any),
        ("ether src a:b:c:d:e:f", Direction::Src),
        ("ether dst host A:B:C:D:E:F", Direction::Dst),
    ] {
        assert_eq!(parse(text).unwrap(), FilterAst::EtherHost { addr, dir });
    }
}

#[test]
fn every_relational_operator() {
    for (text, op) in [
        ("len = 7", RelOp::Eq),
        ("len == 7", RelOp::Eq),
        ("len != 7", RelOp::Ne),
        ("len > 7", RelOp::Gt),
        ("len >= 7", RelOp::Ge),
        ("len<7", RelOp::Lt),
        ("len<=7", RelOp::Le),
    ] {
        assert_eq!(parse(text).unwrap(), FilterAst::Len { op, len: 7 });
    }
    assert_eq!(parse_relop(&chars_of("=<")), None);
}

#[test]
fn network_without_mask_has_that_of_its_class() {
    assert_eq!(v4_net("net 127.0.0.0"), (0x7f00_0000, 0xff00_0000));
    assert_eq!(v4_net("net 128.1.0.0"), (0x8001_0000, 0xffff_0000));
    assert_eq!(v4_net("net 192.168.7.0"), (0xc0a8_0700, 0xffff_ff00));
    assert_eq!(v4_net("net 224.0.0.1"), (0xe000_0001, 0xffff_ffff));
    assert_eq!(v6_net("net fe80::1").1, u128::MAX);
    assert_eq!(
        default_netmask(&HostAddr::V4(Ipv4Addr::new(191, 0, 0, 0))),
        NetMask::Prefix(16)
    );
}

#[test]
fn prefix_lengths() {
    assert_eq!(v4_net("net 10.0.0.0/0").1, 0);
    assert_eq!(v4_net("net 10.0.0.0/1").1, 0x8000_0000);
    assert_eq!(v4_net("net 10.0.0.0/32").1, u32::MAX);
    assert_eq!(v6_net("net fe80::/0").1, 0);
    assert_eq!(v6_net("net fe80::/128").1, u128::MAX);
    assert_eq!(v6_net("net fe80:: mask ffff::").1, 0xffff << 112);
}

#[test]
fn errors_in_values() {
    assert_eq!(
        message("port 65536"),
        "invalid port: number too large to fit in target type"
    );
    assert_eq!(
        message("portrange 65536-1"),
        "invalid number: number too large to fit in target type"
    );
    assert_eq!(
        message("portrange 1-99999"),
        "invalid number: number too large to fit in target type"
    );
    assert_eq!(
        message("portrange 2000-1000"),
        "portrange start port is greater than end port"
    );
    assert_eq!(
        message("len > 4294967296"),
        "invalid number: number too large to fit in target type"
    );
    assert_eq!(
        message("host 1.2.3.400"),
        "invalid IP address: 1.2.3.400"
    );
    assert_eq!(message("net fe80:::/9"), "invalid IP address: fe80:::");
    assert_eq!(
        message("net 10.0.0.0/33"),
        "IPv4 prefix length must be <= 32"
    );
    assert_eq!(
        message("net fe80::/129"),
        "IPv6 prefix length must be <= 128"
    );
    assert_eq!(
        message("net 10.0.0.0/256"),
        "invalid prefix length: number too large to fit in target type"
    );
    assert_eq!(
        message("net 10.0.0.0 mask ffff::"),
        "invalid IPv4 mask: invalid IPv4 address syntax"
    );
    assert_eq!(
        message("net fe80:: mask 255.0.0.0"),
        "invalid IPv6 mask: invalid IPv6 address syntax"
    );
}

#[test]
fn left_error_comes_first() {
    assert_eq!(
        message("port 99999 and host 1.2.3.400"),
        "invalid port: number too large to fit in target type"
    );
    assert_eq!(
        message("not host 1.2.3.400 or port 99999"),
        "invalid IP address: 1.2.3.400"
    );
}

#[test]
fn syntax_error_comes_before_value_error() {
    assert_eq!(
        message("port 99999 and nonsense"),
        "unexpected 'nonsense' at column 16"
    );
}

#[test]
fn errors_in_syntax() {
    let end = "unexpected end of filter expression";
    for text in ["", "  ", "tcp and", "not", "(tcp", "port", "src", "ether src", "len >"] {
        assert_eq!(message(text), end, "{text}");
    }
    for (text, expected) in [
        ("tcp)", "unexpected ')' at column 4"),
        ("tcp or or udp", "unexpected 'or' at column 8"),
        ("not not tcp", "unexpected 'not' at column 5"),
        ("src tcp", "unexpected 'tcp' at column 5"),
        ("host example", "unexpected 'example' at column 6"),
        ("port http", "unexpected 'http' at column 6"),
        ("portrange 1 2", "unexpected '2' at column 13"),
        ("net 10.0.0.0/x", "unexpected 'x' at column 14"),
        ("len => 5", "unexpected '=>' at column 5"),
        ("len 5", "unexpected '5' at column 5"),
        ("ether host aa:bb", "unexpected 'aa:bb' at column 12"),
        ("greater than", "unexpected 'than' at column 9"),
    ] {
        assert_eq!(message(text), expected, "{text}");
    }
}

#[test]
fn mac_addresses() {
    let mac = |text: &str| parse_mac(&chars_of(text)).map_err(|e| e.message());
    assert_eq!(mac("01:23:45:67:89:aB"), Ok([1, 0x23, 0x45, 0x67, 0x89, 0xab]));
    assert_eq!(mac("1:+2"), Ok([1, 2, 0, 0, 0, 0]));
    assert_eq!(
        mac("1:2:3:4:5:6:7"),
        Err("MAC address exceeds 6 bytes".to_string())
    );
    assert_eq!(
        mac("1::3"),
        Err("invalid MAC: cannot parse integer from empty string".to_string())
    );
    assert_eq!(
        mac("1:g"),
        Err("invalid MAC: invalid digit found in string".to_string())
    );
    assert_eq!(
        mac("+"),
        Err("invalid MAC: invalid digit found in string".to_string())
    );
    assert_eq!(
        mac("100"),
        Err("invalid MAC: number too large to fit in target type".to_string())
    );
    assert_eq!(mac("0ff").unwrap()[0], 0xff);
}

#[test]
fn network_of_two_versions() {
    let host = HostAddr::V4(Ipv4Addr::new(10, 0, 0, 0));
    let mask = NetMask::V6(Ipv6Addr { bits: 0 });
    assert_eq!(
        combine_net(host, mask).unwrap_err().message(),
        "IP address and mask version mismatch"
    );
}
