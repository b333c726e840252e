//! Tests of the filter expression parser.

use netdump::addr::{Ipv4Addr, Ipv6Addr};
use netdump::{parse, Direction, FilterAst, HostAddr, NetAddr, Protocol, RelOp};

#[test]
fn parse_simple_proto() {
    let ast = parse("tcp").unwrap();
    assert_eq!(ast, FilterAst::Proto(Protocol::Tcp));
}

#[test]
fn parse_host() {
    let ast = parse("host 192.168.1.1").unwrap();
    assert_eq!(
        ast,
        FilterAst::Host {
            addr: HostAddr::V4(Ipv4Addr::new(192, 168, 1, 1)),
            dir: Direction::Any,
        }
    );
}

#[test]
fn parse_src_host_ipv6() {
    let ast = parse("src host fe80::1").unwrap();
    assert_eq!(
        ast,
        FilterAst::Host {
            addr: HostAddr::V6(Ipv6Addr::new(0xfe80, 0, 0, 0, 0, 0, 0, 1)),
            dir: Direction::Src,
        }
    );
}

#[test]
fn parse_port() {
    let ast = parse("port 80").unwrap();
    assert_eq!(
        ast,
        FilterAst::Port {
            port: 80,
            dir: Direction::Any
        }
    );
}

#[test]
fn parse_src_port() {
    let ast = parse("src port 443").unwrap();
    assert_eq!(
        ast,
        FilterAst::Port {
            port: 443,
            dir: Direction::Src
        }
    );
}

#[test]
fn parse_portrange() {
    let ast = parse("portrange 1000-2000").unwrap();
    assert_eq!(
        ast,
        FilterAst::PortRange {
            start: 1000,
            end: 2000,
            dir: Direction::Any
        }
    );
}

#[test]
fn parse_net_ipv4() {
    let ast = parse("net 192.168.0.0/16").unwrap();
    assert_eq!(
        ast,
        FilterAst::Net {
            addr: NetAddr::V4 {
                addr: Ipv4Addr::new(192, 168, 0, 0),
                mask: Ipv4Addr::new(255, 255, 0, 0)
            },
            dir: Direction::Any,
        }
    );
}

#[test]
fn parse_net_ipv6() {
    let ast = parse("src net fe80::/10").unwrap();
    assert_eq!(
        ast,
        FilterAst::Net {
            addr: NetAddr::V6 {
                addr: Ipv6Addr::new(0xfe80, 0, 0, 0, 0, 0, 0, 0),
                mask: Ipv6Addr::new(0xffc0, 0, 0, 0, 0, 0, 0, 0)
            },
            dir: Direction::Src,
        }
    );
}

#[test]
fn parse_ether_host() {
    let ast = parse("ether host aa:bb:cc:dd:ee:ff").unwrap();
    assert_eq!(
        ast,
        FilterAst::EtherHost {
            addr: [0xaa, 0xbb, 0xcc, 0xdd, 0xee, 0xff],
            dir: Direction::Any,
        }
    );
}

#[test]
fn parse_line_protocol_shortcuts() {
    assert_eq!(parse("ip").unwrap(), FilterAst::Proto(Protocol::Ip));
    assert_eq!(parse("ip6").unwrap(), FilterAst::Proto(Protocol::Ip6));
    assert_eq!(parse("arp").unwrap(), FilterAst::Proto(Protocol::Arp));
    assert_eq!(parse("rarp").unwrap(), FilterAst::Proto(Protocol::Rarp));
    assert_eq!(parse("icmp").unwrap(), FilterAst::Proto(Protocol::Icmp));
    assert_eq!(parse("icmp6").unwrap(), FilterAst::Proto(Protocol::Icmp6));
}

#[test]
fn parse_and_expression() {
    let ast = parse("tcp and port 80").unwrap();
    assert_eq!(
        ast,
        FilterAst::And(
            Box::new(FilterAst::Proto(Protocol::Tcp)),
            Box::new(FilterAst::Port {
                port: 80,
                dir: Direction::Any
            }),
        )
    );
}

#[test]
fn parse_or_expression() {
    let ast = parse("tcp or udp").unwrap();
    assert_eq!(
        ast,
        FilterAst::Or(
            Box::new(FilterAst::Proto(Protocol::Tcp)),
            Box::new(FilterAst::Proto(Protocol::Udp)),
        )
    );
}

#[test]
fn parse_not_expression() {
    let ast = parse("not arp").unwrap();
    assert_eq!(
        ast,
        FilterAst::Not(Box::new(FilterAst::Proto(Protocol::Arp)))
    );
}

#[test]
fn parse_parens_precedence() {
    let ast = parse("tcp and (port 80 or port 443)").unwrap();
    assert_eq!(
        ast,
        FilterAst::And(
            Box::new(FilterAst::Proto(Protocol::Tcp)),
            Box::new(FilterAst::Or(
                Box::new(FilterAst::Port {
                    port: 80,
                    dir: Direction::Any
                }),
                Box::new(FilterAst::Port {
                    port: 443,
                    dir: Direction::Any
                }),
            )),
        )
    );
}

#[test]
fn parse_len_shortcuts() {
    let ast1 = parse("greater 100").unwrap();
    assert_eq!(
        ast1,
        FilterAst::Len {
            op: RelOp::Gt,
            len: 100
        }
    );
    let ast2 = parse("less 50").unwrap();
    assert_eq!(
        ast2,
        FilterAst::Len {
            op: RelOp::Lt,
            len: 50
        }
    );
    let ast3 = parse("len >= 64").unwrap();
    assert_eq!(
        ast3,
        FilterAst::Len {
            op: RelOp::Ge,
            len: 64
        }
    );
}

#[test]
fn parse_error_empty() {
    let err = parse("");
    assert!(err.is_err());
}

#[test]
fn parse_error_invalid_proto() {
    let err = parse("unknown_proto").unwrap_err();
    assert!(!err.0.is_empty());
}

#[test]
fn parse_error_invalid_port() {
    let err = parse("port 99999").unwrap_err();
    assert!(err.0.contains("invalid port"));
}

#[test]
fn parse_error_invalid_ip() {
    let err = parse("host 999.999.999.999").unwrap_err();
    assert!(!err.0.is_empty());
}
