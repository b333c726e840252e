//! Compiled filters decide as the filter language of pcap says, worked out here from the fields of
//! each frame.

use netdump::{compile, parse, Vm};

const IPPROTO_ICMP: u8 = 1;
const IPPROTO_TCP: u8 = 6;
const IPPROTO_UDP: u8 = 17;
const IPPROTO_ICMPV6: u8 = 58;

fn calc_ipv4_checksum(header: &[u8]) -> u16 {
    let mut sum: u32 = 0;
    for chunk in header.chunks_exact(2) {
        sum += u16::from_be_bytes([chunk[0], chunk[1]]) as u32;
    }
    while (sum >> 16) != 0 {
        sum = (sum & 0xFFFF) + (sum >> 16);
    }
    !(sum as u16)
}

fn build_packet(
    proto: u8,
    src_ip: [u8; 4],
    dst_ip: [u8; 4],
    src_port: u16,
    dst_port: u16,
) -> Vec<u8> {
    build_packet_with_ihl(proto, src_ip, dst_ip, src_port, dst_port, 5)
}

fn build_packet_with_ihl(
    proto: u8,
    src_ip: [u8; 4],
    dst_ip: [u8; 4],
    src_port: u16,
    dst_port: u16,
    ihl: u8,
) -> Vec<u8> {
    assert!((5..=15).contains(&ihl));
    let ip_header_len = (ihl as usize) * 4;
    let transport_len = if proto == IPPROTO_UDP { 8 } else { 20 };
    let mut pkt = vec![0u8; 14 + ip_header_len + transport_len];

    // Ethernet header.
    pkt[12] = 0x08;
    pkt[13] = 0x00;

    // IPv4 header.
    let ip = 14;
    pkt[ip] = 0x40 | (ihl & 0x0f); // version 4, IHL
    let total_len = (ip_header_len + transport_len) as u16;
    pkt[ip + 2..ip + 4].copy_from_slice(&total_len.to_be_bytes());
    pkt[ip + 9] = proto;
    pkt[ip + 12..ip + 16].copy_from_slice(&src_ip);
    pkt[ip + 16..ip + 20].copy_from_slice(&dst_ip);
    let checksum = calc_ipv4_checksum(&pkt[ip..ip + ip_header_len]);
    pkt[ip + 10..ip + 12].copy_from_slice(&checksum.to_be_bytes());

    // Transport header.
    let tp = ip + ip_header_len;
    pkt[tp..tp + 2].copy_from_slice(&src_port.to_be_bytes());
    pkt[tp + 2..tp + 4].copy_from_slice(&dst_port.to_be_bytes());
    if proto == IPPROTO_TCP {
        // data offset = 5 (20 bytes)
        pkt[tp + 12] = 0x50;
    }

    pkt
}

fn build_ipv6_packet(
    proto: u8,
    src_ip: [u16; 8],
    dst_ip: [u16; 8],
    src_port: u16,
    dst_port: u16,
) -> Vec<u8> {
    let transport_len = if proto == IPPROTO_UDP || proto == IPPROTO_ICMPV6 {
        8
    } else {
        20
    };
    let mut pkt = vec![0u8; 14 + 40 + transport_len];

    // Ethernet header.
    pkt[12] = 0x86;
    pkt[13] = 0xdd;

    // IPv6 header.
    let ip = 14;
    pkt[ip..ip + 4].copy_from_slice(&0x60000000u32.to_be_bytes());
    pkt[ip + 4..ip + 6].copy_from_slice(&(transport_len as u16).to_be_bytes());
    pkt[ip + 6] = proto;
    pkt[ip + 7] = 64; // hop limit
    for (i, word) in src_ip.iter().enumerate() {
        pkt[ip + 8 + i * 2..ip + 10 + i * 2].copy_from_slice(&word.to_be_bytes());
    }
    for (i, word) in dst_ip.iter().enumerate() {
        pkt[ip + 24 + i * 2..ip + 26 + i * 2].copy_from_slice(&word.to_be_bytes());
    }

    // Transport header.
    let tp = ip + 40;
    if proto != IPPROTO_ICMPV6 {
        pkt[tp..tp + 2].copy_from_slice(&src_port.to_be_bytes());
        pkt[tp + 2..tp + 4].copy_from_slice(&dst_port.to_be_bytes());
    }
    if proto == IPPROTO_TCP {
        pkt[tp + 12] = 0x50;
    }

    pkt
}

fn build_arp_packet() -> Vec<u8> {
    let mut pkt = vec![0u8; 14 + 28];
    pkt[12] = 0x08;
    pkt[13] = 0x06;
    pkt
}

fn set_macs(pkt: &mut [u8], dst: [u8; 6], src: [u8; 6]) {
    pkt[0..6].copy_from_slice(&dst);
    pkt[6..12].copy_from_slice(&src);
}

fn all_packets() -> Vec<Vec<u8>> {
    let mut pkts = Vec::new();
    let ips = [
        ([192, 168, 1, 1], [192, 168, 1, 2]),
        ([10, 0, 0, 5], [10, 0, 0, 6]),
        ([172, 16, 0, 10], [192, 168, 1, 1]),
        ([8, 8, 8, 8], [1, 1, 1, 1]),
    ];
    let ports = [80u16, 443, 53, 22, 12345, 8080];

    let macs = [
        (
            [0xaa, 0xbb, 0xcc, 0xdd, 0xee, 0xff],
            [0x11, 0x22, 0x33, 0x44, 0x55, 0x66],
        ),
        (
            [0x00, 0x11, 0x22, 0x33, 0x44, 0x55],
            [0x66, 0x77, 0x88, 0x99, 0xaa, 0xbb],
        ),
        (
            [0xde, 0xad, 0xbe, 0xef, 0x00, 0x01],
            [0xca, 0xfe, 0xba, 0xbe, 0x00, 0x02],
        ),
        (
            [0xff, 0xff, 0xff, 0xff, 0xff, 0xff],
            [0x00, 0x00, 0x00, 0x00, 0x00, 0x00],
        ),
    ];

    for (i, (src_ip, dst_ip)) in ips.iter().enumerate() {
        let (dst_mac, src_mac) = macs[i];
        for (src_port, dst_port) in ports.iter().zip(ports.iter().cycle().skip(1)) {
            let mut tcp = build_packet(IPPROTO_TCP, *src_ip, *dst_ip, *src_port, *dst_port);
            set_macs(&mut tcp, dst_mac, src_mac);
            pkts.push(tcp);

            let mut udp = build_packet(IPPROTO_UDP, *src_ip, *dst_ip, *src_port, *dst_port);
            set_macs(&mut udp, dst_mac, src_mac);
            pkts.push(udp);
        }
        let mut icmp = build_packet(IPPROTO_ICMP, *src_ip, *dst_ip, 0, 0);
        set_macs(&mut icmp, dst_mac, src_mac);
        pkts.push(icmp);
    }

    let mut arp = build_arp_packet();
    set_macs(&mut arp, macs[0].0, macs[0].1);
    pkts.push(arp);

    pkts.push(build_packet_with_ihl(
        IPPROTO_TCP,
        [192, 168, 1, 1],
        [192, 168, 1, 2],
        80,
        443,
        6,
    ));
    pkts.push(build_packet_with_ihl(
        IPPROTO_UDP,
        [10, 0, 0, 5],
        [10, 0, 0, 6],
        53,
        12345,
        7,
    ));

    let v6_ips = [
        ([0xfe80, 0, 0, 0, 0, 0, 0, 1], [0xfe80, 0, 0, 0, 0, 0, 0, 2]),
        (
            [0x2001, 0xdb8, 0, 0, 0, 0, 0, 1],
            [0x2001, 0xdb8, 0, 0, 0, 0, 0, 2],
        ),
        ([0xfd00, 0, 0, 0, 0, 0, 0, 1], [0xfd00, 0, 0, 0, 0, 0, 0, 2]),
    ];
    for (i, (src_ip, dst_ip)) in v6_ips.iter().enumerate() {
        let (dst_mac, src_mac) = macs[i];
        for (src_port, dst_port) in ports.iter().zip(ports.iter().cycle().skip(1)) {
            let mut tcp = build_ipv6_packet(IPPROTO_TCP, *src_ip, *dst_ip, *src_port, *dst_port);
            set_macs(&mut tcp, dst_mac, src_mac);
            pkts.push(tcp);

            let mut udp = build_ipv6_packet(IPPROTO_UDP, *src_ip, *dst_ip, *src_port, *dst_port);
            set_macs(&mut udp, dst_mac, src_mac);
            pkts.push(udp);
        }
        let mut icmp = build_ipv6_packet(IPPROTO_ICMPV6, *src_ip, *dst_ip, 0, 0);
        set_macs(&mut icmp, dst_mac, src_mac);
        pkts.push(icmp);
    }

    pkts
}

/// The fields of a frame that filters look at.
struct Frame {
    dst_mac: [u8; 6],
    src_mac: [u8; 6],
    ethertype: u16,
    len: usize,
    proto: Option<u8>,
    src_ip: Vec<u8>,
    dst_ip: Vec<u8>,
    ports: Option<(u16, u16)>,
}

fn decode(pkt: &[u8]) -> Frame {
    let half = |at: usize| u16::from_be_bytes([pkt[at], pkt[at + 1]]);
    let ethertype = half(12);
    let mut frame = Frame {
        dst_mac: pkt[0..6].try_into().unwrap(),
        src_mac: pkt[6..12].try_into().unwrap(),
        ethertype,
        len: pkt.len(),
        proto: None,
        src_ip: Vec::new(),
        dst_ip: Vec::new(),
        ports: None,
    };
    let transport = match ethertype {
        0x0800 => {
            frame.proto = Some(pkt[23]);
            frame.src_ip = pkt[26..30].to_vec();
            frame.dst_ip = pkt[30..34].to_vec();
            14 + (pkt[14] & 0x0f) as usize * 4
        }
        0x86dd => {
            frame.proto = Some(pkt[20]);
            frame.src_ip = pkt[22..38].to_vec();
            frame.dst_ip = pkt[38..54].to_vec();
            54
        }
        _ => return frame,
    };
    if frame.proto == Some(IPPROTO_TCP) || frame.proto == Some(IPPROTO_UDP) {
        frame.ports = Some((half(transport), half(transport + 2)));
    }
    frame
}

impl Frame {
    fn ip(&self) -> bool {
        self.ethertype == 0x0800
    }

    fn ip6(&self) -> bool {
        self.ethertype == 0x86dd
    }

    fn arp(&self) -> bool {
        self.ethertype == 0x0806
    }

    fn rarp(&self) -> bool {
        self.ethertype == 0x8035
    }

    fn tcp(&self) -> bool {
        self.proto == Some(IPPROTO_TCP)
    }

    fn udp(&self) -> bool {
        self.proto == Some(IPPROTO_UDP)
    }

    fn icmp(&self) -> bool {
        self.ip() && self.proto == Some(IPPROTO_ICMP)
    }

    fn icmp6(&self) -> bool {
        self.ip6() && self.proto == Some(IPPROTO_ICMPV6)
    }

    fn src(&self, ip: [u8; 4]) -> bool {
        self.src_ip == ip
    }

    fn dst(&self, ip: [u8; 4]) -> bool {
        self.dst_ip == ip
    }

    fn host(&self, ip: [u8; 4]) -> bool {
        self.src(ip) || self.dst(ip)
    }

    fn src6(&self, ip: [u16; 8]) -> bool {
        self.src_ip == octets(ip)
    }

    fn dst6(&self, ip: [u16; 8]) -> bool {
        self.dst_ip == octets(ip)
    }

    fn host6(&self, ip: [u16; 8]) -> bool {
        self.src6(ip) || self.dst6(ip)
    }

    fn sport(&self, port: u16) -> bool {
        matches!(self.ports, Some((src, _)) if src == port)
    }

    fn dport(&self, port: u16) -> bool {
        matches!(self.ports, Some((_, dst)) if dst == port)
    }

    fn port(&self, port: u16) -> bool {
        self.sport(port) || self.dport(port)
    }

    fn sports(&self, first: u16, last: u16) -> bool {
        matches!(self.ports, Some((src, _)) if first <= src && src <= last)
    }

    fn dports(&self, first: u16, last: u16) -> bool {
        matches!(self.ports, Some((_, dst)) if first <= dst && dst <= last)
    }

    fn src_net(&self, prefix: &[u8]) -> bool {
        self.ip() && self.src_ip.starts_with(prefix)
    }

    fn dst_net(&self, prefix: &[u8]) -> bool {
        self.ip() && self.dst_ip.starts_with(prefix)
    }

    fn src_net6(&self, prefix: &[u8]) -> bool {
        self.ip6() && self.src_ip.starts_with(prefix)
    }

    fn dst_net6(&self, prefix: &[u8]) -> bool {
        self.ip6() && self.dst_ip.starts_with(prefix)
    }
}

fn octets(ip: [u16; 8]) -> Vec<u8> {
    ip.iter().flat_map(|group| group.to_be_bytes()).collect()
}

fn compare(expr: &str, expected: impl Fn(&Frame) -> bool) {
    let ast = parse(expr).unwrap_or_else(|e| panic!("cannot parse `{expr}`: {}", e.message()));
    let prog = compile(&ast);
    for pkt in all_packets() {
        assert_eq!(
            Vm::exec(&prog, &pkt),
            expected(&decode(&pkt)),
            "`{expr}` on {pkt:?}"
        );
    }
}

const A: [u8; 4] = [192, 168, 1, 1];
const B: [u8; 4] = [10, 0, 0, 5];
const C: [u8; 4] = [1, 1, 1, 1];
const D: [u8; 4] = [8, 8, 8, 8];
const LINK: [u16; 8] = [0xfe80, 0, 0, 0, 0, 0, 0, 1];
const DOC_1: [u16; 8] = [0x2001, 0xdb8, 0, 0, 0, 0, 0, 1];
const DOC_2: [u16; 8] = [0x2001, 0xdb8, 0, 0, 0, 0, 0, 2];

#[test]
fn cross_validate_protocols() {
    compare("tcp", |f| f.tcp());
    compare("udp", |f| f.udp());
    compare("icmp", |f| f.icmp());
    compare("ip", |f| f.ip());
    compare("arp", |f| f.arp());
    compare("rarp", |f| f.rarp());
}

#[test]
fn cross_validate_hosts() {
    compare("host 192.168.1.1", |f| f.host(A));
    compare("src host 10.0.0.5", |f| f.src(B));
    compare("dst host 1.1.1.1", |f| f.dst(C));
    compare("host 8.8.8.8 or host 192.168.1.1", |f| f.host(D) || f.host(A));
    compare("src host 192.168.1.1 and dst host 1.1.1.1", |f| f.src(A) && f.dst(C));
}

#[test]
fn cross_validate_ports() {
    compare("port 80", |f| f.port(80));
    compare("src port 53", |f| f.sport(53));
    compare("dst port 443", |f| f.dport(443));
    compare("tcp port 8080", |f| f.tcp() && f.port(8080));
    compare("udp port 12345", |f| f.udp() && f.port(12345));
    compare("src port 80 and dst port 443", |f| f.sport(80) && f.dport(443));
}

#[test]
fn cross_validate_portranges() {
    compare("portrange 1-100", |f| f.sports(1, 100) || f.dports(1, 100));
    compare("src portrange 1000-2000", |f| f.sports(1000, 2000));
    compare("dst portrange 1024-65535", |f| f.dports(1024, 65535));
    compare("tcp portrange 80-443", |f| f.tcp() && (f.sports(80, 443) || f.dports(80, 443)));
    compare("udp portrange 53-5353", |f| f.udp() && (f.sports(53, 5353) || f.dports(53, 5353)));
}

#[test]
fn cross_validate_combined() {
    compare("tcp and host 192.168.1.1", |f| f.tcp() && f.host(A));
    compare("tcp port 80 or udp port 53", |f| f.tcp() && f.port(80) || f.udp() && f.port(53));
    compare("not icmp", |f| !f.icmp());
    compare("udp and dst host 1.1.1.1", |f| f.udp() && f.dst(C));
    compare("tcp and not port 22", |f| f.tcp() && !f.port(22));
}

#[test]
fn cross_validate_ip_predicate() {
    compare("ip", |f| f.ip());
    compare("ip and tcp", |f| f.ip() && f.tcp());
    compare("ip and udp", |f| f.ip() && f.udp());
    compare("ip and icmp", |f| f.ip() && f.icmp());
    compare("ip and not arp", |f| f.ip() && !f.arp());
}

#[test]
fn cross_validate_direction_combinations() {
    compare("src host 192.168.1.1", |f| f.src(A));
    compare("dst host 192.168.1.1", |f| f.dst(A));
    compare("src port 80", |f| f.sport(80));
    compare("dst port 443", |f| f.dport(443));
    compare("tcp and src port 80", |f| f.tcp() && f.sport(80));
    compare("udp and dst port 53", |f| f.udp() && f.dport(53));
}

#[test]
fn cross_validate_parentheses() {
    compare("(tcp or udp) and host 192.168.1.1", |f| (f.tcp() || f.udp()) && f.host(A));
    compare("tcp and (src port 80 or dst port 443)", |f| f.tcp() && (f.sport(80) || f.dport(443)));
    compare("not (tcp or udp or icmp)", |f| !(f.tcp() || f.udp() || f.icmp()));
    compare("(src host 10.0.0.5) and (dst port 12345)", |f| f.src(B) && f.dport(12345));
}

#[test]
fn cross_validate_not() {
    compare("not tcp", |f| !f.tcp());
    compare("not host 192.168.1.1", |f| !f.host(A));
    compare("tcp and not port 22", |f| f.tcp() && !f.port(22));
    compare("not (udp and dst host 1.1.1.1)", |f| !(f.udp() && f.dst(C)));
    compare("not arp and not rarp", |f| !f.arp() && !f.rarp());
}

#[test]
fn cross_validate_complex() {
    compare(
        "(tcp and src host 10.0.0.5 and src port 80) or (udp and dst host 1.1.1.1)",
        |f| {
            f.tcp() && f.src(B) && f.sport(80) || f.udp() && f.dst(C)
        },
    );
    compare("tcp and dst port 443 and host 8.8.8.8", |f| f.tcp() && f.dport(443) && f.host(D));
    compare(
        "(tcp or udp) and (src host 192.168.1.1 or dst host 10.0.0.5)",
        |f| {
            (f.tcp() || f.udp()) && (f.src(A) || f.dst(B))
        },
    );
}

#[test]
fn cross_validate_arp_rarp() {
    compare("arp", |f| f.arp());
    compare("rarp", |f| f.rarp());
    compare("arp or ip", |f| f.arp() || f.ip());
    compare("arp and not ip", |f| f.arp() && !f.ip());
}

#[test]
fn cross_validate_ether_host() {
    compare(
        "ether host aa:bb:cc:dd:ee:ff",
        |f| {
            [f.dst_mac, f.src_mac].contains(&[0xaa, 0xbb, 0xcc, 0xdd, 0xee, 0xff])
        },
    );
    compare("ether src 11:22:33:44:55:66", |f| f.src_mac == [0x11, 0x22, 0x33, 0x44, 0x55, 0x66]);
    compare("ether dst ff:ff:ff:ff:ff:ff", |f| f.dst_mac == [0xff; 6]);
    compare(
        "ether host aa:bb:cc:dd:ee:ff or ether host 00:11:22:33:44:55",
        |f| {
            [f.dst_mac, f.src_mac].contains(&[0xaa, 0xbb, 0xcc, 0xdd, 0xee, 0xff])
            || [f.dst_mac, f.src_mac].contains(&[0x00, 0x11, 0x22, 0x33, 0x44, 0x55])
        },
    );
}

#[test]
fn cross_validate_net() {
    compare("net 192.168.1.0/24", |f| f.src_net(&[192, 168, 1]) || f.dst_net(&[192, 168, 1]));
    compare("net 10.0.0.0/8", |f| f.src_net(&[10]) || f.dst_net(&[10]));
    compare("src net 172.16.0.0/16", |f| f.src_net(&[172, 16]));
    compare("dst net 1.1.1.0 mask 255.255.255.0", |f| f.dst_net(&[1, 1, 1]));
    compare(
        "net 192.168.0.0/16 and tcp",
        |f| {
            (f.src_net(&[192, 168]) || f.dst_net(&[192, 168])) && f.tcp()
        },
    );
}

#[test]
fn cross_validate_len() {
    compare("greater 40", |f| f.len > 40);
    compare("less 60", |f| f.len < 60);
    compare("len >= 50", |f| f.len >= 50);
    compare("len > 40 and len < 100", |f| f.len > 40 && f.len < 100);
    compare("len != 54", |f| f.len != 54);
}

#[test]
fn cross_validate_chained_and() {
    compare("tcp and host 192.168.1.1 and port 80", |f| f.tcp() && f.host(A) && f.port(80));
    compare("udp and dst host 1.1.1.1 and dst port 53", |f| f.udp() && f.dst(C) && f.dport(53));
    compare(
        "ip and src host 10.0.0.5 and src port 443 and dst host 8.8.8.8",
        |f| {
            f.ip() && f.src(B) && f.sport(443) && f.dst(D)
        },
    );
}

#[test]
fn cross_validate_chained_or() {
    compare("tcp or udp or icmp", |f| f.tcp() || f.udp() || f.icmp());
    compare(
        "host 192.168.1.1 or host 10.0.0.5 or host 8.8.8.8",
        |f| {
            f.host(A) || f.host(B) || f.host(D)
        },
    );
    compare(
        "port 22 or port 53 or port 80 or port 443",
        |f| {
            f.port(22) || f.port(53) || f.port(80) || f.port(443)
        },
    );
}

#[test]
fn cross_validate_mixed_nesting() {
    compare(
        "(tcp and src host 10.0.0.5) or (udp and dst host 1.1.1.1) or icmp",
        |f| {
            f.tcp() && f.src(B) || f.udp() && f.dst(C) || f.icmp()
        },
    );
    compare("ip and not (tcp or udp)", |f| f.ip() && !(f.tcp() || f.udp()));
    compare(
        "(src host 192.168.1.1 and dst port 443) or (dst host 1.1.1.1 and udp)",
        |f| {
            f.src(A) && f.dport(443) || f.dst(C) && f.udp()
        },
    );
    compare(
        "not (arp or rarp) and (tcp or udp or icmp)",
        |f| {
            !(f.arp() || f.rarp()) && (f.tcp() || f.udp() || f.icmp())
        },
    );
}

#[test]
fn cross_validate_ipv6_protocols() {
    compare("ip6", |f| f.ip6());
    compare("tcp", |f| f.tcp());
    compare("udp", |f| f.udp());
    compare("icmp6", |f| f.icmp6());
    compare("ip6 and tcp", |f| f.ip6() && f.tcp());
    compare("ip6 and udp", |f| f.ip6() && f.udp());
    compare("ip6 and icmp6", |f| f.ip6() && f.icmp6());
}

#[test]
fn cross_validate_ipv6_hosts() {
    compare("host fe80::1", |f| f.host6(LINK));
    compare("src host fe80::1", |f| f.src6(LINK));
    compare("dst host 2001:db8::2", |f| f.dst6(DOC_2));
    compare("host fe80::1 or host 2001:db8::1", |f| f.host6(LINK) || f.host6(DOC_1));
}

#[test]
fn cross_validate_ipv6_ports() {
    compare("port 80", |f| f.port(80));
    compare("src port 53", |f| f.sport(53));
    compare("dst port 443", |f| f.dport(443));
    compare("tcp port 8080", |f| f.tcp() && f.port(8080));
    compare("udp port 12345", |f| f.udp() && f.port(12345));
    compare("ip6 and port 80", |f| f.ip6() && f.port(80));
    compare("ip6 and src port 443", |f| f.ip6() && f.sport(443));
}

#[test]
fn cross_validate_ipv6_net() {
    compare("net fe80::/10", |f| f.src_net6(&[0xfe, 0x80]) || f.dst_net6(&[0xfe, 0x80]));
    compare(
        "net 2001:db8::/32",
        |f| {
            f.src_net6(&[0x20, 0x01, 0x0d, 0xb8]) || f.dst_net6(&[0x20, 0x01, 0x0d, 0xb8])
        },
    );
    compare("src net fe80::/64", |f| f.src_net6(&[0xfe, 0x80, 0, 0, 0, 0, 0, 0]));
    compare("dst net fd00::/8", |f| f.dst_net6(&[0xfd]));
    compare(
        "net 2001:db8::/32 and tcp",
        |f| {
            (f.src_net6(&[0x20, 0x01, 0x0d, 0xb8]) || f.dst_net6(&[0x20, 0x01, 0x0d, 0xb8])) && f.tcp()
        },
    );
}

#[test]
fn cross_validate_ipv6_combined() {
    compare("ip6 and host fe80::1 and port 80", |f| f.ip6() && f.host6(LINK) && f.port(80));
    compare("ip6 and tcp and dst host 2001:db8::2", |f| f.ip6() && f.tcp() && f.dst6(DOC_2));
    compare("ip6 and not icmp6", |f| f.ip6() && !f.icmp6());
    compare(
        "(ip6 and tcp port 80) or (ip and udp port 53)",
        |f| {
            f.ip6() && f.tcp() && f.port(80) || f.ip() && f.udp() && f.port(53)
        },
    );
}
