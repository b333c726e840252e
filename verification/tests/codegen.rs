//! Tests of the assembler and the compiler, with a focus on jumps.

use netdump::assembler::Assembler;
use netdump::types::{
    jeq, ld_abs_h, ret_k, BPF_K, BPF_RET, CBPF_ACCEPT, CBPF_REJECT,
};
use netdump::{compile, parse, Vm};

const IPPROTO_ICMP: u8 = 1;
const IPPROTO_TCP: u8 = 6;
const IPPROTO_UDP: u8 = 17;
const IPPROTO_ICMPV6: u8 = 58;

fn calc_ipv4_checksum(header: &[u8]) -> u16 {
    let mut sum: u32 = 0;
    for chunk in header.chunks_exact(2) {
        sum += u16::from_be_bytes([chunk[0], chunk[1]]) as u32;
    }
    while (sum >> 16) != 0 {
        sum = (sum & 0xFFFF) + (sum >> 16);
    }
    !(sum as u16)
}

fn build_packet(
    proto: u8,
    src_ip: [u8; 4],
    dst_ip: [u8; 4],
    src_port: u16,
    dst_port: u16,
) -> Vec<u8> {
    build_packet_with_ihl(proto, src_ip, dst_ip, src_port, dst_port, 5)
}

fn build_packet_with_ihl(
    proto: u8,
    src_ip: [u8; 4],
    dst_ip: [u8; 4],
    src_port: u16,
    dst_port: u16,
    ihl: u8,
) -> Vec<u8> {
    assert!((5..=15).contains(&ihl));
    let ip_header_len = (ihl as usize) * 4;
    let transport_len = if proto == IPPROTO_UDP { 8 } else { 20 };
    let mut pkt = vec![0u8; 14 + ip_header_len + transport_len];

    // Ethernet header.
    pkt[12] = 0x08;
    pkt[13] = 0x00;

    // IPv4 header.
    let ip = 14;
    pkt[ip] = 0x40 | (ihl & 0x0f); // version 4, IHL
    let total_len = (ip_header_len + transport_len) as u16;
    pkt[ip + 2..ip + 4].copy_from_slice(&total_len.to_be_bytes());
    pkt[ip + 9] = proto;
    pkt[ip + 12..ip + 16].copy_from_slice(&src_ip);
    pkt[ip + 16..ip + 20].copy_from_slice(&dst_ip);
    let checksum = calc_ipv4_checksum(&pkt[ip..ip + ip_header_len]);
    pkt[ip + 10..ip + 12].copy_from_slice(&checksum.to_be_bytes());

    // Transport header.
    let tp = ip + ip_header_len;
    pkt[tp..tp + 2].copy_from_slice(&src_port.to_be_bytes());
    pkt[tp + 2..tp + 4].copy_from_slice(&dst_port.to_be_bytes());
    if proto == IPPROTO_TCP {
        // data offset = 5 (20 bytes)
        pkt[tp + 12] = 0x50;
    }

    pkt
}

fn build_ipv6_packet(
    proto: u8,
    src_ip: [u16; 8],
    dst_ip: [u16; 8],
    src_port: u16,
    dst_port: u16,
) -> Vec<u8> {
    let transport_len = if proto == IPPROTO_UDP || proto == IPPROTO_ICMPV6 {
        8
    } else {
        20
    };
    let mut pkt = vec![0u8; 14 + 40 + transport_len];

    // Ethernet header.
    pkt[12] = 0x86;
    pkt[13] = 0xdd;

    // IPv6 header.
    let ip = 14;
    pkt[ip..ip + 4].copy_from_slice(&0x60000000u32.to_be_bytes());
    pkt[ip + 4..ip + 6].copy_from_slice(&(transport_len as u16).to_be_bytes());
    pkt[ip + 6] = proto;
    pkt[ip + 7] = 64; // hop limit
    for (i, word) in src_ip.iter().enumerate() {
        pkt[ip + 8 + i * 2..ip + 10 + i * 2].copy_from_slice(&word.to_be_bytes());
    }
    for (i, word) in dst_ip.iter().enumerate() {
        pkt[ip + 24 + i * 2..ip + 26 + i * 2].copy_from_slice(&word.to_be_bytes());
    }

    // Transport header.
    let tp = ip + 40;
    if proto != IPPROTO_ICMPV6 {
        pkt[tp..tp + 2].copy_from_slice(&src_port.to_be_bytes());
        pkt[tp + 2..tp + 4].copy_from_slice(&dst_port.to_be_bytes());
    }
    if proto == IPPROTO_TCP {
        pkt[tp + 12] = 0x50;
    }

    pkt
}

fn build_arp_packet() -> Vec<u8> {
    let mut pkt = vec![0u8; 14 + 28];
    pkt[12] = 0x08;
    pkt[13] = 0x06;
    pkt
}

fn set_macs(pkt: &mut [u8], dst: [u8; 6], src: [u8; 6]) {
    pkt[0..6].copy_from_slice(&dst);
    pkt[6..12].copy_from_slice(&src);
}

fn all_packets() -> Vec<Vec<u8>> {
    let mut pkts = Vec::new();
    let ips = [
        ([192, 168, 1, 1], [192, 168, 1, 2]),
        ([10, 0, 0, 5], [10, 0, 0, 6]),
        ([172, 16, 0, 10], [192, 168, 1, 1]),
        ([8, 8, 8, 8], [1, 1, 1, 1]),
    ];
    let ports = [80u16, 443, 53, 22, 12345, 8080];

    let macs = [
        (
            [0xaa, 0xbb, 0xcc, 0xdd, 0xee, 0xff],
            [0x11, 0x22, 0x33, 0x44, 0x55, 0x66],
        ),
        (
            [0x00, 0x11, 0x22, 0x33, 0x44, 0x55],
            [0x66, 0x77, 0x88, 0x99, 0xaa, 0xbb],
        ),
        (
            [0xde, 0xad, 0xbe, 0xef, 0x00, 0x01],
            [0xca, 0xfe, 0xba, 0xbe, 0x00, 0x02],
        ),
        (
            [0xff, 0xff, 0xff, 0xff, 0xff, 0xff],
            [0x00, 0x00, 0x00, 0x00, 0x00, 0x00],
        ),
    ];

    for (i, (src_ip, dst_ip)) in ips.iter().enumerate() {
        let (dst_mac, src_mac) = macs[i];
        for (src_port, dst_port) in ports.iter().zip(ports.iter().cycle().skip(1)) {
            let mut tcp = build_packet(IPPROTO_TCP, *src_ip, *dst_ip, *src_port, *dst_port);
            set_macs(&mut tcp, dst_mac, src_mac);
            pkts.push(tcp);

            let mut udp = build_packet(IPPROTO_UDP, *src_ip, *dst_ip, *src_port, *dst_port);
            set_macs(&mut udp, dst_mac, src_mac);
            pkts.push(udp);
        }
        let mut icmp = build_packet(IPPROTO_ICMP, *src_ip, *dst_ip, 0, 0);
        set_macs(&mut icmp, dst_mac, src_mac);
        pkts.push(icmp);
    }

    let mut arp = build_arp_packet();
    set_macs(&mut arp, macs[0].0, macs[0].1);
    pkts.push(arp);

    pkts.push(build_packet_with_ihl(
        IPPROTO_TCP,
        [192, 168, 1, 1],
        [192, 168, 1, 2],
        80,
        443,
        6,
    ));
    pkts.push(build_packet_with_ihl(
        IPPROTO_UDP,
        [10, 0, 0, 5],
        [10, 0, 0, 6],
        53,
        12345,
        7,
    ));

    let v6_ips = [
        ([0xfe80, 0, 0, 0, 0, 0, 0, 1], [0xfe80, 0, 0, 0, 0, 0, 0, 2]),
        (
            [0x2001, 0xdb8, 0, 0, 0, 0, 0, 1],
            [0x2001, 0xdb8, 0, 0, 0, 0, 0, 2],
        ),
        ([0xfd00, 0, 0, 0, 0, 0, 0, 1], [0xfd00, 0, 0, 0, 0, 0, 0, 2]),
    ];
    for (i, (src_ip, dst_ip)) in v6_ips.iter().enumerate() {
        let (dst_mac, src_mac) = macs[i];
        for (src_port, dst_port) in ports.iter().zip(ports.iter().cycle().skip(1)) {
            let mut tcp = build_ipv6_packet(IPPROTO_TCP, *src_ip, *dst_ip, *src_port, *dst_port);
            set_macs(&mut tcp, dst_mac, src_mac);
            pkts.push(tcp);

            let mut udp = build_ipv6_packet(IPPROTO_UDP, *src_ip, *dst_ip, *src_port, *dst_port);
            set_macs(&mut udp, dst_mac, src_mac);
            pkts.push(udp);
        }
        let mut icmp = build_ipv6_packet(IPPROTO_ICMPV6, *src_ip, *dst_ip, 0, 0);
        set_macs(&mut icmp, dst_mac, src_mac);
        pkts.push(icmp);
    }

    pkts
}

#[test]
fn assembler_resolves_multiple_forward_jumps() {
    // 0: ldabs h [12]
    // 1: jeq 0x0800, L1, L2
    // 2: ret reject      (L2)
    // 3: ret accept      (L1)
    let mut out = Assembler::new();
    let l1 = out.new_label();
    let l2 = out.new_label();

    out.emit(ld_abs_h(12));
    out.emit_jump(jeq(0x0800), l1, l2);
    out.place_label(l2, out.next_index());
    out.emit(ret_k(CBPF_REJECT));
    out.place_label(l1, out.next_index());
    out.emit(ret_k(CBPF_ACCEPT));

    let prog = out.resolve();
    assert_eq!(prog.len(), 4);
    assert_eq!(prog[1].jt, 1);
    assert_eq!(prog[1].jf, 0);
}

#[test]
fn assembler_resolves_out_of_order_labels() {
    // 0: ldh [12]
    // 1: jeq 0x0800, L2, L1
    // 2: ret reject      (L1)
    // 3: ret accept      (L2)
    let mut out = Assembler::new();
    let l1 = out.new_label();
    let l2 = out.new_label();

    out.emit(ld_abs_h(12));
    out.emit_jump(jeq(0x0800), l2, l1);
    out.place_label(l1, out.next_index());
    out.emit(ret_k(CBPF_REJECT));
    out.place_label(l2, out.next_index());
    out.emit(ret_k(CBPF_ACCEPT));

    let prog = out.resolve();
    assert_eq!(prog[1].jt, 1);
    assert_eq!(prog[1].jf, 0);
}

#[test]
fn compile_program_contains_both_accept_and_reject() {
    let ast = parse("tcp").unwrap();
    let prog = compile(&ast);

    let accepts: Vec<_> = prog
        .iter()
        .filter(|i| i.code == (BPF_RET | BPF_K) && i.k == CBPF_ACCEPT)
        .collect();
    let rejects: Vec<_> = prog
        .iter()
        .filter(|i| i.code == (BPF_RET | BPF_K) && i.k == CBPF_REJECT)
        .collect();
    assert_eq!(accepts.len(), 1);
    assert_eq!(rejects.len(), 1);
}

#[test]
fn compile_chained_and_requires_all_conditions() {
    let ast = parse("tcp and host 192.168.1.1 and port 80").unwrap();
    let prog = compile(&ast);

    let tcp_match = build_packet(IPPROTO_TCP, [192, 168, 1, 1], [10, 0, 0, 2], 80, 443);
    let mut tcp_match = tcp_match;
    tcp_match[14 + 20 + 12] = 0x50;
    assert!(Vm::exec(&prog, &tcp_match));

    let mut wrong_port = build_packet(IPPROTO_TCP, [192, 168, 1, 1], [10, 0, 0, 2], 81, 443);
    wrong_port[14 + 20 + 12] = 0x50;
    assert!(!Vm::exec(&prog, &wrong_port));

    let mut wrong_ip = build_packet(IPPROTO_TCP, [192, 168, 1, 2], [10, 0, 0, 2], 80, 443);
    wrong_ip[14 + 20 + 12] = 0x50;
    assert!(!Vm::exec(&prog, &wrong_ip));

    let wrong_proto = build_packet(IPPROTO_UDP, [192, 168, 1, 1], [10, 0, 0, 2], 80, 443);
    assert!(!Vm::exec(&prog, &wrong_proto));
}

#[test]
fn compile_chained_or_matches_any_condition() {
    let ast = parse("tcp or udp or icmp").unwrap();
    let prog = compile(&ast);

    let mut tcp = build_packet(IPPROTO_TCP, [10, 0, 0, 1], [10, 0, 0, 2], 80, 443);
    tcp[14 + 20 + 12] = 0x50;
    assert!(Vm::exec(&prog, &tcp));

    let udp = build_packet(IPPROTO_UDP, [10, 0, 0, 1], [10, 0, 0, 2], 53, 443);
    assert!(Vm::exec(&prog, &udp));

    let icmp = build_packet(IPPROTO_ICMP, [10, 0, 0, 1], [10, 0, 0, 2], 0, 0);
    assert!(Vm::exec(&prog, &icmp));

    let arp = build_arp_packet();
    assert!(!Vm::exec(&prog, &arp));
}

#[test]
fn compile_not_with_multiple_subexpressions() {
    let ast = parse("not (tcp or udp)").unwrap();
    let prog = compile(&ast);

    let mut tcp = build_packet(IPPROTO_TCP, [10, 0, 0, 1], [10, 0, 0, 2], 80, 443);
    tcp[14 + 20 + 12] = 0x50;
    assert!(!Vm::exec(&prog, &tcp));

    let udp = build_packet(IPPROTO_UDP, [10, 0, 0, 1], [10, 0, 0, 2], 53, 443);
    assert!(!Vm::exec(&prog, &udp));

    let icmp = build_packet(IPPROTO_ICMP, [10, 0, 0, 1], [10, 0, 0, 2], 0, 0);
    assert!(Vm::exec(&prog, &icmp));

    let arp = build_arp_packet();
    assert!(Vm::exec(&prog, &arp));
}

#[test]
fn compile_mixed_nesting_evaluates_correctly() {
    let ast = parse("(tcp and src host 10.0.0.5) or (udp and dst host 1.1.1.1) or icmp").unwrap();
    let prog = compile(&ast);

    let mut tcp_match = build_packet(IPPROTO_TCP, [10, 0, 0, 5], [192, 168, 1, 2], 80, 443);
    tcp_match[14 + 20 + 12] = 0x50;
    assert!(Vm::exec(&prog, &tcp_match));

    let udp_match = build_packet(IPPROTO_UDP, [192, 168, 1, 1], [1, 1, 1, 1], 53, 12345);
    assert!(Vm::exec(&prog, &udp_match));

    let icmp_match = build_packet(IPPROTO_ICMP, [10, 0, 0, 1], [10, 0, 0, 2], 0, 0);
    assert!(Vm::exec(&prog, &icmp_match));

    let mut tcp_no = build_packet(IPPROTO_TCP, [10, 0, 0, 6], [192, 168, 1, 2], 80, 443);
    tcp_no[14 + 20 + 12] = 0x50;
    assert!(!Vm::exec(&prog, &tcp_no));
}

#[test]
fn compile_ip_options_with_multiple_conditions() {
    let ast = parse("tcp and src host 192.168.1.1 and dst port 443").unwrap();
    let prog = compile(&ast);

    let mut pkt =
        build_packet_with_ihl(IPPROTO_TCP, [192, 168, 1, 1], [10, 0, 0, 2], 12345, 443, 6);
    pkt[14 + 24 + 12] = 0x50;
    assert!(Vm::exec(&prog, &pkt));
}

#[test]
fn compile_ether_host_with_direction_any_uses_both_offsets() {
    let ast = parse("ether host aa:bb:cc:dd:ee:ff").unwrap();
    let prog = compile(&ast);

    let mut pkt = build_packet(IPPROTO_TCP, [10, 0, 0, 1], [10, 0, 0, 2], 80, 443);
    set_macs(
        &mut pkt,
        [0xaa, 0xbb, 0xcc, 0xdd, 0xee, 0xff],
        [0x11, 0x22, 0x33, 0x44, 0x55, 0x66],
    );
    assert!(Vm::exec(&prog, &pkt));

    let mut pkt2 = build_packet(IPPROTO_TCP, [10, 0, 0, 1], [10, 0, 0, 2], 80, 443);
    set_macs(
        &mut pkt2,
        [0x00, 0x11, 0x22, 0x33, 0x44, 0x55],
        [0xaa, 0xbb, 0xcc, 0xdd, 0xee, 0xff],
    );
    assert!(Vm::exec(&prog, &pkt2));

    let mut pkt3 = build_packet(IPPROTO_TCP, [10, 0, 0, 1], [10, 0, 0, 2], 80, 443);
    set_macs(
        &mut pkt3,
        [0x00, 0x11, 0x22, 0x33, 0x44, 0x55],
        [0x66, 0x77, 0x88, 0x99, 0xaa, 0xbb],
    );
    assert!(!Vm::exec(&prog, &pkt3));
}

#[test]
fn compile_portrange_generates_two_jumps() {
    let ast = parse("src portrange 1000-2000").unwrap();
    let prog = compile(&ast);

    let ok = build_packet(IPPROTO_TCP, [10, 0, 0, 1], [10, 0, 0, 2], 1500, 443);
    assert!(Vm::exec(&prog, &ok));

    let too_low = build_packet(IPPROTO_TCP, [10, 0, 0, 1], [10, 0, 0, 2], 500, 443);
    assert!(!Vm::exec(&prog, &too_low));

    let too_high = build_packet(IPPROTO_TCP, [10, 0, 0, 1], [10, 0, 0, 2], 3000, 443);
    assert!(!Vm::exec(&prog, &too_high));
}

#[test]
fn compile_net_mask_and_direction() {
    let ast = parse("src net 192.168.0.0/16").unwrap();
    let prog = compile(&ast);

    let ok = build_packet(IPPROTO_TCP, [192, 168, 1, 1], [10, 0, 0, 2], 80, 443);
    assert!(Vm::exec(&prog, &ok));

    let no = build_packet(IPPROTO_TCP, [10, 0, 0, 1], [10, 0, 0, 2], 80, 443);
    assert!(!Vm::exec(&prog, &no));
}

#[test]
fn compile_len_relops() {
    let ast = parse("len > 50").unwrap();
    let prog = compile(&ast);

    let short = build_packet(IPPROTO_UDP, [10, 0, 0, 1], [10, 0, 0, 2], 53, 443);
    assert!(!Vm::exec(&prog, &short));

    let mut long = build_packet(IPPROTO_TCP, [10, 0, 0, 1], [10, 0, 0, 2], 80, 443);
    long.resize(long.len() + 100, 0);
    assert!(Vm::exec(&prog, &long));
}

#[test]
fn compile_all_supported_predicates_run_without_crash() {
    let expressions = [
        "ip",
        "ip6",
        "tcp",
        "udp",
        "icmp",
        "icmp6",
        "arp",
        "rarp",
        "host 192.168.1.1",
        "host fe80::1",
        "src host 10.0.0.1",
        "dst host 1.1.1.1",
        "dst host 2001:db8::2",
        "port 80",
        "src port 443",
        "dst port 53",
        "portrange 1000-2000",
        "src portrange 80-443",
        "dst portrange 1024-65535",
        "ether host aa:bb:cc:dd:ee:ff",
        "ether src 11:22:33:44:55:66",
        "ether dst ff:ff:ff:ff:ff:ff",
        "net 192.168.1.0/24",
        "src net 10.0.0.0/8",
        "dst net 172.16.0.0 mask 255.255.0.0",
        "net fe80::/10",
        "net 2001:db8::/32",
        "len > 100",
        "greater 64",
        "less 100",
        "tcp and host 192.168.1.1",
        "tcp or udp or icmp",
        "not arp",
        "(tcp and src port 80) or (udp and dst port 53)",
        "ip6 and tcp and host fe80::1",
    ];

    for expr in expressions {
        let ast = parse(expr).unwrap_or_else(|e| panic!("cannot parse `{expr}`: {}", e.message()));
        let prog = compile(&ast);
        assert!(!prog.is_empty(), "`{expr}` has no program");

        for pkt in all_packets() {
            let _ = Vm::exec(&prog, &pkt);
        }
    }
}

#[test]
fn compile_ipv6_host_matches_v6_only() {
    let ast = parse("host fe80::1").unwrap();
    let prog = compile(&ast);

    let v6_match = build_ipv6_packet(
        IPPROTO_TCP,
        [0xfe80, 0, 0, 0, 0, 0, 0, 1],
        [0xfe80, 0, 0, 0, 0, 0, 0, 2],
        80,
        443,
    );
    assert!(Vm::exec(&prog, &v6_match));

    let v6_no = build_ipv6_packet(
        IPPROTO_TCP,
        [0xfe80, 0, 0, 0, 0, 0, 0, 3],
        [0xfe80, 0, 0, 0, 0, 0, 0, 2],
        80,
        443,
    );
    assert!(!Vm::exec(&prog, &v6_no));

    let v4 = build_packet(IPPROTO_TCP, [192, 168, 1, 1], [192, 168, 1, 2], 80, 443);
    assert!(!Vm::exec(&prog, &v4));
}

#[test]
fn compile_tcp_matches_ipv4_and_ipv6() {
    let ast = parse("tcp").unwrap();
    let prog = compile(&ast);

    let mut v4 = build_packet(IPPROTO_TCP, [192, 168, 1, 1], [192, 168, 1, 2], 80, 443);
    v4[14 + 20 + 12] = 0x50;
    assert!(Vm::exec(&prog, &v4));

    let mut v6 = build_ipv6_packet(
        IPPROTO_TCP,
        [0x2001, 0xdb8, 0, 0, 0, 0, 0, 1],
        [0x2001, 0xdb8, 0, 0, 0, 0, 0, 2],
        80,
        443,
    );
    v6[14 + 40 + 12] = 0x50;
    assert!(Vm::exec(&prog, &v6));

    let udp_v6 = build_ipv6_packet(
        IPPROTO_UDP,
        [0x2001, 0xdb8, 0, 0, 0, 0, 0, 1],
        [0x2001, 0xdb8, 0, 0, 0, 0, 0, 2],
        53,
        443,
    );
    assert!(!Vm::exec(&prog, &udp_v6));
}

#[test]
fn compile_ipv6_port_matches_fixed_header() {
    let ast = parse("ip6 and dst port 443").unwrap();
    let prog = compile(&ast);

    let mut v6 = build_ipv6_packet(
        IPPROTO_TCP,
        [0x2001, 0xdb8, 0, 0, 0, 0, 0, 1],
        [0x2001, 0xdb8, 0, 0, 0, 0, 0, 2],
        80,
        443,
    );
    v6[14 + 40 + 12] = 0x50;
    assert!(Vm::exec(&prog, &v6));

    let mut v6_no = build_ipv6_packet(
        IPPROTO_TCP,
        [0x2001, 0xdb8, 0, 0, 0, 0, 0, 1],
        [0x2001, 0xdb8, 0, 0, 0, 0, 0, 2],
        80,
        80,
    );
    v6_no[14 + 40 + 12] = 0x50;
    assert!(!Vm::exec(&prog, &v6_no));
}

#[test]
fn compile_ipv6_net_prefix() {
    let ast = parse("net 2001:db8::/32").unwrap();
    let prog = compile(&ast);

    let ok = build_ipv6_packet(
        IPPROTO_TCP,
        [0x2001, 0xdb8, 0, 0, 0, 0, 0, 1],
        [0x2001, 0xdb8, 0, 0, 0, 0, 0, 2],
        80,
        443,
    );
    assert!(Vm::exec(&prog, &ok));

    let no = build_ipv6_packet(
        IPPROTO_TCP,
        [0xfe80, 0, 0, 0, 0, 0, 0, 1],
        [0xfe80, 0, 0, 0, 0, 0, 0, 2],
        80,
        443,
    );
    assert!(!Vm::exec(&prog, &no));
}

#[test]
fn compile_icmp6_matches_ipv6_only() {
    let ast = parse("icmp6").unwrap();
    let prog = compile(&ast);

    let v6 = build_ipv6_packet(
        IPPROTO_ICMPV6,
        [0xfe80, 0, 0, 0, 0, 0, 0, 1],
        [0xfe80, 0, 0, 0, 0, 0, 0, 2],
        0,
        0,
    );
    assert!(Vm::exec(&prog, &v6));

    let v4 = build_packet(IPPROTO_ICMP, [192, 168, 1, 1], [192, 168, 1, 2], 0, 0);
    assert!(!Vm::exec(&prog, &v4));
}
