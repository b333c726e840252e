//! Tests of packet header parsing.

use netdump::addr::{IpAddr, Ipv4Addr};
use netdump::packet::{parse_packet, ETHERTYPE_IP, IPPROTO_TCP, IPPROTO_UDP};

fn build_ip_packet(proto: u8, payload_len: usize) -> Vec<u8> {
    let mut pkt = vec![0u8; 14 + 20 + payload_len];
    pkt[12] = 0x08;
    pkt[13] = 0x00;
    let ip_start = 14;
    pkt[ip_start] = 0x45; // version=4, ihl=5 -> 20 bytes
    let total_len = (20 + payload_len) as u16;
    pkt[ip_start + 2..ip_start + 4].copy_from_slice(&total_len.to_be_bytes());
    pkt[ip_start + 9] = proto;
    pkt[ip_start + 12] = 192;
    pkt[ip_start + 13] = 168;
    pkt[ip_start + 14] = 1;
    pkt[ip_start + 15] = 1;
    pkt[ip_start + 16] = 10;
    pkt[ip_start + 17] = 0;
    pkt[ip_start + 18] = 0;
    pkt[ip_start + 19] = 2;

    let checksum = calc_ipv4_checksum(&pkt[ip_start..ip_start + 20]);
    pkt[ip_start + 10..ip_start + 12].copy_from_slice(&checksum.to_be_bytes());
    pkt
}

fn calc_ipv4_checksum(header: &[u8]) -> u16 {
    let mut sum: u32 = 0;
    for chunk in header.chunks_exact(2) {
        sum += u16::from_be_bytes([chunk[0], chunk[1]]) as u32;
    }
    while (sum >> 16) != 0 {
        sum = (sum & 0xFFFF) + (sum >> 16);
    }
    !(sum as u16)
}

#[test]
fn test_parse_ip_tcp_packet() {
    let mut pkt = build_ip_packet(IPPROTO_TCP, 20);
    pkt[14 + 20 + 12] = 0x50;
    let info = parse_packet(&pkt).unwrap();
    assert_eq!(info.ethertype, Some(ETHERTYPE_IP));
    assert_eq!(info.protocol, Some(IPPROTO_TCP));
    assert_eq!(info.src_ip, Some(IpAddr::V4(Ipv4Addr::new(192, 168, 1, 1))));
    assert_eq!(info.dst_ip, Some(IpAddr::V4(Ipv4Addr::new(10, 0, 0, 2))));
}

#[test]
fn test_parse_udp_ports() {
    let mut pkt = build_ip_packet(IPPROTO_UDP, 8);
    let transport = 14 + 20;
    pkt[transport] = 0x00;
    pkt[transport + 1] = 0x50; // src=80
    pkt[transport + 2] = 0x1f;
    pkt[transport + 3] = 0x90; // dst=8080
    let info = parse_packet(&pkt).unwrap();
    assert_eq!(info.protocol, Some(IPPROTO_UDP));
    assert_eq!(info.src_port, Some(80));
    assert_eq!(info.dst_port, Some(8080));
}

#[test]
fn test_short_packet_returns_none() {
    let pkt = vec![0u8; 10];
    assert!(parse_packet(&pkt).is_none());
}
