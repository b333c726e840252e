//! The printed form of packets.

use netdump::addr::{IpAddr, Ipv4Addr};
use netdump::format::{
    ascii_bytes_per_line, format_addr, format_ascii, format_hex, format_hex_ascii, format_mac,
    format_tcp_flags, hex_bytes_per_line, port_name, protocol_name,
};
use netdump::packet::{
    packet_info, parse_packet, NetHeader, NetdumpError, Packet, PacketInfo, PacketMeta,
};
use netdump::print::{format_packet, print_packet, PktCtx, PrintOptions};

fn plain() -> PrintOptions {
    PrintOptions {
        timestamp_format: 1,
        packet_number: false,
        quiet: false,
        link_header: false,
        no_resolve: 0,
        verbose: 0,
        hex: 0,
        hex_ascii: 0,
        ascii: false,
    }
}

fn ctx() -> PktCtx {
    PktCtx {
        num: 7,
        prev_ts: (10, 0),
        first_ts: (1, 0),
    }
}

fn packet(data: Vec<u8>) -> Packet {
    let len = data.len();
    Packet::new(PacketMeta::new(12, 500_000, 2, len, len), data)
}

/// A TCP segment from 192.168.1.1:80 to 10.0.0.2:50000.
fn tcp() -> Vec<u8> {
    let mut pkt = vec![0u8; 14 + 20 + 20];
    pkt[0..6].copy_from_slice(&[0xaa, 0xbb, 0xcc, 0xdd, 0xee, 0xff]);
    pkt[6..12].copy_from_slice(&[1, 2, 3, 4, 5, 6]);
    pkt[12] = 0x08;
    pkt[14] = 0x45;
    pkt[17] = 40;
    pkt[18..20].copy_from_slice(&[0x12, 0x34]);
    pkt[20] = 0x40;
    pkt[22] = 64;
    pkt[23] = 6;
    pkt[26..30].copy_from_slice(&[192, 168, 1, 1]);
    pkt[30..34].copy_from_slice(&[10, 0, 0, 2]);
    pkt[34..36].copy_from_slice(&80u16.to_be_bytes());
    pkt[36..38].copy_from_slice(&50000u16.to_be_bytes());
    pkt[38..42].copy_from_slice(&1000u32.to_be_bytes());
    pkt[42..46].copy_from_slice(&2000u32.to_be_bytes());
    pkt[46] = 0x50;
    pkt[47] = 0x12;
    pkt[48..50].copy_from_slice(&4096u16.to_be_bytes());
    pkt
}

/// A UDP datagram from fe80::1 to fe80::2, between two ports without names.
fn udp6() -> Vec<u8> {
    let mut pkt = vec![0u8; 14 + 40 + 8];
    pkt[12..14].copy_from_slice(&[0x86, 0xdd]);
    pkt[14] = 0x60;
    pkt[19] = 8;
    pkt[20] = 17;
    pkt[21] = 255;
    pkt[22..24].copy_from_slice(&[0xfe, 0x80]);
    pkt[37] = 1;
    pkt[38..40].copy_from_slice(&[0xfe, 0x80]);
    pkt[53] = 2;
    pkt[54..56].copy_from_slice(&1111u16.to_be_bytes());
    pkt[56..58].copy_from_slice(&2222u16.to_be_bytes());
    pkt[59] = 8;
    pkt
}

fn line(data: Vec<u8>, opts: PrintOptions) -> String {
    print_packet(&packet(data), &opts, &mut ctx(), 80)
}

#[test]
fn line_of_a_packet() {
    assert_eq!(line(tcp(), plain()), "192.168.1.1.http > 10.0.0.2.50000 tcp len=54\n");
    assert_eq!(line(udp6(), plain()), "fe80::1.1111 > fe80::2.2222 udp len=62\n");
    assert_eq!(line(vec![0u8; 10], plain()), "[unknown] len=10\n");
}

#[test]
fn numbers_in_place_of_names() {
    let once = PrintOptions {
        no_resolve: 1,
        ..plain()
    };
    assert_eq!(line(tcp(), once), "192.168.1.1:80 > 10.0.0.2:50000 tcp len=54\n");
    let twice = PrintOptions {
        no_resolve: 2,
        ..plain()
    };
    assert_eq!(line(tcp(), twice), "192.168.1.1:80 > 10.0.0.2:50000 6 len=54\n");
}

#[test]
fn every_timestamp_format() {
    for (format, stamp) in [
        (0, "00:00:12.500000 "),
        (1, ""),
        (2, "12 "),
        (3, "002.500000 "),
        (4, "1970-01-01 00:00:12.500000 "),
        (5, "011.500000 "),
        (6, "00:00:12.500000 "),
    ] {
        let opts = PrintOptions {
            timestamp_format: format,
            ..plain()
        };
        assert_eq!(line(vec![], opts), format!("{stamp}[unknown] len=0\n"));
    }
}

#[test]
fn printing_remembers_the_timestamp() {
    let mut seen = ctx();
    print_packet(&packet(tcp()), &plain(), &mut seen, 80);
    assert_eq!(
        seen,
        PktCtx {
            prev_ts: (12, 500_000),
            ..ctx()
        }
    );
}

#[test]
fn packet_numbers() {
    let numbered = PrintOptions {
        packet_number: true,
        ..plain()
    };
    assert_eq!(line(vec![], numbered), "7 [unknown] len=0\n");
    let stamped = PrintOptions {
        timestamp_format: 2,
        ..numbered
    };
    assert_eq!(line(vec![], stamped), "   7  12 [unknown] len=0\n");
}

#[test]
fn link_header() {
    let opts = PrintOptions {
        link_header: true,
        ..plain()
    };
    assert_eq!(
        line(tcp(), opts),
        "01:02:03:04:05:06 > aa:bb:cc:dd:ee:ff ethertype 0x0800 \
         192.168.1.1.http > 10.0.0.2.50000 tcp len=54\n"
    );
    assert_eq!(line(vec![0; 13], opts), "[unknown] len=13\n");
}

#[test]
fn verbose_details() {
    let opts = PrintOptions {
        verbose: 1,
        ..plain()
    };
    assert_eq!(
        line(tcp(), opts),
        "192.168.1.1.http > 10.0.0.2.50000 tcp ttl 64 id 4660,offset 0, S. \
         seq 1000 ack 2000 win 4096 len=54\n"
    );
    assert_eq!(
        line(udp6(), opts),
        "fe80::1.1111 > fe80::2.2222 udp hlim 255 len=62\n"
    );
}

#[test]
fn fragments_are_marked() {
    let mut pkt = tcp();
    pkt[20] = 0x20;
    pkt[21] = 0x05;
    let info = PacketInfo {
        ethertype: Some(0x0800),
        protocol: Some(17),
        ..PacketInfo::default()
    };
    let opts = PrintOptions {
        verbose: 1,
        ..plain()
    };
    assert_eq!(
        format_packet(&packet(pkt), &Some(info), &opts, &mut ctx(), 80),
        "? > ? udp ttl 64 id 4660,offset 5,+ len=54\n"
    );
}

#[test]
fn quiet_lines() {
    let quiet = PrintOptions {
        quiet: true,
        hex: 1,
        ..plain()
    };
    assert_eq!(line(tcp(), quiet), "tcp 192.168.1.1.http > 10.0.0.2.50000 len=54\n");
    assert_eq!(line(vec![], quiet), " [unknown] len=0\n");
    let stamped = PrintOptions {
        timestamp_format: 2,
        packet_number: true,
        ..quiet
    };
    assert_eq!(
        line(tcp(), stamped),
        "   7  12 tcp 192.168.1.1.http > 10.0.0.2.50000 len=54\n"
    );
}

#[test]
fn dumps_with_and_without_link_header() {
    let data = (0u8..16).collect::<Vec<_>>();
    let hex = PrintOptions {
        hex: 1,
        ..plain()
    };
    let filler = " ".repeat(18 + 24);
    assert_eq!(
        line(data.clone(), hex),
        format!("[unknown] len=16\n    0000: 0e 0f {filler}\n")
    );
    let full = PrintOptions { hex: 2, ..plain() };
    assert_eq!(
        line(data.clone(), full),
        "[unknown] len=16\n    0000: 00 01 02 03 04 05 06 07  08 09 0a 0b 0c 0d 0e 0f\n"
    );
    let both = PrintOptions {
        hex_ascii: 1,
        ascii: true,
        ..plain()
    };
    assert_eq!(
        line(data, both),
        format!("[unknown] len=16\n    0000: 0e 0f {filler}  ..\n")
    );
    assert_eq!(line(vec![0; 13], hex), "[unknown] len=13\n");
}

#[test]
fn text_of_the_payload() {
    let mut data = vec![0u8; 14];
    data.extend_from_slice(b"GET /\r\n");
    let ascii = PrintOptions {
        ascii: true,
        ..plain()
    };
    assert_eq!(line(data, ascii), "[unknown] len=21\nGET /..\n");
    assert_eq!(line(vec![0; 14], ascii), "[unknown] len=14\n");
}

#[test]
fn hex_dump_of_whole_and_broken_lines() {
    assert_eq!(format_hex(&[], 16), "");
    assert_eq!(
        format_hex(&[0xde, 0xad, 0xbe, 0xef], 4),
        "    0000: de ad  be ef\n"
    );
    assert_eq!(
        format_hex(&[1, 2, 3, 4, 5, 6, 7], 4),
        "    0000: 01 02  03 04\n    0004: 05 06  07      \n"
    );
    assert_eq!(
        format_hex_ascii(b"ab\x7f~", 4),
        "    0000: 61 62  7f 7e  ab.~\n"
    );
}

#[test]
fn short_lines_are_filled() {
    for (n, cells, blanks) in [
        (1usize, "78 ", 21usize),
        (3, "78 78 78 ", 15),
        (4, "78 78 78 78  ", 12),
        (5, "78 78 78 78  78 ", 11),
        (7, "78 78 78 78  78 78 78 ", 5),
        (8, "78 78 78 78  78 78 78 78", 0),
    ] {
        let line = format_hex(&vec![b'x'; n], 8);
        assert_eq!(line, format!("    0000: {cells}{}\n", " ".repeat(blanks)));
    }
}

#[test]
fn characters_stand_in_one_column() {
    assert_eq!(
        format_hex_ascii(b"abcdef", 4),
        "    0000: 61 62  63 64  abcd\n    0004: 65 66         ef\n"
    );
    assert_eq!(
        format_hex_ascii(b"abcdefg", 4),
        "    0000: 61 62  63 64  abcd\n    0004: 65 66  67     efg\n"
    );
    for bpl in [2usize, 3, 4, 5, 7, 16, 32, 48, 64] {
        for len in 1..3 * bpl {
            let data = vec![b'x'; len];
            for line in format_hex_ascii(&data, bpl).lines() {
                assert_eq!(line.find('x'), Some(12 + 3 * bpl));
            }
        }
    }
}

#[test]
fn text_dump() {
    assert_eq!(format_ascii(b"abcdef", 4), "abcd\nef");
    assert_eq!(format_ascii(b"abcd", 4), "abcd");
    assert_eq!(format_ascii(b" \x1f\x80", 9), " ..");
    assert_eq!(format_ascii(b"", 1), "");
}

#[test]
fn widths_of_dumps() {
    assert_eq!(hex_bytes_per_line(0), 16);
    assert_eq!(hex_bytes_per_line(127), 16);
    assert_eq!(hex_bytes_per_line(128), 32);
    assert_eq!(hex_bytes_per_line(usize::MAX), 64);
    assert_eq!(ascii_bytes_per_line(10), 64);
    assert_eq!(ascii_bytes_per_line(100), 85);
    assert_eq!(ascii_bytes_per_line(10_000), 512);
    for width in 0..2000usize {
        let target = (width as f64 * 0.85) as usize;
        let max_n = if target > 12 { (target - 12) / 3 } else { 16 };
        assert_eq!(hex_bytes_per_line(width), ((max_n / 16) * 16).clamp(16, 64));
        assert_eq!(ascii_bytes_per_line(width), target.max(64).min(512));
    }
}

#[test]
fn small_texts() {
    assert_eq!(format_mac(&[0, 1, 0xab, 0xff, 0x10, 9]), "00:01:ab:ff:10:09");
    let ip = Some(IpAddr::V4(Ipv4Addr::new(1, 2, 3, 4)));
    assert_eq!(format_addr(&ip, None, false), "1.2.3.4");
    assert_eq!(format_addr(&ip, Some(53), false), "1.2.3.4.domain");
    assert_eq!(format_addr(&ip, Some(53), true), "1.2.3.4:53");
    assert_eq!(format_addr(&None, Some(53), true), "?");
    for (port, name) in [
        (20, "ftp-data"),
        (21, "ftp"),
        (22, "ssh"),
        (23, "telnet"),
        (25, "smtp"),
        (53, "domain"),
        (80, "http"),
        (110, "pop3"),
        (143, "imap"),
        (443, "https"),
        (993, "imaps"),
        (995, "pop3s"),
        (8080, "http-alt"),
        (8081, "8081"),
    ] {
        assert_eq!(port_name(port), name);
    }
    for (proto, name) in [(1, "icmp"), (6, "tcp"), (17, "udp"), (58, "icmp6"), (2, "2")] {
        assert_eq!(protocol_name(proto), name);
    }
    assert_eq!(format_tcp_flags(0), "-");
    assert_eq!(format_tcp_flags(0xc0), "-");
    assert_eq!(format_tcp_flags(0x3f), "FSRP.U");
    assert_eq!(format_tcp_flags(0x12), "S.");
}

#[test]
fn headers_become_fields() {
    let frame = [0u8; 14];
    assert_eq!(packet_info(&frame, None), None);
    assert_eq!(packet_info(&frame, Some((NetHeader::Other, Some((1, 2))))), None);
    let info = packet_info(
        &frame,
        Some((NetHeader::Ipv4(6, [1, 2, 3, 4], [5, 6, 7, 8]), Some((9, 10)))),
    )
    .unwrap();
    assert_eq!(
        info,
        PacketInfo {
            ethertype: Some(0),
            protocol: Some(6),
            src_ip: Some(IpAddr::V4(Ipv4Addr::new(1, 2, 3, 4))),
            dst_ip: Some(IpAddr::V4(Ipv4Addr::new(5, 6, 7, 8))),
            src_port: Some(9),
            dst_port: Some(10),
        }
    );
    let mut src = [0u8; 16];
    src[15] = 1;
    let info = packet_info(&frame, Some((NetHeader::Ipv6(58, src, [0; 16]), None))).unwrap();
    assert_eq!(info.src_port, None);
    match info.src_ip {
        Some(IpAddr::V6(addr)) => assert_eq!(addr.bits, 1),
        other => panic!("{other:?}"),
    }
}

#[test]
fn parsed_headers_of_frames() {
    let info = parse_packet(&tcp()).unwrap();
    assert_eq!((info.src_port, info.dst_port), (Some(80), Some(50000)));
    let info = parse_packet(&udp6()).unwrap();
    assert_eq!(info.protocol, Some(17));
    assert_eq!((info.src_port, info.dst_port), (Some(1111), Some(2222)));
    let mut arp = vec![0u8; 14 + 28];
    arp[12] = 0x08;
    arp[13] = 0x06;
    assert_eq!(parse_packet(&arp), None);
    assert_eq!(parse_packet(&vec![0u8; 60]), None);
}

#[test]
fn error_texts() {
    for (error, text) in [
        (NetdumpError::Io("a".into()), "io error: a"),
        (NetdumpError::Parse("b".into()), "parse error: b"),
        (NetdumpError::Vm("c".into()), "vm error: c"),
        (NetdumpError::Unsupported("d".into()), "unsupported: d"),
    ] {
        assert_eq!(error.message(), text);
    }
}
