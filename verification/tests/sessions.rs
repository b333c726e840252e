//! Runs of the tool: the filter, the packets that are taken, and what is said of them.

use netdump::capture::OpenOptions;
use netdump::packet::{parse_packet, Packet, PacketMeta};
use netdump::print::PrintOptions;
use netdump::session::{
    capture_options, choose_filter, format_program, format_summary, join, kernel_program,
    packet_record, prepare, record_packet, trim, CaptureArgs, OutputArgs, Prepared, Record,
    Selection, Session,
};
use netdump::types::{jeq, ret_k};
use netdump::{compile, parse, Instruction, Vm};

fn words(list: &[&str]) -> Vec<String> {
    list.iter().map(|word| word.to_string()).collect()
}

#[test]
fn trimming() {
    assert_eq!(trim(" \t tcp port 80\r\n"), "tcp port 80");
    assert_eq!(trim("\u{3000}\u{a0}x\u{2003}\u{85}"), "x");
    assert_eq!(trim(" \n "), "");
    assert_eq!(trim(""), "");
    assert_eq!(trim("\u{200b}"), "\u{200b}");
    for c in (0..=0x10ffffu32).filter_map(char::from_u32) {
        assert_eq!(trim(&c.to_string()).is_empty(), c.is_whitespace());
    }
}

#[test]
fn joining() {
    assert_eq!(join(&words(&["tcp", "port", "80"])), "tcp port 80");
    assert_eq!(join(&words(&["", ""])), " ");
    assert_eq!(join(&[]), "");
}

#[test]
fn filter_of_a_run() {
    assert_eq!(
        choose_filter(None, &words(&[" tcp ", "port", "80 "])),
        Ok(Some("tcp  port 80".to_string()))
    );
    assert_eq!(choose_filter(None, &words(&[" ", ""])), Ok(None));
    assert_eq!(choose_filter(None, &[]), Ok(None));
    assert_eq!(
        choose_filter(Some("udp\n"), &words(&["tcp"])),
        Ok(Some("udp".to_string()))
    );
    assert_eq!(
        choose_filter(Some(" \n"), &words(&["tcp"]))
            .unwrap_err()
            .message(),
        "parse error: empty filter file"
    );
}

#[test]
fn listing_of_a_program() {
    assert_eq!(
        format_program(&[jeq(7), ret_k(1)]),
        "CBPF program (2 instructions):\n  \
         0: Instruction { code: 21, jt: 0, jf: 0, k: 7 }\n  \
         1: Instruction { code: 6, jt: 0, jf: 0, k: 1 }\n"
    );
    let inst = Instruction::new(0x15, 3, 4, 5);
    assert_eq!(
        format_program(&[inst]),
        format!("CBPF program (1 instructions):\n  0: {inst:?}\n")
    );
    assert_eq!(format_program(&[]), "CBPF program (0 instructions):\n");
}

#[test]
fn preparing_a_filter() {
    let expected = compile(&parse("tcp").unwrap());
    match prepare(Some("tcp"), false) {
        Ok(Prepared::Program(Some(program))) => assert_eq!(program, expected),
        _ => panic!("no program"),
    }
    match prepare(Some("tcp"), true) {
        Ok(Prepared::Listing(text)) => assert_eq!(text, format_program(&expected)),
        _ => panic!("no listing"),
    }
    assert!(matches!(prepare(None, false), Ok(Prepared::Program(None))));
    match prepare(None, true) {
        Err(e) => assert_eq!(e.message(), "parse error: no filter expression to dump"),
        Ok(_) => panic!("nothing to dump"),
    }
    match prepare(Some("port 99999"), true) {
        Err(e) => assert_eq!(
            e.message(),
            "parse error: invalid port: number too large to fit in target type"
        ),
        Ok(_) => panic!("not a port"),
    }
}

#[test]
fn filters_whose_jumps_are_too_far() {
    let long = vec!["host fe80::1"; 40].join(" or ");
    for dump in [false, true] {
        match prepare(Some(&long), dump) {
            Err(e) => assert_eq!(e.message(), "unsupported: filter expression too long"),
            Ok(_) => panic!("no program is possible"),
        }
    }
    let short = vec!["host fe80::1"; 5].join(" or ");
    assert!(matches!(
        prepare(Some(&short), false),
        Ok(Prepared::Program(Some(_)))
    ));
}

#[test]
fn capture_options_of_the_command_line() {
    let args = CaptureArgs {
        snaplen: 0,
        no_promiscuous: false,
        buffer_size: None,
        block_size_kib: 1024,
        block_nr: 64,
        frame_size: 2048,
        retire_tov_ms: 100,
    };
    assert_eq!(
        capture_options(&args),
        OpenOptions {
            frame_size: Some(2048),
            retire_tov_ms: Some(100),
            ..OpenOptions::default()
        }
    );
    let args = CaptureArgs {
        snaplen: 96,
        no_promiscuous: true,
        buffer_size: Some(4),
        block_size_kib: 3,
        block_nr: 2,
        frame_size: 1,
        retire_tov_ms: 0,
    };
    assert_eq!(
        capture_options(&args),
        OpenOptions {
            snaplen: 96,
            promiscuous: false,
            block_size: 3072,
            block_nr: 2,
            buffer_size: Some(4),
            frame_size: Some(1),
            retire_tov_ms: Some(0),
        }
    );
}

#[test]
fn program_for_the_kernel() {
    let program = Some(compile(&parse("udp").unwrap()));
    assert_eq!(kernel_program(&program, false).unwrap().len(), program.as_ref().unwrap().len());
    assert!(kernel_program(&program, true).is_none());
    assert!(kernel_program(&None, false).is_none());
}

#[test]
fn saved_packets_read_back() {
    let meta = PacketMeta::new(1_700_000_000, 999_999, 3, 4, 1500);
    let record = packet_record(&meta);
    assert_eq!(
        record,
        Record {
            sec: 1_700_000_000,
            nanos: 999_999_000,
            orig_len: 1500,
        }
    );
    let packet = record_packet(&record, 0, vec![9, 8, 7, 6]);
    assert_eq!(packet.meta, PacketMeta { ifindex: 0, ..meta });
    assert_eq!(packet.data, vec![9, 8, 7, 6]);
}

fn frame(src: [u8; 6]) -> Vec<u8> {
    let mut data = vec![0u8; 14];
    data[6..12].copy_from_slice(&src);
    data
}

fn selection(direction: Option<&str>, mac: Option<[u8; 6]>) -> Selection {
    Selection {
        program: None,
        kernel_filtered: false,
        direction: direction.map(|word| word.to_string()),
        mac,
    }
}

#[test]
fn directions() {
    let mac = [1, 2, 3, 4, 5, 6];
    let own = frame(mac);
    let foreign = frame([1, 2, 3, 4, 5, 7]);
    for (word, takes_own, takes_foreign) in [
        ("in", false, true),
        ("out", true, false),
        ("inout", true, true),
        ("IN", true, true),
    ] {
        let wanted = selection(Some(word), Some(mac));
        assert_eq!(wanted.wants(&own), takes_own, "{word}");
        assert_eq!(wanted.wants(&foreign), takes_foreign, "{word}");
        assert!(wanted.wants(&own[..13]));
    }
    assert!(selection(Some("out"), None).wants(&foreign));
    assert!(selection(None, Some(mac)).wants(&foreign));
}

#[test]
fn selection_by_filter() {
    let mut arp = vec![0u8; 42];
    arp[12] = 0x08;
    arp[13] = 0x06;
    let other = vec![0u8; 42];
    let program = compile(&parse("arp").unwrap());
    let wanted = Selection {
        program: Some(program),
        ..selection(None, None)
    };
    assert!(wanted.wants(&arp));
    assert!(!wanted.wants(&other));
    let filtered = Selection {
        kernel_filtered: true,
        ..wanted
    };
    assert!(filtered.wants(&other));
    assert!(selection(None, None).wants(&[]));
}

fn output(write: bool, print: bool, timestamp_format: u8) -> OutputArgs {
    OutputArgs {
        write,
        print,
        options: PrintOptions {
            timestamp_format,
            packet_number: false,
            quiet: false,
            link_header: false,
            no_resolve: 0,
            verbose: 0,
            hex: 0,
            hex_ascii: 0,
            ascii: false,
        },
    }
}

fn packet(sec: u64, usec: u64) -> Packet {
    Packet::new(PacketMeta::new(sec, usec, 0, 0, 0), Vec::new())
}

#[test]
fn times_since_the_first_packet() {
    let mut session = Session::new();
    let since_first = output(false, false, 5);
    for (sec, text) in [(100, "000.000000"), (101, "001.000000"), (105, "005.000000")] {
        assert_eq!(
            session.take(&packet(sec, 0), &since_first, 80),
            Some(format!("{text} [unknown] len=0\n"))
        );
    }
}

#[test]
fn times_since_the_previous_packet() {
    let mut session = Session::new();
    let since_last = output(false, false, 3);
    for (sec, text) in [(2, "002.000000"), (3, "001.000000"), (7, "004.000000")] {
        assert_eq!(
            session.take(&packet(sec, 0), &since_last, 80),
            Some(format!("{text} [unknown] len=0\n"))
        );
    }
}

#[test]
fn packets_are_printed_unless_saved() {
    let mut session = Session::new();
    assert_eq!(session.take(&packet(1, 0), &output(true, false, 1), 80), None);
    assert_eq!(session.captured, 1);
    assert_eq!(session.ctx.num, 1);
    assert!(session.take(&packet(1, 0), &output(true, true, 1), 80).is_some());
    assert!(session.take(&packet(1, 0), &output(false, false, 1), 80).is_some());
    assert_eq!(session.captured, 3);
    assert_eq!(format_summary(session.captured), "captured 3 packets");
}

#[test]
fn packets_that_are_not_selected_leave_no_trace() {
    let wanted = Selection {
        program: Some(compile(&parse("len > 0").unwrap())),
        ..selection(None, None)
    };
    let mut session = Session::new();
    assert_eq!(session.offer(&wanted, &packet(5, 0), &output(false, false, 5), 80), None);
    assert_eq!((session.captured, session.ctx.first_ts), (0, (0, 0)));
    let taken = Packet::new(PacketMeta::new(9, 0, 0, 1, 1), vec![0]);
    assert_eq!(
        session.offer(&wanted, &taken, &output(false, false, 5), 80),
        Some(Some("000.000000 [unknown] len=1\n".to_string()))
    );
    assert_eq!((session.captured, session.ctx.first_ts), (1, (9, 0)));
    assert_eq!(session.offer(&wanted, &taken, &output(true, false, 5), 80), Some(None));
    assert_eq!(session.captured, 2);
}

#[test]
fn runs_end_after_so_many_packets() {
    let mut session = Session::new();
    assert!(session.is_done(Some(0)));
    assert!(!session.is_done(None));
    let mut taken = 0;
    while !session.is_done(Some(3)) {
        session.take(&packet(1, 0), &output(false, false, 1), 80);
        taken += 1;
    }
    assert_eq!((taken, session.captured), (3, 3));
}

/// A TCP packet from 192.168.1.1:80 to 10.0.0.2:443, with four bytes of options in its IP header.
fn tcp() -> Vec<u8> {
    let mut pkt = vec![0u8; 14 + 24 + 20];
    pkt[12] = 0x08;
    pkt[14] = 0x46;
    pkt[17] = 44;
    pkt[23] = 6;
    pkt[26..30].copy_from_slice(&[192, 168, 1, 1]);
    pkt[30..34].copy_from_slice(&[10, 0, 0, 2]);
    pkt[38..42].copy_from_slice(&[0, 80, 1, 187]);
    pkt[50] = 0x50;
    pkt
}

fn accepts(filter: &str, data: &[u8]) -> bool {
    Vm::exec(&compile(&parse(filter).unwrap()), data)
}

#[test]
fn parsed_fields_match_their_filters() {
    let pkt = tcp();
    let info = parse_packet(&pkt).unwrap();
    assert_eq!((info.src_port, info.dst_port), (Some(80), Some(443)));
    assert_eq!(info.protocol, Some(6));
    for filter in [
        "src host 192.168.1.1",
        "dst host 10.0.0.2",
        "tcp",
        "src port 80",
        "dst port 443",
        "port 443",
    ] {
        assert!(accepts(filter, &pkt), "{filter}");
    }
    for filter in [
        "src host 192.168.1.2",
        "udp",
        "src port 443",
        "dst port 80",
        "port 53",
    ] {
        assert!(!accepts(filter, &pkt), "{filter}");
    }
}

#[test]
fn combined_filters_decide_together() {
    let pkt = tcp();
    let filters = ["tcp", "udp", "port 80", "host 1.1.1.1"];
    for a in filters {
        assert_eq!(accepts(&format!("not ({a})"), &pkt), !accepts(a, &pkt));
        for b in filters {
            assert_eq!(
                accepts(&format!("({a}) and ({b})"), &pkt),
                accepts(a, &pkt) && accepts(b, &pkt)
            );
            assert_eq!(
                accepts(&format!("({a}) or ({b})"), &pkt),
                accepts(a, &pkt) || accepts(b, &pkt)
            );
        }
    }
}

#[test]
fn port_ranges_without_direction() {
    let between = |src: u16, dst: u16| {
        let mut pkt = tcp();
        pkt[38..40].copy_from_slice(&src.to_be_bytes());
        pkt[40..42].copy_from_slice(&dst.to_be_bytes());
        accepts("portrange 100-200", &pkt)
    };
    assert!(between(100, 1) && between(200, 1) && between(150, 300));
    assert!(between(300, 100) && between(300, 200));
    assert!(between(99, 150) && between(99, 100) && between(0, 200));
    assert!(!between(300, 99) && !between(300, 201));
    assert!(!between(99, 99) && !between(99, 201));
}

#[test]
fn port_ranges_of_every_direction() {
    let mut udp = vec![0u8; 14 + 20 + 8];
    udp[12] = 0x08;
    udp[14] = 0x45;
    udp[23] = 17;
    udp[34..36].copy_from_slice(&80u16.to_be_bytes());
    udp[36..38].copy_from_slice(&1500u16.to_be_bytes());
    let mut udp6 = vec![0u8; 14 + 40 + 8];
    udp6[12] = 0x86;
    udp6[13] = 0xdd;
    udp6[20] = 17;
    udp6[54..56].copy_from_slice(&80u16.to_be_bytes());
    udp6[56..58].copy_from_slice(&1500u16.to_be_bytes());
    for pkt in [udp, udp6] {
        assert!(accepts("portrange 1000-2000", &pkt));
        assert!(accepts("dst portrange 1000-2000", &pkt));
        assert!(!accepts("src portrange 1000-2000", &pkt));
        assert!(accepts("src portrange 80-80", &pkt));
        assert!(!accepts("portrange 81-1499", &pkt));
    }
}

#[test]
fn networks_of_every_prefix() {
    assert!(accepts("net 1.2.3.4/0", &tcp()));
    assert!(accepts("src net 192.168.1.0/24", &tcp()));
    assert!(accepts("src net 192.168.1.77/24", &tcp()));
    assert!(!accepts("dst net 192.168.1.0/24", &tcp()));
    assert!(accepts("net 192.168.1.1/32", &tcp()));
    assert!(!accepts("net 192.168.1.2/32", &tcp()));
}

#[test]
fn programs_end_in_two_returns() {
    for filter in ["tcp", "not port 80 and (udp or host fe80::1)", "len > 3"] {
        let program = compile(&parse(filter).unwrap());
        let n = program.len();
        assert_eq!(program[n - 2], ret_k(netdump::types::CBPF_ACCEPT));
        assert_eq!(program[n - 1], ret_k(netdump::types::CBPF_REJECT));
        for (i, inst) in program.iter().enumerate() {
            if inst.code & 0x07 == netdump::types::BPF_JMP {
                assert!(i + 1 + (inst.jt.max(inst.jf) as usize) < n);
            }
        }
    }
}
