//! The ring buffer of a capture socket, and the interfaces to capture on.

use netdump::capture::{
    align_to, buffer_bytes, build_packet, check_ifname, next_power_of_two, open_plan, raw_program,
    ring_geometry, OpenOptions, RawBpfInsn, RingCursor, RingGeometry, RingStep,
};
use netdump::interfaces::{
    default_interface, format_interface, interface_table, InterfaceEntry, InterfaceInfo,
};
use netdump::packet::PacketMeta;
use netdump::{compile, parse};

const PAGE: usize = 4096;

#[test]
fn default_options() {
    let options = OpenOptions::default();
    assert_eq!(options.snaplen, 65535);
    assert!(options.promiscuous);
    assert_eq!(options.block_size, 1 << 20);
    assert_eq!(options.block_nr, 64);
    assert_eq!(options.buffer_size, None);
    assert_eq!(options.frame_size, None);
    assert_eq!(options.retire_tov_ms, None);
}

#[test]
fn powers_of_two() {
    for (n, power) in [(0, 1), (1, 1), (2, 2), (3, 4), (4096, 4096), (65791, 131072)] {
        assert_eq!(next_power_of_two(n), Some(power));
    }
    assert_eq!(next_power_of_two(usize::MAX), None);
}

#[test]
fn alignment() {
    assert_eq!(align_to(0, PAGE), 0);
    assert_eq!(align_to(1, PAGE), PAGE);
    assert_eq!(align_to(PAGE, PAGE), PAGE);
    assert_eq!(align_to(PAGE + 1, PAGE), 2 * PAGE);
    assert_eq!(align_to(7, 1), 7);
}

#[test]
fn geometry_of_the_default_ring() {
    assert_eq!(
        ring_geometry(&OpenOptions::default(), PAGE),
        Some(RingGeometry {
            frame_size: 131072,
            block_size: 1 << 20,
            block_nr: 64,
            ring_size: 64 << 20,
            frame_nr: 512,
            retire_tov_ms: 100,
        })
    );
}

#[test]
fn geometry_follows_the_options() {
    let options = OpenOptions {
        snaplen: 100,
        block_size: 5000,
        block_nr: 3,
        frame_size: Some(3000),
        retire_tov_ms: Some(7),
        ..OpenOptions::default()
    };
    assert_eq!(
        ring_geometry(&options, PAGE),
        Some(RingGeometry {
            frame_size: 4096,
            block_size: 8192,
            block_nr: 3,
            ring_size: 24576,
            frame_nr: 6,
            retire_tov_ms: 7,
        })
    );
    let small = OpenOptions {
        snaplen: 1,
        block_size: 1,
        block_nr: 1,
        ..OpenOptions::default()
    };
    let geometry = ring_geometry(&small, PAGE).unwrap();
    assert_eq!((geometry.frame_size, geometry.block_size), (2048, 4096));
    let uneven = OpenOptions {
        block_size: 204_800,
        block_nr: 2,
        ..OpenOptions::default()
    };
    assert_eq!(
        ring_geometry(&uneven, PAGE),
        Some(RingGeometry {
            frame_size: 131_072,
            block_size: 262_144,
            block_nr: 2,
            ring_size: 524_288,
            frame_nr: 4,
            retire_tov_ms: 100,
        })
    );
    let unlimited = OpenOptions {
        snaplen: 0,
        ..OpenOptions::default()
    };
    assert_eq!(
        ring_geometry(&unlimited, PAGE),
        ring_geometry(&OpenOptions::default(), PAGE)
    );
}

#[test]
fn frames_fit_into_the_ring() {
    for snaplen in [0usize, 1, 64, 1500, 65535, 262144] {
        for block_size in [1usize, 4096, 100_000, 204_800, 1 << 20] {
            let options = OpenOptions {
                snaplen,
                block_size,
                ..OpenOptions::default()
            };
            let g = ring_geometry(&options, PAGE).unwrap();
            assert!(snaplen + 256 <= g.frame_size);
            assert!(g.frame_size.is_power_of_two());
            assert!(g.frame_size <= g.block_size && block_size <= g.block_size);
            assert_eq!(g.block_size % PAGE, 0);
            assert_eq!(g.block_size % g.frame_size, 0);
            assert_eq!(g.ring_size, g.block_size * g.block_nr);
            assert_eq!(g.frame_nr, g.block_size / g.frame_size * g.block_nr);
            assert_eq!(g.frame_nr * g.frame_size, g.ring_size);
        }
    }
}

#[test]
fn geometry_that_cannot_be_counted() {
    let large = OpenOptions {
        snaplen: usize::MAX,
        ..OpenOptions::default()
    };
    assert_eq!(ring_geometry(&large, PAGE), None);
    let large = OpenOptions {
        frame_size: Some(usize::MAX),
        ..OpenOptions::default()
    };
    assert_eq!(ring_geometry(&large, PAGE), None);
    let large = OpenOptions {
        block_size: usize::MAX,
        ..OpenOptions::default()
    };
    assert_eq!(ring_geometry(&large, PAGE), None);
    let large = OpenOptions {
        block_nr: usize::MAX,
        ..OpenOptions::default()
    };
    assert_eq!(ring_geometry(&large, PAGE), None);
}

#[test]
fn receive_buffers() {
    assert_eq!(buffer_bytes(0), 0);
    assert_eq!(buffer_bytes(64), 65536);
    assert_eq!(buffer_bytes(2_097_151), 2_147_482_624);
    assert_eq!(buffer_bytes(2_097_152), i32::MAX);
    assert_eq!(buffer_bytes(u32::MAX), -1024);
}

#[test]
fn plans_to_open_a_socket() {
    let options = OpenOptions {
        buffer_size: Some(2),
        ..OpenOptions::default()
    };
    let plan = open_plan("eth0", &options, PAGE);
    assert!(!plan.any && plan.promiscuous);
    assert_eq!(plan.buffer, Some(2048));
    assert_eq!(plan.ring, ring_geometry(&options, PAGE));
    let plan = open_plan("any", &OpenOptions::default(), PAGE);
    assert!(plan.any && !plan.promiscuous);
    assert_eq!(plan.buffer, None);
    let quiet = OpenOptions {
        promiscuous: false,
        ..OpenOptions::default()
    };
    let plan = open_plan("anyone", &quiet, PAGE);
    assert!(!plan.any && !plan.promiscuous);
}

#[test]
fn interface_names_have_a_limit() {
    assert!(check_ifname("").is_ok());
    assert!(check_ifname("fifteen-letters").is_ok());
    assert_eq!(
        check_ifname("sixteen--letters").unwrap_err().message(),
        "io error: interface name too long"
    );
}

#[test]
fn kernel_takes_the_same_instructions() {
    let program = compile(&parse("tcp port 80").unwrap());
    let raw = raw_program(&program);
    assert_eq!(raw.len(), program.len());
    for (insn, inst) in raw.iter().zip(&program) {
        assert_eq!(
            (insn.code, insn.jt, insn.jf, insn.k),
            (inst.code, inst.jt, inst.jf, inst.k)
        );
        assert_eq!(*insn, RawBpfInsn::from(*inst));
    }
}

#[test]
fn packets_of_frames() {
    let packet = build_packet(&[1, 2, 3], 5, 1_999_999, 4, 1500);
    assert_eq!(packet.data, vec![1, 2, 3]);
    assert_eq!(packet.meta, PacketMeta::new(5, 1999, 4, 3, 1500));
}

#[test]
fn ring_is_read_block_by_block() {
    let mut ring = RingCursor::new(2);
    assert_eq!(ring.next_step(), RingStep::AwaitBlock { block: 0 });
    ring.block_ready(2, 48);
    assert_eq!(ring.next_step(), RingStep::ReadFrame { block: 0, offset: 48 });
    ring.frame_read(100);
    assert_eq!(ring.next_step(), RingStep::ReadFrame { block: 0, offset: 148 });
    ring.frame_read(0);
    assert_eq!(ring.next_step(), RingStep::ReleaseBlock { block: 0 });
    ring.block_released();
    assert_eq!(ring.next_step(), RingStep::AwaitBlock { block: 1 });
    ring.block_ready(0, 48);
    assert_eq!(ring.next_step(), RingStep::ReleaseBlock { block: 1 });
    ring.block_released();
    assert_eq!(ring.next_step(), RingStep::AwaitBlock { block: 0 });
}

#[test]
fn frames_are_read_once_each() {
    let nexts = [10u32, 20, 30, 40];
    let mut ring = RingCursor::new(1);
    ring.block_ready(nexts.len() as u32, 7);
    let mut offset = 7;
    for next in nexts {
        assert_eq!(ring.next_step(), RingStep::ReadFrame { block: 0, offset });
        ring.frame_read(next);
        offset += next;
    }
    assert_eq!(ring.next_step(), RingStep::ReleaseBlock { block: 0 });
}

fn entry(name: &str, ifindex: i32, flags: u32) -> InterfaceEntry {
    InterfaceEntry {
        name: name.to_string(),
        ifindex,
        flags,
    }
}

fn fields(table: &[InterfaceInfo]) -> Vec<(&str, i32, bool)> {
    table
        .iter()
        .map(|info| (info.name.as_str(), info.ifindex, info.is_up))
        .collect()
}

#[test]
fn table_of_interfaces() {
    let table = interface_table(vec![
        entry("wlan0", 3, 0x1),
        entry("lo", 1, 0x9),
        entry("eth0", 2, 0x0),
        entry("lo", 1, 0x1),
        entry("tun1", 3, 0x1),
        entry("wlan0", 3, 0x0),
    ]);
    assert_eq!(
        fields(&table),
        vec![
            ("lo", 1, false),
            ("eth0", 2, false),
            ("wlan0", 3, true),
            ("tun1", 3, true),
        ]
    );
    assert!(interface_table(Vec::new()).is_empty());
}

#[test]
fn default_is_the_lowest_that_is_up() {
    let table = interface_table(vec![
        entry("b", 9, 0x1),
        entry("lo", 1, 0x9),
        entry("a", 4, 0x1),
        entry("down", 2, 0x0),
    ]);
    assert_eq!(default_interface(&table), Ok("a".to_string()));
    let down = interface_table(vec![entry("lo", 1, 0x9)]);
    assert_eq!(
        default_interface(&down).unwrap_err().message(),
        "io error: no suitable interface found"
    );
}

#[test]
fn lines_of_interfaces() {
    let info = |ifindex, is_up| InterfaceInfo {
        name: "eth0".to_string(),
        ifindex,
        is_up,
    };
    assert_eq!(format_interface(&info(2, true)), "2. eth0*");
    assert_eq!(format_interface(&info(10, false)), "10. eth0");
    assert_eq!(format_interface(&info(i32::MIN, false)), "-2147483648. eth0");
}
