//! What filters look at, in terms of the bytes of a frame.

use vstd::prelude::*;

use crate::addr::{Ipv4Addr, Ipv6Addr};
use crate::ast::{holds, Direction, Expr, FilterAst, HostAddr, NetAddr, Protocol, RelOp};
use crate::vm::{byte_at, half_at, word_at};

verus! {

/// The number that bytes make up, the first of them the most significant.
pub open spec fn big_endian(bytes: Seq<u8>) -> nat
    decreases bytes.len(),
{
    if bytes.len() == 0 {
        0
    } else {
        big_endian(bytes.drop_last()) * 256 + bytes.last() as nat
    }
}

/// The number in the `n` bytes at `off`; zero where they do not all lie in the packet.
pub open spec fn field(packet: Seq<u8>, off: int, n: int) -> nat {
    if 0 <= off && off + n <= packet.len() {
        big_endian(packet.subrange(off, off + n))
    } else {
        0
    }
}

proof fn lemma_one(bytes: Seq<u8>)
    requires
        bytes.len() == 1,
    ensures
        big_endian(bytes) == bytes[0],
{
    assert(big_endian(bytes.drop_last()) == 0);
}

proof fn lemma_two(bytes: Seq<u8>)
    requires
        bytes.len() == 2,
    ensures
        big_endian(bytes) == bytes[0] * 256 + bytes[1],
{
    lemma_one(bytes.drop_last());
}

proof fn lemma_four(bytes: Seq<u8>)
    requires
        bytes.len() == 4,
    ensures
        big_endian(bytes) == bytes[0] * 0x100_0000 + bytes[1] * 0x1_0000 + bytes[2] * 0x100
            + bytes[3],
{
    let three = bytes.drop_last();
    let two = three.drop_last();
    lemma_two(two);
    assert(two[0] == bytes[0] && two[1] == bytes[1] && three.last() == bytes[2]);
    assert(big_endian(three) == big_endian(two) * 256 + bytes[2]);
    assert(big_endian(bytes) == big_endian(three) * 256 + bytes[3]);
}

/// A read takes the bytes at its offset as a big-endian number, and is zero where they do not all
/// lie in the packet.
pub proof fn law_reads_are_big_endian(packet: Seq<u8>, off: int)
    ensures
        byte_at(packet, off) == field(packet, off, 1),
        half_at(packet, off) == field(packet, off, 2),
        word_at(packet, off) == field(packet, off, 4),
{
    if 0 <= off && off + 1 <= packet.len() {
        lemma_one(packet.subrange(off, off + 1));
    }
    if 0 <= off && off + 2 <= packet.len() {
        lemma_two(packet.subrange(off, off + 2));
    }
    if 0 <= off && off + 4 <= packet.len() {
        lemma_four(packet.subrange(off, off + 4));
    }
}

/// What a direction asks for: of the source, of the destination, or of either.
pub open spec fn asked(dir: Direction, src: bool, dst: bool) -> bool {
    (dir == Direction::Src && src) || (dir == Direction::Dst && dst) || (dir == Direction::Any && (
    src || dst))
}

/// Where the ports of a TCP or UDP packet stand; nothing for another packet. Behind Ethernet an
/// IPv4 header is as long as the low half of its first byte says, in units of four bytes, and an
/// IPv6 header is 40 bytes long.
pub open spec fn ports_at(packet: Seq<u8>) -> Option<int> {
    if field(packet, 12, 2) == 0x0800 && (field(packet, 23, 1) == 6 || field(packet, 23, 1) == 17) {
        Some(14 + 4 * (field(packet, 14, 1) as int % 16))
    } else if field(packet, 12, 2) == 0x86dd && (field(packet, 20, 1) == 6 || field(packet, 20, 1)
        == 17) {
        Some(54)
    } else {
        None
    }
}

/// A protocol is told by the EtherType in bytes 12 and 13, and one above IP by the protocol number
/// at byte 23 of an IPv4 and at byte 20 of an IPv6 packet.
pub proof fn law_protocols_by_bytes(packet: Seq<u8>)
    ensures
        holds(Expr::Proto(Protocol::Ip), packet) == (field(packet, 12, 2) == 0x0800),
        holds(Expr::Proto(Protocol::Ip6), packet) == (field(packet, 12, 2) == 0x86dd),
        holds(Expr::Proto(Protocol::Arp), packet) == (field(packet, 12, 2) == 0x0806),
        holds(Expr::Proto(Protocol::Rarp), packet) == (field(packet, 12, 2) == 0x8035),
        holds(Expr::Proto(Protocol::Tcp), packet) == ((field(packet, 12, 2) == 0x0800 && field(
            packet,
            23,
            1,
        ) == 6) || (field(packet, 12, 2) == 0x86dd && field(packet, 20, 1) == 6)),
        holds(Expr::Proto(Protocol::Udp), packet) == ((field(packet, 12, 2) == 0x0800 && field(
            packet,
            23,
            1,
        ) == 17) || (field(packet, 12, 2) == 0x86dd && field(packet, 20, 1) == 17)),
        holds(Expr::Proto(Protocol::Icmp), packet) == (field(packet, 12, 2) == 0x0800 && field(
            packet,
            23,
            1,
        ) == 1),
        holds(Expr::Proto(Protocol::Icmp6), packet) == (field(packet, 12, 2) == 0x86dd && field(
            packet,
            20,
            1,
        ) == 58),
{
    law_reads_are_big_endian(packet, 12);
    law_reads_are_big_endian(packet, 20);
    law_reads_are_big_endian(packet, 23);
}

/// An IPv4 host matches where its number stands in the four bytes of the source or of the
/// destination that the direction asks for.
pub proof fn law_ipv4_host_by_bytes(addr: Ipv4Addr, dir: Direction, packet: Seq<u8>)
    ensures
        holds(Expr::Host { addr: HostAddr::V4(addr), dir }, packet) == (field(packet, 12, 2)
            == 0x0800 && asked(
            dir,
            field(packet, 26, 4) == addr.bits,
            field(packet, 30, 4) == addr.bits,
        )),
{
    law_reads_are_big_endian(packet, 12);
    law_reads_are_big_endian(packet, 26);
    law_reads_are_big_endian(packet, 30);
}

/// A number of 128 bits out of four words.
pub proof fn lemma_words_of(bits: u128, a: u32, b: u32, c: u32, d: u32)
    ensures
        ({
            let addr = Ipv6Addr { bits };
            (addr.word(0) == a && addr.word(1) == b && addr.word(2) == c && addr.word(3) == d)
                == (bits == a * 0x1_0000_0000_0000_0000_0000_0000 + b * 0x1_0000_0000_0000_0000 + c
                * 0x1_0000_0000 + d)
        }),
{
    let n = bits as int;
    let q1 = n / 0x1_0000_0000;
    let q2 = n / 0x1_0000_0000_0000_0000;
    let q3 = n / 0x1_0000_0000_0000_0000_0000_0000;
    assert(q2 == q1 / 0x1_0000_0000);
    assert(q3 == q2 / 0x1_0000_0000);
    assert(n == q1 * 0x1_0000_0000 + n % 0x1_0000_0000);
    assert(q1 == q2 * 0x1_0000_0000 + q1 % 0x1_0000_0000);
    assert(q2 == q3 * 0x1_0000_0000 + q2 % 0x1_0000_0000);
    assert(0 <= q3 < 0x1_0000_0000);
    let m = a * 0x1_0000_0000_0000_0000_0000_0000 + b * 0x1_0000_0000_0000_0000 + c * 0x1_0000_0000
        + d;
    if n == m {
        let r1 = (a * 0x1_0000_0000 + b) * 0x1_0000_0000 + c;
        let r2 = a * 0x1_0000_0000 + b;
        assert(m == r1 * 0x1_0000_0000 + d);
        assert(q1 == r1 && n % 0x1_0000_0000 == d);
        assert(q2 == r2 && q1 % 0x1_0000_0000 == c);
        assert(q3 == a && q2 % 0x1_0000_0000 == b);
    }
}

/// The number in sixteen bytes is that of their four words.
pub proof fn lemma_sixteen(packet: Seq<u8>, off: int)
    requires
        0 <= off,
        off + 16 <= packet.len(),
    ensures
        field(packet, off, 16) == word_at(packet, off) * 0x1_0000_0000_0000_0000_0000_0000 + word_at(
            packet,
            off + 4,
        ) * 0x1_0000_0000_0000_0000 + word_at(packet, off + 8) * 0x1_0000_0000 + word_at(
            packet,
            off + 12,
        ),
{
    law_reads_are_big_endian(packet, off);
    law_reads_are_big_endian(packet, off + 4);
    law_reads_are_big_endian(packet, off + 8);
    law_reads_are_big_endian(packet, off + 12);
    lemma_longer(packet, off, 4);
    lemma_longer(packet, off, 8);
    lemma_longer(packet, off, 12);
    let a = field(packet, off, 4);
    let b = field(packet, off + 4, 4);
    let c = field(packet, off + 8, 4);
    let d = field(packet, off + 12, 4);
    let two = field(packet, off, 8);
    let three = field(packet, off, 12);
    assert(two == a * 0x1_0000_0000 + b);
    assert(three == two * 0x1_0000_0000 + c);
    assert(field(packet, off, 16) == three * 0x1_0000_0000 + d);
}

/// Four bytes more.
proof fn lemma_longer(packet: Seq<u8>, off: int, n: int)
    requires
        0 <= off,
        0 <= n,
        off + n + 4 <= packet.len(),
    ensures
        field(packet, off, n + 4) == field(packet, off, n) * 0x1_0000_0000 + field(
            packet,
            off + n,
            4,
        ),
{
    let all = packet.subrange(off, off + n + 4);
    let three = all.drop_last();
    let two = three.drop_last();
    let one = two.drop_last();
    assert(one.drop_last() =~= packet.subrange(off, off + n));
    lemma_four(packet.subrange(off + n, off + n + 4));
    let base = big_endian(packet.subrange(off, off + n));
    assert(big_endian(one) == base * 256 + packet[off + n]);
    assert(big_endian(two) == big_endian(one) * 256 + packet[off + n + 1]);
    assert(big_endian(three) == big_endian(two) * 256 + packet[off + n + 2]);
    assert(big_endian(all) == big_endian(three) * 256 + packet[off + n + 3]);
}

/// An IPv6 host matches where its number stands in the sixteen bytes of the source or of the
/// destination that the direction asks for.
pub proof fn law_ipv6_host_by_bytes(addr: Ipv6Addr, dir: Direction, packet: Seq<u8>)
    requires
        packet.len() >= 54,
    ensures
        holds(Expr::Host { addr: HostAddr::V6(addr), dir }, packet) == (field(packet, 12, 2)
            == 0x86dd && asked(
            dir,
            field(packet, 22, 16) == addr.bits,
            field(packet, 38, 16) == addr.bits,
        )),
{
    law_reads_are_big_endian(packet, 12);
    lemma_host_words(addr, packet, 22);
    lemma_host_words(addr, packet, 38);
}

proof fn lemma_host_words(addr: Ipv6Addr, packet: Seq<u8>, off: int)
    requires
        0 <= off,
        off + 16 <= packet.len(),
    ensures
        crate::ast::ipv6_is(packet, off, addr) == (field(packet, off, 16) == addr.bits),
{
    lemma_sixteen(packet, off);
    let a = word_at(packet, off);
    let b = word_at(packet, off + 4);
    let c = word_at(packet, off + 8);
    let d = word_at(packet, off + 12);
    lemma_words_of(addr.bits, a, b, c, d);
    if crate::ast::ipv6_is(packet, off, addr) {
        assert(word_at(packet, off + 4 * 0) == addr.word(0));
        assert(word_at(packet, off + 4 * 1) == addr.word(1));
        assert(word_at(packet, off + 4 * 2) == addr.word(2));
        assert(word_at(packet, off + 4 * 3) == addr.word(3));
    }
    if field(packet, off, 16) == addr.bits {
        assert forall|i: int| 0 <= i < 4 implies word_at(packet, off + 4 * i) == #[trigger] addr.word(
            i,
        ) by {
            if i == 0 {
            } else if i == 1 {
            } else if i == 2 {
            } else {
            }
        }
    }
}

/// A packet too short for its IPv6 addresses matches a host word by word, a word that it does not
/// have being zero.
pub proof fn law_short_ipv6_host(addr: Ipv6Addr, packet: Seq<u8>)
    ensures
        holds(Expr::Host { addr: HostAddr::V6(addr), dir: Direction::Src }, packet) == (field(
            packet,
            12,
            2,
        ) == 0x86dd && addr.bits == field(packet, 22, 4) * 0x1_0000_0000_0000_0000_0000_0000
            + field(packet, 26, 4) * 0x1_0000_0000_0000_0000 + field(packet, 30, 4) * 0x1_0000_0000
            + field(packet, 34, 4)),
        holds(Expr::Host { addr: HostAddr::V6(addr), dir: Direction::Dst }, packet) == (field(
            packet,
            12,
            2,
        ) == 0x86dd && addr.bits == field(packet, 38, 4) * 0x1_0000_0000_0000_0000_0000_0000
            + field(packet, 42, 4) * 0x1_0000_0000_0000_0000 + field(packet, 46, 4) * 0x1_0000_0000
            + field(packet, 50, 4)),
{
    law_reads_are_big_endian(packet, 12);
    lemma_spread(addr, packet, 22);
    lemma_spread(addr, packet, 38);
}

proof fn lemma_spread(addr: Ipv6Addr, packet: Seq<u8>, off: int)
    ensures
        crate::ast::ipv6_is(packet, off, addr) == (addr.bits == field(packet, off, 4)
            * 0x1_0000_0000_0000_0000_0000_0000 + field(packet, off + 4, 4)
            * 0x1_0000_0000_0000_0000 + field(packet, off + 8, 4) * 0x1_0000_0000 + field(
            packet,
            off + 12,
            4,
        )),
{
    law_reads_are_big_endian(packet, off);
    law_reads_are_big_endian(packet, off + 4);
    law_reads_are_big_endian(packet, off + 8);
    law_reads_are_big_endian(packet, off + 12);
    let a = word_at(packet, off);
    let b = word_at(packet, off + 4);
    let c = word_at(packet, off + 8);
    let d = word_at(packet, off + 12);
    lemma_words_of(addr.bits, a, b, c, d);
    if crate::ast::ipv6_is(packet, off, addr) {
        assert(word_at(packet, off + 4 * 0) == addr.word(0));
        assert(word_at(packet, off + 4 * 1) == addr.word(1));
        assert(word_at(packet, off + 4 * 2) == addr.word(2));
        assert(word_at(packet, off + 4 * 3) == addr.word(3));
    } else {
        let i = choose|i: int|
            0 <= i < 4 && word_at(packet, off + 4 * i) != #[trigger] addr.word(i);
        assert(i == 0 || i == 1 || i == 2 || i == 3);
    }
}

/// A port matches where its number stands in the first or in the second two bytes of the transport
/// header of a TCP or UDP packet, as the direction asks, and a packet without ports matches none.
pub proof fn law_ports_by_bytes(port: u16, dir: Direction, packet: Seq<u8>)
    ensures
        holds(Expr::Port { port, dir }, packet) == (ports_at(packet) matches Some(at) && asked(
            dir,
            field(packet, at, 2) == port,
            field(packet, at + 2, 2) == port,
        )),
{
    lemma_ports_at(packet);
}

/// A range of ports matches where the source or the destination port that the direction asks for
/// lies in the range, its ends among it.
pub proof fn law_port_ranges_by_bytes(start: u16, end: u16, dir: Direction, packet: Seq<u8>)
    ensures
        holds(Expr::PortRange { start, end, dir }, packet) == (ports_at(packet) matches Some(at)
            && asked(
            dir,
            start <= field(packet, at, 2) <= end,
            start <= field(packet, at + 2, 2) <= end,
        )),
{
    lemma_ports_at(packet);
}

/// A range holds for a packet just where one of its ports does.
pub proof fn law_range_is_its_ports(
    start: u16,
    end: u16,
    dir: Direction,
    packet: Seq<u8>,
)
    ensures
        holds(Expr::PortRange { start, end, dir }, packet) <==> exists|port: u16|
            start <= port <= end && #[trigger] holds(Expr::Port { port, dir }, packet),
{
    law_port_ranges_by_bytes(start, end, dir, packet);
    assert forall|port: u16| #[trigger] holds(Expr::Port { port, dir }, packet) == (ports_at(
        packet,
    ) matches Some(at) && asked(
        dir,
        field(packet, at, 2) == port,
        field(packet, at + 2, 2) == port,
    )) by {
        law_ports_by_bytes(port, dir, packet);
    }
    if holds(Expr::PortRange { start, end, dir }, packet) {
        let at = ports_at(packet)->0;
        law_reads_are_big_endian(packet, at);
        law_reads_are_big_endian(packet, at + 2);
        let src = half_at(packet, at);
        let dst = half_at(packet, at + 2);
        assert(holds(Expr::Port { port: src, dir }, packet) == asked(
            dir,
            true,
            field(packet, at + 2, 2) == src,
        ));
        assert(holds(Expr::Port { port: dst, dir }, packet) == asked(
            dir,
            field(packet, at, 2) == dst,
            true,
        ));
    }
}

pub proof fn lemma_ports_at(packet: Seq<u8>)
    ensures
        crate::ast::has_ports(packet) == ports_at(packet) is Some,
        ports_at(packet) matches Some(at) ==> {
            &&& crate::ast::src_port(packet) == field(packet, at, 2)
            &&& crate::ast::dst_port(packet) == field(packet, at + 2, 2)
        },
{
    law_reads_are_big_endian(packet, 12);
    law_reads_are_big_endian(packet, 14);
    law_reads_are_big_endian(packet, 20);
    law_reads_are_big_endian(packet, 23);
    let first = byte_at(packet, 14);
    assert(first & 0x0f == first % 16) by (bit_vector);
    if ports_at(packet) is Some {
        let at = ports_at(packet)->0;
        law_reads_are_big_endian(packet, at);
        law_reads_are_big_endian(packet, at + 2);
    }
}

/// A MAC address matches where its six bytes stand: those of the destination at the start of the
/// frame, those of the source behind them.
pub proof fn law_mac_by_bytes(addr: Seq<u8>, dir: Direction, packet: Seq<u8>)
    requires
        addr.len() == 6,
        packet.len() >= 12,
    ensures
        holds(Expr::EtherHost { addr, dir }, packet) == asked(
            dir,
            packet.subrange(6, 12) == addr,
            packet.subrange(0, 6) == addr,
        ),
{
    lemma_mac(addr, packet, 6);
    lemma_mac(addr, packet, 0);
}

proof fn lemma_mac(addr: Seq<u8>, packet: Seq<u8>, off: int)
    requires
        addr.len() == 6,
        0 <= off,
        off + 6 <= packet.len(),
    ensures
        crate::ast::mac_at(packet, off, addr) == (packet.subrange(off, off + 6) == addr),
{
    let found = packet.subrange(off, off + 6);
    assert(forall|i: int| 0 <= i < 6 ==> #[trigger] found[i] == packet[off + i]);
    assert(found[0] == packet[off] && found[1] == packet[off + 1] && found[2] == packet[off + 2]);
    assert(found[3] == packet[off + 3] && found[4] == packet[off + 4] && found[5] == packet[off
        + 5]);
    if crate::ast::mac_at(packet, off, addr) {
        assert(found[0] == addr[0] && found[1] == addr[1] && found[2] == addr[2] && found[3]
            == addr[3]);
        assert(found[4] == addr[4] && found[5] == addr[5]);
        assert(found =~= addr);
    }
}

/// A length is compared with the number of bytes in the packet, of which the machine sees 32 bits.
pub proof fn law_len_by_bytes(len: u32, packet: Seq<u8>)
    requires
        packet.len() <= u64::MAX,
    ensures
        ({
            let n = packet.len() % 0x1_0000_0000;
            &&& holds(Expr::Len { op: RelOp::Eq, len }, packet) == (n == len)
            &&& holds(Expr::Len { op: RelOp::Ne, len }, packet) == (n != len)
            &&& holds(Expr::Len { op: RelOp::Gt, len }, packet) == (n > len)
            &&& holds(Expr::Len { op: RelOp::Ge, len }, packet) == (n >= len)
            &&& holds(Expr::Len { op: RelOp::Lt, len }, packet) == (n < len)
            &&& holds(Expr::Len { op: RelOp::Le, len }, packet) == (n <= len)
        }),
{
    lemma_low_bits(packet.len());
}

pub proof fn lemma_low_bits(n: nat)
    requires
        n <= u64::MAX,
    ensures
        n as u32 == n % 0x1_0000_0000,
{
    let n: u64 = n as u64;
    assert(n as u32 == n % 0x1_0000_0000) by (bit_vector);
}

/// The tree of an expression stands for the expression of the same kind with the same values.
pub proof fn law_tree_keeps_its_values(
    proto: Protocol,
    host: HostAddr,
    port: u16,
    end: u16,
    mac: [u8; 6],
    net: NetAddr,
    op: RelOp,
    len: u32,
    dir: Direction,
    left: FilterAst,
    right: FilterAst,
)
    ensures
        FilterAst::Proto(proto)@ == Expr::Proto(proto),
        (FilterAst::Host { addr: host, dir })@ == (Expr::Host { addr: host, dir }),
        (FilterAst::Port { port, dir })@ == (Expr::Port { port, dir }),
        (FilterAst::PortRange { start: port, end, dir })@ == (Expr::PortRange {
            start: port,
            end,
            dir,
        }),
        (FilterAst::EtherHost { addr: mac, dir })@ == (Expr::EtherHost { addr: mac@, dir }),
        (FilterAst::Net { addr: net, dir })@ == (Expr::Net { addr: net, dir }),
        (FilterAst::Len { op, len })@ == (Expr::Len { op, len }),
        FilterAst::And(Box::new(left), Box::new(right))@ == Expr::And(
            Box::new(left@),
            Box::new(right@),
        ),
        FilterAst::Or(Box::new(left), Box::new(right))@ == Expr::Or(
            Box::new(left@),
            Box::new(right@),
        ),
        FilterAst::Not(Box::new(left))@ == Expr::Not(Box::new(left@)),
{
    reveal_with_fuel(FilterAst::expr, 2);
}

/// In a frame of any length the bytes of a MAC address are compared four and two at a time, and
/// those that do not all lie in the frame are zero.
pub proof fn law_mac_in_short_frames(addr: Seq<u8>, packet: Seq<u8>)
    requires
        addr.len() == 6,
    ensures
        holds(Expr::EtherHost { addr, dir: Direction::Src }, packet) == (field(packet, 6, 4)
            == big_endian(addr.take(4)) && field(packet, 10, 2) == big_endian(addr.skip(4))),
        holds(Expr::EtherHost { addr, dir: Direction::Dst }, packet) == (field(packet, 0, 4)
            == big_endian(addr.take(4)) && field(packet, 4, 2) == big_endian(addr.skip(4))),
{
    law_reads_are_big_endian(packet, 6);
    law_reads_are_big_endian(packet, 10);
    law_reads_are_big_endian(packet, 0);
    law_reads_are_big_endian(packet, 4);
    lemma_four(addr.take(4));
    lemma_two(addr.skip(4));
}

/// Two expressions hold together where both do, either does where one does, and a negation holds
/// where its expression does not.
pub proof fn law_expressions_combine(left: Expr, right: Expr, packet: Seq<u8>)
    ensures
        holds(Expr::And(Box::new(left), Box::new(right)), packet) == (holds(left, packet) && holds(
            right,
            packet,
        )),
        holds(Expr::Or(Box::new(left), Box::new(right)), packet) == (holds(left, packet) || holds(
            right,
            packet,
        )),
        holds(Expr::Not(Box::new(left)), packet) == !holds(left, packet),
{
}

} // verus!
