//! Parsed headers and filters see the same packet.

use vstd::prelude::*;

use crate::addr::{IpAddr, Ipv6Addr};
use crate::ast::{
    carries, has_ports, holds, ipv6_is, is_ipv4, is_ipv6, Direction, Expr, HostAddr, Protocol,
};
use crate::packet::{
    be32, info_in_place, ipv6_from_octets, PacketInfo, IPPROTO_TCP, IPPROTO_UDP,
};
use crate::vm::word_at;

verus! {

/// The address of a host as a filter takes it.
pub open spec fn host_addr(ip: IpAddr) -> HostAddr {
    match ip {
        IpAddr::V4(addr) => HostAddr::V4(addr),
        IpAddr::V6(addr) => HostAddr::V6(addr),
    }
}

/// An IP packet that was parsed matches the filters for its own source and destination.
pub proof fn law_parsed_addresses_match(packet: Seq<u8>, info: PacketInfo)
    requires
        info_in_place(packet, info),
        is_ipv4(packet) || is_ipv6(packet),
    ensures
        info.src_ip matches Some(src) && holds(
            Expr::Host { addr: host_addr(src), dir: Direction::Src },
            packet,
        ),
        info.dst_ip matches Some(dst) && holds(
            Expr::Host { addr: host_addr(dst), dir: Direction::Dst },
            packet,
        ),
{
    if is_ipv4(packet) {
        let src = packet.subrange(26, 30);
        let dst = packet.subrange(30, 34);
        assert(be32(src, 0) == word_at(packet, 26));
        assert(be32(dst, 0) == word_at(packet, 30));
    } else {
        lemma_ipv6_octets(packet, 22);
        lemma_ipv6_octets(packet, 38);
    }
}

/// Filters for other sources and destinations do not match a parsed IP packet.
pub proof fn law_only_parsed_addresses_match(packet: Seq<u8>, info: PacketInfo, other: HostAddr)
    requires
        info_in_place(packet, info),
        is_ipv4(packet) || is_ipv6(packet),
    ensures
        holds(Expr::Host { addr: other, dir: Direction::Src }, packet) ==> {
            info.src_ip matches Some(src) && host_addr(src) == other
        },
        holds(Expr::Host { addr: other, dir: Direction::Dst }, packet) ==> {
            info.dst_ip matches Some(dst) && host_addr(dst) == other
        },
{
    if is_ipv4(packet) {
        let src = packet.subrange(26, 30);
        let dst = packet.subrange(30, 34);
        assert(be32(src, 0) == word_at(packet, 26));
        assert(be32(dst, 0) == word_at(packet, 30));
    } else {
        lemma_ipv6_octets(packet, 22);
        lemma_ipv6_octets(packet, 38);
        let src = ipv6_from_octets(packet.subrange(22, 38));
        let dst = ipv6_from_octets(packet.subrange(38, 54));
        if let HostAddr::V6(found) = other {
            if ipv6_is(packet, 22, found) {
                lemma_ipv6_words(src, found, packet, 22);
            }
            if ipv6_is(packet, 38, found) {
                lemma_ipv6_words(dst, found, packet, 38);
            }
        }
    }
}

/// A filter for a transport protocol matches a parsed IP packet of that protocol number alone.
pub proof fn law_parsed_protocol_matches(packet: Seq<u8>, info: PacketInfo)
    requires
        info_in_place(packet, info),
        is_ipv4(packet) || is_ipv6(packet),
    ensures
        holds(Expr::Proto(Protocol::Tcp), packet) == (info.protocol == Some(IPPROTO_TCP)),
        holds(Expr::Proto(Protocol::Udp), packet) == (info.protocol == Some(IPPROTO_UDP)),
{
    assert(carries(packet, IPPROTO_TCP) == (info.protocol == Some(IPPROTO_TCP)));
}

/// A TCP or UDP packet whose ports were parsed matches the filters for these ports, and no filters
/// for others.
pub proof fn law_parsed_ports_match(packet: Seq<u8>, info: PacketInfo, port: u16)
    requires
        info_in_place(packet, info),
        info.src_port is Some,
        info.protocol == Some(IPPROTO_TCP) || info.protocol == Some(IPPROTO_UDP),
        is_ipv4(packet) || is_ipv6(packet),
    ensures
        holds(Expr::Port { port, dir: Direction::Src }, packet) == (info.src_port == Some(port)),
        holds(Expr::Port { port, dir: Direction::Dst }, packet) == (info.dst_port == Some(port)),
        holds(Expr::Port { port, dir: Direction::Any }, packet) == (info.src_port == Some(port)
            || info.dst_port == Some(port)),
{
    assert(has_ports(packet));
}

/// The address of sixteen bytes of a packet is the one that stands there.
proof fn lemma_ipv6_octets(packet: Seq<u8>, off: int)
    requires
        0 <= off,
        off + 16 <= packet.len(),
    ensures
        ipv6_is(packet, off, ipv6_from_octets(packet.subrange(off, off + 16))),
{
    let b = packet.subrange(off, off + 16);
    let addr = ipv6_from_octets(b);
    assert(be32(b, 0) == word_at(packet, off));
    assert(be32(b, 4) == word_at(packet, off + 4));
    assert(be32(b, 8) == word_at(packet, off + 8));
    assert(be32(b, 12) == word_at(packet, off + 12));
    lemma_words(be32(b, 0), be32(b, 4), be32(b, 8), be32(b, 12));
    assert forall|i: int| 0 <= i < 4 implies word_at(packet, off + 4 * i) == #[trigger] addr.word(
        i,
    ) by {
        if i == 0 {
        } else if i == 1 {
        } else if i == 2 {
        } else {
        }
    }
}

proof fn lemma_words(a: u32, b: u32, c: u32, d: u32)
    ensures
        ({
            let bits = (a * 0x1_0000_0000_0000_0000_0000_0000 + b * 0x1_0000_0000_0000_0000 + c
                * 0x1_0000_0000 + d) as u128;
            let addr = Ipv6Addr { bits };
            &&& addr.word(0) == a
            &&& addr.word(1) == b
            &&& addr.word(2) == c
            &&& addr.word(3) == d
        }),
{
    let low = c * 0x1_0000_0000 + d;
    let high = a * 0x1_0000_0000 + b;
    let all = high * 0x1_0000_0000_0000_0000 + low;
    let bits = all as u128;
    assert(0 <= low < 0x1_0000_0000_0000_0000);
    assert(0 <= high < 0x1_0000_0000_0000_0000);
    assert(all / 0x1_0000_0000_0000_0000 == high);
    assert(high % 0x1_0000_0000 == b && high / 0x1_0000_0000 == a);
    let upper = high * 0x1_0000_0000 + c;
    assert(all == upper * 0x1_0000_0000 + d);
    assert(all / 0x1_0000_0000 == upper && all % 0x1_0000_0000 == d);
    assert(upper % 0x1_0000_0000 == c);
    let rest = b * 0x1_0000_0000_0000_0000 + low;
    assert(0 <= rest < 0x1_0000_0000_0000_0000_0000_0000);
    assert(all == a * 0x1_0000_0000_0000_0000_0000_0000 + rest);
    assert(all / 0x1_0000_0000_0000_0000_0000_0000 == a);
}

/// The number of an address is made up of its words.
proof fn lemma_rebuilt(addr: Ipv6Addr)
    ensures
        addr.bits == addr.word(0) * 0x1_0000_0000_0000_0000_0000_0000 + addr.word(1)
            * 0x1_0000_0000_0000_0000 + addr.word(2) * 0x1_0000_0000 + addr.word(3),
{
    let bits = addr.bits as int;
    let q1 = bits / 0x1_0000_0000;
    let q2 = bits / 0x1_0000_0000_0000_0000;
    let q3 = bits / 0x1_0000_0000_0000_0000_0000_0000;
    assert(q2 == q1 / 0x1_0000_0000);
    assert(q3 == q2 / 0x1_0000_0000);
    assert(bits == q1 * 0x1_0000_0000 + bits % 0x1_0000_0000);
    assert(q1 == q2 * 0x1_0000_0000 + q1 % 0x1_0000_0000);
    assert(q2 == q3 * 0x1_0000_0000 + q2 % 0x1_0000_0000);
}

/// Two addresses that stand at the same place are the same.
proof fn lemma_ipv6_words(one: Ipv6Addr, two: Ipv6Addr, packet: Seq<u8>, off: int)
    requires
        ipv6_is(packet, off, one),
        ipv6_is(packet, off, two),
    ensures
        one == two,
{
    lemma_rebuilt(one);
    lemma_rebuilt(two);
    assert forall|i: int| 0 <= i < 4 implies #[trigger] one.word(i) == two.word(i) by {
        assert(word_at(packet, off + 4 * i) == one.word(i));
        assert(word_at(packet, off + 4 * i) == two.word(i));
    }
    assert(one.word(0) == two.word(0));
    assert(one.word(1) == two.word(1));
    assert(one.word(2) == two.word(2));
    assert(one.word(3) == two.word(3));
}

} // verus!
