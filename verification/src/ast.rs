//! Filter expressions and what they mean for a packet.

use vstd::prelude::*;

use crate::addr::{IpAddr, Ipv4Addr, Ipv6Addr};
use crate::packet::{
    ETHERTYPE_ARP, ETHERTYPE_IP, ETHERTYPE_IPV6, ETHERTYPE_RARP, IPPROTO_ICMP, IPPROTO_ICMPV6,
    IPPROTO_TCP, IPPROTO_UDP,
};
use crate::vm::{byte_at, half_at, word_at};

verus! {

/// Network protocol identifiers.
#[derive(Debug, Clone, Copy, PartialEq, Eq, Structural)]
pub enum Protocol {
    Ip,
    Ip6,
    Tcp,
    Udp,
    Icmp,
    Icmp6,
    Arp,
    Rarp,
}

/// Relational operators for comparison expressions.
#[derive(Debug, Clone, Copy, PartialEq, Eq, Structural)]
pub enum RelOp {
    Eq,
    Ne,
    Gt,
    Ge,
    Lt,
    Le,
}

/// Packet direction qualifier.
#[derive(Debug, Clone, Copy, PartialEq, Eq, Structural, Default)]
pub enum Direction {
    /// Any direction (default).
    #[default]
    Any,
    /// Source.
    Src,
    /// Destination.
    Dst,
}

/// Host address, supports IPv4 and IPv6.
#[derive(Debug, Clone, Copy, PartialEq, Eq, Structural)]
pub enum HostAddr {
    V4(Ipv4Addr),
    V6(Ipv6Addr),
}

impl vstd::std_specs::convert::FromSpecImpl<IpAddr> for HostAddr {
    open spec fn obeys_from_spec() -> bool {
        true
    }

    open spec fn from_spec(addr: IpAddr) -> HostAddr {
        match addr {
            IpAddr::V4(a) => HostAddr::V4(a),
            IpAddr::V6(a) => HostAddr::V6(a),
        }
    }
}

impl From<IpAddr> for HostAddr {
    fn from(addr: IpAddr) -> (host: Self) {
        match addr {
            IpAddr::V4(a) => HostAddr::V4(a),
            IpAddr::V6(a) => HostAddr::V6(a),
        }
    }
}

/// Network address with subnet mask, supports IPv4 and IPv6.
#[derive(Debug, Clone, Copy, PartialEq, Eq, Structural)]
#[allow(inconsistent_fields)]
pub enum NetAddr {
    V4 { addr: Ipv4Addr, mask: Ipv4Addr },
    V6 { addr: Ipv6Addr, mask: Ipv6Addr },
}

/// Filter expression AST.
#[derive(Debug, PartialEq, Eq)]
#[allow(inconsistent_fields)]
pub enum FilterAst {
    /// Protocol match, e.g. tcp, udp, ip6.
    Proto(Protocol),
    /// Host address match.
    Host { addr: HostAddr, dir: Direction },
    /// Port match.
    Port { port: u16, dir: Direction },
    /// Port range match.
    PortRange { start: u16, end: u16, dir: Direction },
    /// Ethernet MAC address match.
    EtherHost { addr: [u8; 6], dir: Direction },
    /// IPv4/IPv6 network match.
    Net { addr: NetAddr, dir: Direction },
    /// Packet length comparison.
    Len { op: RelOp, len: u32 },
    /// Logical AND.
    And(Box<FilterAst>, Box<FilterAst>),
    /// Logical OR.
    Or(Box<FilterAst>, Box<FilterAst>),
    /// Logical NOT.
    Not(Box<FilterAst>),
}

/// Parse error.
#[derive(Debug, Clone, PartialEq, Eq)]
pub struct ParseError(pub String);

impl ParseError {
    /// The text of the error.
    pub fn message(&self) -> (text: String)
        ensures
            text@ == self.0@,
    {
        self.0.clone()
    }
}

/// A filter expression as a mathematical value.
#[allow(inconsistent_fields)]
pub enum Expr {
    Proto(Protocol),
    Host { addr: HostAddr, dir: Direction },
    Port { port: u16, dir: Direction },
    PortRange { start: u16, end: u16, dir: Direction },
    EtherHost { addr: Seq<u8>, dir: Direction },
    Net { addr: NetAddr, dir: Direction },
    Len { op: RelOp, len: u32 },
    And(Box<Expr>, Box<Expr>),
    Or(Box<Expr>, Box<Expr>),
    Not(Box<Expr>),
}

impl FilterAst {
    /// The expression that the tree stands for.
    pub open spec fn expr(&self) -> Expr
        decreases self,
    {
        match *self {
            FilterAst::Proto(proto) => Expr::Proto(proto),
            FilterAst::Host { addr, dir } => Expr::Host { addr, dir },
            FilterAst::Port { port, dir } => Expr::Port { port, dir },
            FilterAst::PortRange { start, end, dir } => Expr::PortRange { start, end, dir },
            FilterAst::EtherHost { addr, dir } => Expr::EtherHost { addr: addr@, dir },
            FilterAst::Net { addr, dir } => Expr::Net { addr, dir },
            FilterAst::Len { op, len } => Expr::Len { op, len },
            FilterAst::And(left, right) => Expr::And(
                Box::new(left.expr()),
                Box::new(right.expr()),
            ),
            FilterAst::Or(left, right) => Expr::Or(Box::new(left.expr()), Box::new(right.expr())),
            FilterAst::Not(inner) => Expr::Not(Box::new(inner.expr())),
        }
    }
}

impl Clone for FilterAst {
    fn clone(&self) -> (copy: Self)
        ensures
            copy@ == self@,
        decreases self,
    {
        match self {
            FilterAst::Proto(proto) => FilterAst::Proto(*proto),
            FilterAst::Host { addr, dir } => FilterAst::Host { addr: *addr, dir: *dir },
            FilterAst::Port { port, dir } => FilterAst::Port { port: *port, dir: *dir },
            FilterAst::PortRange { start, end, dir } => FilterAst::PortRange {
                start: *start,
                end: *end,
                dir: *dir,
            },
            FilterAst::EtherHost { addr, dir } => FilterAst::EtherHost { addr: *addr, dir: *dir },
            FilterAst::Net { addr, dir } => FilterAst::Net { addr: *addr, dir: *dir },
            FilterAst::Len { op, len } => FilterAst::Len { op: *op, len: *len },
            FilterAst::And(left, right) => FilterAst::And(
                Box::new((**left).clone()),
                Box::new((**right).clone()),
            ),
            FilterAst::Or(left, right) => FilterAst::Or(
                Box::new((**left).clone()),
                Box::new((**right).clone()),
            ),
            FilterAst::Not(inner) => FilterAst::Not(Box::new((**inner).clone())),
        }
    }
}

impl View for FilterAst {
    type V = Expr;

    open spec fn view(&self) -> Expr {
        self.expr()
    }
}

/// Whether the frame holds an IPv4 packet.
pub open spec fn is_ipv4(packet: Seq<u8>) -> bool {
    half_at(packet, 12) == ETHERTYPE_IP
}

/// Whether the frame holds an IPv6 packet.
pub open spec fn is_ipv6(packet: Seq<u8>) -> bool {
    half_at(packet, 12) == ETHERTYPE_IPV6
}

/// Whether the frame holds an IP packet of the given transport protocol.
pub open spec fn carries(packet: Seq<u8>, number: u8) -> bool {
    ||| is_ipv4(packet) && byte_at(packet, 23) == number
    ||| is_ipv6(packet) && byte_at(packet, 20) == number
}

pub open spec fn matches_proto(proto: Protocol, packet: Seq<u8>) -> bool {
    match proto {
        Protocol::Ip => is_ipv4(packet),
        Protocol::Ip6 => is_ipv6(packet),
        Protocol::Arp => half_at(packet, 12) == ETHERTYPE_ARP,
        Protocol::Rarp => half_at(packet, 12) == ETHERTYPE_RARP,
        Protocol::Tcp => carries(packet, IPPROTO_TCP),
        Protocol::Udp => carries(packet, IPPROTO_UDP),
        Protocol::Icmp => is_ipv4(packet) && byte_at(packet, 23) == IPPROTO_ICMP,
        Protocol::Icmp6 => is_ipv6(packet) && byte_at(packet, 20) == IPPROTO_ICMPV6,
    }
}

/// Combines what holds of the source and of the destination as the direction asks.
pub open spec fn toward(dir: Direction, src: bool, dst: bool) -> bool {
    match dir {
        Direction::Any => src || dst,
        Direction::Src => src,
        Direction::Dst => dst,
    }
}

/// Whether the 16 bytes at `off`, masked with `mask`, are `addr` as it was given.
pub open spec fn ipv6_at(packet: Seq<u8>, off: int, addr: Ipv6Addr, mask: Ipv6Addr) -> bool {
    forall|i: int|
        0 <= i < 4 ==> (word_at(packet, off + 4 * i) & mask.word(i)) == #[trigger] addr.word(i)
}

/// Whether the 16 bytes at `off` are `addr`.
pub open spec fn ipv6_is(packet: Seq<u8>, off: int, addr: Ipv6Addr) -> bool {
    forall|i: int| 0 <= i < 4 ==> word_at(packet, off + 4 * i) == #[trigger] addr.word(i)
}

pub open spec fn matches_host(addr: HostAddr, dir: Direction, packet: Seq<u8>) -> bool {
    match addr {
        HostAddr::V4(a) => is_ipv4(packet) && toward(
            dir,
            word_at(packet, 26) == a.bits,
            word_at(packet, 30) == a.bits,
        ),
        HostAddr::V6(a) => is_ipv6(packet) && toward(
            dir,
            ipv6_is(packet, 22, a),
            ipv6_is(packet, 38, a),
        ),
    }
}

/// Whether the address at `off` lies in the IPv4 network.
pub open spec fn ipv4_net_at(packet: Seq<u8>, off: int, addr: Ipv4Addr, mask: Ipv4Addr) -> bool {
    (word_at(packet, off) & mask.bits) == (addr.bits & mask.bits)
}

/// An IPv6 network matches where the masked address of the packet is the network address as it
/// was given.
pub open spec fn matches_net(addr: NetAddr, dir: Direction, packet: Seq<u8>) -> bool {
    match addr {
        NetAddr::V4 { addr, mask } => is_ipv4(packet) && toward(
            dir,
            ipv4_net_at(packet, 26, addr, mask),
            ipv4_net_at(packet, 30, addr, mask),
        ),
        NetAddr::V6 { addr, mask } => is_ipv6(packet) && toward(
            dir,
            ipv6_at(packet, 22, addr, mask),
            ipv6_at(packet, 38, addr, mask),
        ),
    }
}

/// The length of the IPv4 header in bytes.
pub open spec fn ipv4_header_len(packet: Seq<u8>) -> int {
    4 * (byte_at(packet, 14) & 0x0f)
}

/// Where the transport header starts: behind the IPv4 header, or behind the fixed IPv6 header.
pub open spec fn transport_off(packet: Seq<u8>) -> int {
    if is_ipv4(packet) {
        14 + ipv4_header_len(packet)
    } else {
        54
    }
}

/// The source port of a TCP or UDP packet.
pub open spec fn src_port(packet: Seq<u8>) -> u16 {
    half_at(packet, transport_off(packet))
}

/// The destination port of a TCP or UDP packet.
pub open spec fn dst_port(packet: Seq<u8>) -> u16 {
    half_at(packet, transport_off(packet) + 2)
}

/// Whether the packet has ports.
pub open spec fn has_ports(packet: Seq<u8>) -> bool {
    carries(packet, IPPROTO_TCP) || carries(packet, IPPROTO_UDP)
}

pub open spec fn matches_port(port: u16, dir: Direction, packet: Seq<u8>) -> bool {
    has_ports(packet) && toward(dir, src_port(packet) == port, dst_port(packet) == port)
}

/// Whether the ports that the direction asks for lie in the range; without a direction, either
/// port will do.
pub open spec fn ports_in_range(src: int, dst: int, start: int, end: int, dir: Direction) -> bool {
    toward(dir, start <= src <= end, start <= dst <= end)
}

pub open spec fn matches_port_range(start: u16, end: u16, dir: Direction, packet: Seq<u8>) -> bool {
    has_ports(packet) && ports_in_range(
        src_port(packet) as int,
        dst_port(packet) as int,
        start as int,
        end as int,
        dir,
    )
}

/// The first four bytes of a MAC address as a number.
pub open spec fn mac_high(addr: Seq<u8>) -> u32 {
    (addr[0] * 0x100_0000 + addr[1] * 0x1_0000 + addr[2] * 0x100 + addr[3]) as u32
}

/// The last two bytes of a MAC address as a number.
pub open spec fn mac_low(addr: Seq<u8>) -> u16 {
    (addr[4] * 0x100 + addr[5]) as u16
}

/// Whether the six bytes at `off` are the MAC address.
pub open spec fn mac_at(packet: Seq<u8>, off: int, addr: Seq<u8>) -> bool {
    word_at(packet, off) == mac_high(addr) && half_at(packet, off + 4) == mac_low(addr)
}

pub open spec fn matches_ether_host(addr: Seq<u8>, dir: Direction, packet: Seq<u8>) -> bool {
    toward(dir, mac_at(packet, 6, addr), mac_at(packet, 0, addr))
}

pub open spec fn relation(op: RelOp, left: int, right: int) -> bool {
    match op {
        RelOp::Eq => left == right,
        RelOp::Ne => left != right,
        RelOp::Gt => left > right,
        RelOp::Ge => left >= right,
        RelOp::Lt => left < right,
        RelOp::Le => left <= right,
    }
}

/// The length of a packet in the 32 bits of a machine register.
pub open spec fn packet_len(packet: Seq<u8>) -> u32 {
    packet.len() as u32
}

/// Whether the packet, an Ethernet frame, matches the expression. Fields beyond the end of the
/// packet read as zero.
pub open spec fn holds(expr: Expr, packet: Seq<u8>) -> bool
    decreases expr,
{
    match expr {
        Expr::Proto(proto) => matches_proto(proto, packet),
        Expr::Host { addr, dir } => matches_host(addr, dir, packet),
        Expr::Port { port, dir } => matches_port(port, dir, packet),
        Expr::PortRange { start, end, dir } => matches_port_range(start, end, dir, packet),
        Expr::EtherHost { addr, dir } => matches_ether_host(addr, dir, packet),
        Expr::Net { addr, dir } => matches_net(addr, dir, packet),
        Expr::Len { op, len } => relation(op, packet_len(packet) as int, len as int),
        Expr::And(left, right) => holds(*left, packet) && holds(*right, packet),
        Expr::Or(left, right) => holds(*left, packet) || holds(*right, packet),
        Expr::Not(inner) => !holds(*inner, packet),
    }
}

} // verus!
