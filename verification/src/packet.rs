//! Shared packet types, errors and protocol parsing helpers.

use etherparse::{NetSlice, SlicedPacket, TransportSlice};
use vstd::prelude::*;

use crate::addr::{IpAddr, Ipv4Addr, Ipv6Addr};
use crate::ast::{dst_port, has_ports, src_port, transport_off};
use crate::vm::half_at;

verus! {

/// Packet metadata.
#[derive(Debug, Clone, PartialEq, Eq, Structural)]
pub struct PacketMeta {
    /// Capture timestamp seconds.
    pub ts_sec: u64,
    /// Capture timestamp microseconds.
    pub ts_usec: u64,
    /// Interface index.
    pub ifindex: i32,
    /// Captured length (snapped).
    pub cap_len: usize,
    /// Original packet length on wire.
    pub orig_len: usize,
}

impl PacketMeta {
    pub fn new(
        ts_sec: u64,
        ts_usec: u64,
        ifindex: i32,
        cap_len: usize,
        orig_len: usize,
    ) -> (meta: Self)
        ensures
            meta == (PacketMeta { ts_sec, ts_usec, ifindex, cap_len, orig_len }),
    {
        PacketMeta { ts_sec, ts_usec, ifindex, cap_len, orig_len }
    }
}

/// A captured packet.
#[derive(Debug, Clone, PartialEq, Eq)]
pub struct Packet {
    pub meta: PacketMeta,
    pub data: Vec<u8>,
}

impl Packet {
    pub fn new(meta: PacketMeta, data: Vec<u8>) -> (packet: Self)
        ensures
            packet == (Packet { meta, data }),
    {
        Packet { meta, data }
    }
}

/// Shared error type.
#[derive(Debug, Clone, PartialEq, Eq)]
pub enum NetdumpError {
    /// I/O error.
    Io(String),
    /// Filter expression parse error.
    Parse(String),
    /// CBPF virtual machine execution error.
    Vm(String),
    /// Unsupported protocol or format.
    Unsupported(String),
}

impl NetdumpError {
    /// The text of the error, with its kind before it.
    pub open spec fn text(&self) -> Seq<char> {
        match self {
            NetdumpError::Io(s) => "io error: "@ + s@,
            NetdumpError::Parse(s) => "parse error: "@ + s@,
            NetdumpError::Vm(s) => "vm error: "@ + s@,
            NetdumpError::Unsupported(s) => "unsupported: "@ + s@,
        }
    }

    /// The text of the error.
    pub fn message(&self) -> (text: String)
        ensures
            text@ == self.text(),
    {
        let (kind, detail) = match self {
            NetdumpError::Io(s) => ("io error: ", s),
            NetdumpError::Parse(s) => ("parse error: ", s),
            NetdumpError::Vm(s) => ("vm error: ", s),
            NetdumpError::Unsupported(s) => ("unsupported: ", s),
        };
        let mut text: String = kind.to_owned();
        text.append(detail.as_str());
        text
    }
}

// Commonly used EtherType values.
pub const ETHERTYPE_IP: u16 = 0x0800;

pub const ETHERTYPE_ARP: u16 = 0x0806;

pub const ETHERTYPE_RARP: u16 = 0x8035;

pub const ETHERTYPE_IPV6: u16 = 0x86dd;

// IP protocol numbers.
pub const IPPROTO_TCP: u8 = 6;

pub const IPPROTO_UDP: u8 = 17;

pub const IPPROTO_ICMP: u8 = 1;

pub const IPPROTO_ICMPV6: u8 = 58;

/// Parsed packet header fields.
#[derive(Debug, Clone, Copy, PartialEq, Eq, Structural)]
pub struct PacketInfo {
    /// EtherType (Ethernet frame type).
    pub ethertype: Option<u16>,
    /// IP protocol number.
    pub protocol: Option<u8>,
    /// Source IP address.
    pub src_ip: Option<IpAddr>,
    /// Destination IP address.
    pub dst_ip: Option<IpAddr>,
    /// Source port (TCP/UDP only).
    pub src_port: Option<u16>,
    /// Destination port (TCP/UDP only).
    pub dst_port: Option<u16>,
}

/// What the network layer of a packet holds.
#[derive(Debug, Clone, Copy, PartialEq, Eq)]
pub enum NetHeader {
    /// An IPv4 header: its protocol, source and destination.
    Ipv4(u8, [u8; 4], [u8; 4]),
    /// An IPv6 header: its next header, source and destination.
    Ipv6(u8, [u8; 16], [u8; 16]),
    /// Another protocol, or nothing that is known.
    Other,
}

/// The headers of a packet: its network layer, and the source and destination port of its
/// transport layer where that is UDP or TCP.
pub type Headers = (NetHeader, Option<(u16, u16)>);

/// The headers that `etherparse` finds in an Ethernet frame; none where it cannot slice it.
pub uninterp spec fn sliced_headers(packet: Seq<u8>) -> Option<Headers>;

/// Whether a network header that the EtherType of the frame announces is the one that stands
/// behind it.
pub open spec fn header_in_place(packet: Seq<u8>, net: NetHeader) -> bool {
    &&& half_at(packet, 12) == ETHERTYPE_IP ==> {
        &&& packet.len() >= 34
        &&& net matches NetHeader::Ipv4(protocol, src, dst)
        &&& protocol == packet[23]
        &&& src@ == packet.subrange(26, 30)
        &&& dst@ == packet.subrange(30, 34)
    }
    &&& half_at(packet, 12) == ETHERTYPE_IPV6 ==> {
        &&& packet.len() >= 54
        &&& net matches NetHeader::Ipv6(protocol, src, dst)
        &&& protocol == packet[20]
        &&& src@ == packet.subrange(22, 38)
        &&& dst@ == packet.subrange(38, 54)
    }
}

/// Whether the ports of a TCP or UDP packet that stands directly in the frame, with no extension
/// header, are those behind its IP header.
pub open spec fn ports_in_place(packet: Seq<u8>, ports: Option<(u16, u16)>) -> bool {
    ports matches Some((src, dst)) ==> has_ports(packet) ==> {
        &&& transport_off(packet) + 4 <= packet.len()
        &&& src == src_port(packet)
        &&& dst == dst_port(packet)
    }
}

/// `etherparse::SlicedPacket::from_ethernet` cuts a frame into the slices of its headers, of
/// which this hands out the fields of the network layer and the ports. The result is a function
/// of the frame alone. A frame of less than 14 bytes is refused. Where the EtherType in bytes 12
/// and 13 is that of IPv4 or IPv6, a frame that is not refused has the header of that protocol
/// from byte 14 on; where that header names TCP or UDP as what follows it, ports that are handed
/// out are those directly behind it. Nothing is said of which longer frames are refused, of the
/// network layer behind a VLAN tag, of the ports behind an extension header, or of which packets
/// have their ports handed out.
#[verifier::external_body]
fn slice_headers(packet: &[u8]) -> (headers: Option<Headers>)
    ensures
        headers == sliced_headers(packet@),
        packet@.len() < 14 ==> headers is None,
        headers matches Some(headers) ==> header_in_place(packet@, headers.0) && ports_in_place(
            packet@,
            headers.1,
        ),
{
    let sliced = SlicedPacket::from_ethernet(packet).ok()?;
    Some((
        match sliced.net {
            Some(NetSlice::Ipv4(ip)) => NetHeader::Ipv4(ip.header().protocol().0, ip.header().source(), ip.header().destination()),
            Some(NetSlice::Ipv6(ip)) => NetHeader::Ipv6(ip.header().next_header().0, ip.header().source(), ip.header().destination()),
            _ => NetHeader::Other,
        },
        match sliced.transport {
            Some(TransportSlice::Udp(udp)) => Some((udp.source_port(), udp.destination_port())),
            Some(TransportSlice::Tcp(tcp)) => Some((tcp.source_port(), tcp.destination_port())),
            _ => None,
        },
    ))
}

/// The number that four bytes stand for, the first of them the most significant.
pub open spec fn be32(b: Seq<u8>, i: int) -> u32 {
    (b[i] * 0x100_0000 + b[i + 1] * 0x1_0000 + b[i + 2] * 0x100 + b[i + 3]) as u32
}

/// The IPv4 address of four octets.
pub open spec fn ipv4_from_octets(b: Seq<u8>) -> Ipv4Addr {
    Ipv4Addr { bits: be32(b, 0) }
}

/// The IPv6 address of sixteen octets.
pub open spec fn ipv6_from_octets(b: Seq<u8>) -> Ipv6Addr {
    Ipv6Addr {
        bits: (be32(b, 0) * 0x1_0000_0000_0000_0000_0000_0000 + be32(b, 4) * 0x1_0000_0000_0000_0000
            + be32(b, 8) * 0x1_0000_0000 + be32(b, 12)) as u128,
    }
}

fn ipv4_addr(b: &[u8; 4]) -> (addr: Ipv4Addr)
    ensures
        addr == ipv4_from_octets(b@),
{
    Ipv4Addr::new(b[0], b[1], b[2], b[3])
}

fn read_be32(b: &[u8; 16], i: usize) -> (value: u32)
    requires
        i <= 12,
    ensures
        value == be32(b@, i as int),
{
    b[i] as u32 * 0x100_0000 + b[i + 1] as u32 * 0x1_0000 + b[i + 2] as u32 * 0x100 + b[i
        + 3] as u32
}

fn ipv6_addr(b: &[u8; 16]) -> (addr: Ipv6Addr)
    ensures
        addr == ipv6_from_octets(b@),
{
    let high: u64 = read_be32(b, 0) as u64 * 0x1_0000_0000 + read_be32(b, 4) as u64;
    let low: u64 = read_be32(b, 8) as u64 * 0x1_0000_0000 + read_be32(b, 12) as u64;
    Ipv6Addr { bits: high as u128 * 0x1_0000_0000_0000_0000 + low as u128 }
}

/// The fields of a packet that has the given headers. A packet without an IP header has none.
pub open spec fn info_of(packet: Seq<u8>, headers: Option<Headers>) -> Option<PacketInfo> {
    match headers {
        None => None,
        Some((net, ports)) => {
            let ethertype = Some(half_at(packet, 12));
            let src_port = match ports {
                Some((src, _)) => Some(src),
                None => None,
            };
            let dst_port = match ports {
                Some((_, dst)) => Some(dst),
                None => None,
            };
            match net {
                NetHeader::Ipv4(protocol, src, dst) => Some(
                    PacketInfo {
                        ethertype,
                        protocol: Some(protocol),
                        src_ip: Some(IpAddr::V4(ipv4_from_octets(src@))),
                        dst_ip: Some(IpAddr::V4(ipv4_from_octets(dst@))),
                        src_port,
                        dst_port,
                    },
                ),
                NetHeader::Ipv6(protocol, src, dst) => Some(
                    PacketInfo {
                        ethertype,
                        protocol: Some(protocol),
                        src_ip: Some(IpAddr::V6(ipv6_from_octets(src@))),
                        dst_ip: Some(IpAddr::V6(ipv6_from_octets(dst@))),
                        src_port,
                        dst_port,
                    },
                ),
                NetHeader::Other => None,
            }
        },
    }
}

/// Extract key header fields from a packet with the given headers.
pub fn packet_info(packet: &[u8], headers: Option<Headers>) -> (info: Option<PacketInfo>)
    requires
        headers is Some ==> packet@.len() >= 14,
    ensures
        info == info_of(packet@, headers),
{
    let (net, ports) = match headers {
        Some(headers) => headers,
        None => return None,
    };
    let ethertype: u16 = packet[12] as u16 * 0x100 + packet[13] as u16;
    let mut info: PacketInfo = PacketInfo::default();
    info.ethertype = Some(ethertype);
    match net {
        NetHeader::Ipv4(protocol, src, dst) => {
            info.protocol = Some(protocol);
            info.src_ip = Some(IpAddr::V4(ipv4_addr(&src)));
            info.dst_ip = Some(IpAddr::V4(ipv4_addr(&dst)));
        },
        NetHeader::Ipv6(protocol, src, dst) => {
            info.protocol = Some(protocol);
            info.src_ip = Some(IpAddr::V6(ipv6_addr(&src)));
            info.dst_ip = Some(IpAddr::V6(ipv6_addr(&dst)));
        },
        NetHeader::Other => return None,
    }
    if let Some((src_port, dst_port)) = ports {
        info.src_port = Some(src_port);
        info.dst_port = Some(dst_port);
    }
    Some(info)
}

impl Default for PacketInfo {
    fn default() -> (info: Self)
        ensures
            info == (PacketInfo {
                ethertype: None,
                protocol: None,
                src_ip: None,
                dst_ip: None,
                src_port: None,
                dst_port: None,
            }),
    {
        PacketInfo {
            ethertype: None,
            protocol: None,
            src_ip: None,
            dst_ip: None,
            src_port: None,
            dst_port: None,
        }
    }
}

/// Whether the fields of an IP packet that stands directly in the frame are those at their places.
pub open spec fn info_in_place(packet: Seq<u8>, info: PacketInfo) -> bool {
    &&& packet.len() >= 14
    &&& info.ethertype == Some(half_at(packet, 12))
    &&& half_at(packet, 12) == ETHERTYPE_IP ==> {
        &&& packet.len() >= 34
        &&& info.protocol == Some(packet[23])
        &&& info.src_ip == Some(IpAddr::V4(ipv4_from_octets(packet.subrange(26, 30))))
        &&& info.dst_ip == Some(IpAddr::V4(ipv4_from_octets(packet.subrange(30, 34))))
    }
    &&& half_at(packet, 12) == ETHERTYPE_IPV6 ==> {
        &&& packet.len() >= 54
        &&& info.protocol == Some(packet[20])
        &&& info.src_ip == Some(IpAddr::V6(ipv6_from_octets(packet.subrange(22, 38))))
        &&& info.dst_ip == Some(IpAddr::V6(ipv6_from_octets(packet.subrange(38, 54))))
    }
    &&& info.src_port is Some == info.dst_port is Some
    &&& info.src_port is Some && has_ports(packet) ==> {
        &&& info.src_port == Some(src_port(packet))
        &&& info.dst_port == Some(dst_port(packet))
    }
}

/// Parse raw packet data, extracting key header fields.
pub fn parse_packet(packet: &[u8]) -> (info: Option<PacketInfo>)
    ensures
        info == info_of(packet@, sliced_headers(packet@)),
        packet@.len() < 14 ==> info is None,
        info matches Some(info) ==> info_in_place(packet@, info),
{
    let headers: Option<Headers> = slice_headers(packet);
    packet_info(packet, headers)
}

} // verus!
