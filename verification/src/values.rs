//! Numbers and addresses in filter expressions.

use vstd::prelude::*;
use vstd::slice::slice_subrange;

use crate::addr::{Ipv4Addr, Ipv6Addr};
use crate::addr_text::{ipv4_of, ipv6_of, parse_ipv4, parse_ipv6};
use crate::ast::{HostAddr, NetAddr, ParseError, RelOp};
use crate::text::{
    all_digits, decimal_value, hex_digit_value, hex_value_of, is_hex_digit, parse_decimal,
    push_chars, split, split_ranges,
};

verus! {

/// An error with a fixed text.
pub fn error(text: &str) -> (error: ParseError)
    ensures
        error.0@ == text@,
{
    ParseError(text.to_owned())
}

/// An error that quotes its cause.
fn error_with(text: &str, cause: &str) -> (error: ParseError)
    ensures
        error.0@ == text@ + cause@,
{
    let mut message: String = text.to_owned();
    message.append(cause);
    ParseError(message)
}

/// The number of a row of digits, if it is at most `max`; the error starts with `what`.
pub open spec fn number_of(text: Seq<char>, max: nat, what: Seq<char>) -> Result<nat, Seq<char>> {
    if decimal_value(text) <= max {
        Ok(decimal_value(text))
    } else {
        Err(what + "number too large to fit in target type"@)
    }
}

/// Read a number that is at most `max`.
pub fn parse_number(text: &[char], max: u32, what: &str) -> (number: Result<u32, ParseError>)
    requires
        all_digits(text@),
    ensures
        match (number, number_of(text@, max as nat, what@)) {
            (Ok(found), Ok(number)) => found == number && found <= max,
            (Err(found), Err(message)) => found.0@ == message,
            _ => false,
        },
{
    match parse_decimal(text, max) {
        Some(value) => Ok(value),
        None => Err(error_with(what, "number too large to fit in target type")),
    }
}

/// The address of a host.
pub open spec fn host_of(text: Seq<char>) -> Result<HostAddr, Seq<char>> {
    match (ipv4_of(text), ipv6_of(text)) {
        (Some(addr), _) => Ok(HostAddr::V4(addr)),
        (None, Some(addr)) => Ok(HostAddr::V6(addr)),
        (None, None) => Err("invalid IP address: "@ + text),
    }
}

/// Read the address of a host, IPv4 or IPv6.
pub fn parse_host_addr(text: &[char]) -> (host: Result<HostAddr, ParseError>)
    ensures
        match (host, host_of(text@)) {
            (Ok(found), Ok(host)) => found == host,
            (Err(found), Err(message)) => found.0@ == message,
            _ => false,
        },
{
    if let Some(addr) = parse_ipv4(text) {
        return Ok(HostAddr::V4(addr));
    }
    if let Some(addr) = parse_ipv6(text) {
        return Ok(HostAddr::V6(addr));
    }
    let mut message: String = "invalid IP address: ".to_owned();
    push_chars(&mut message, text);
    Err(ParseError(message))
}

/// A network mask.
#[derive(Debug, Clone, Copy, PartialEq, Eq, Structural)]
pub enum NetMask {
    Prefix(u8),
    V4(Ipv4Addr),
    V6(Ipv6Addr),
}

/// The mask of a network that is given without one: that of the address class.
pub open spec fn default_mask(host: HostAddr) -> NetMask {
    match host {
        HostAddr::V4(addr) => {
            let first = addr.octet(0);
            if first < 128 {
                NetMask::Prefix(8)
            } else if first < 192 {
                NetMask::Prefix(16)
            } else if first < 224 {
                NetMask::Prefix(24)
            } else {
                NetMask::Prefix(32)
            }
        },
        HostAddr::V6(_) => NetMask::Prefix(128),
    }
}

/// The mask of a network that is given without one.
pub fn default_netmask(host: &HostAddr) -> (mask: NetMask)
    ensures
        mask == default_mask(*host),
{
    match host {
        HostAddr::V4(addr) => {
            let octets: [u8; 4] = addr.octets();
            assert(octets@[0] == addr.octet(0));
            let first: u8 = octets[0];
            // Classful address inference, consistent with tcpdump behavior.
            if first < 128 {
                NetMask::Prefix(8)  // Class A
            } else if first < 192 {
                NetMask::Prefix(16)  // Class B
            } else if first < 224 {
                NetMask::Prefix(24)  // Class C
            } else {
                NetMask::Prefix(32)
            }
        },
        HostAddr::V6(_) => NetMask::Prefix(128),
    }
}

/// The mask that an address behind the word `mask` gives.
pub open spec fn address_mask(text: Seq<char>, host: HostAddr) -> Result<NetMask, Seq<char>> {
    match host {
        HostAddr::V4(_) => match ipv4_of(text) {
            Some(mask) => Ok(NetMask::V4(mask)),
            None => Err("invalid IPv4 mask: invalid IPv4 address syntax"@),
        },
        HostAddr::V6(_) => match ipv6_of(text) {
            Some(mask) => Ok(NetMask::V6(mask)),
            None => Err("invalid IPv6 mask: invalid IPv6 address syntax"@),
        },
    }
}

/// Read a mask that is written as an address.
pub fn parse_address_mask(text: &[char], host: &HostAddr) -> (mask: Result<NetMask, ParseError>)
    ensures
        match (mask, address_mask(text@, *host)) {
            (Ok(found), Ok(mask)) => found == mask,
            (Err(found), Err(message)) => found.0@ == message,
            _ => false,
        },
{
    match host {
        HostAddr::V4(_) => match parse_ipv4(text) {
            Some(mask) => Ok(NetMask::V4(mask)),
            None => Err(error("invalid IPv4 mask: invalid IPv4 address syntax")),
        },
        HostAddr::V6(_) => match parse_ipv6(text) {
            Some(mask) => Ok(NetMask::V6(mask)),
            None => Err(error("invalid IPv6 mask: invalid IPv6 address syntax")),
        },
    }
}

/// The mask that a prefix length gives.
pub open spec fn prefix_mask(text: Seq<char>, host: HostAddr) -> Result<NetMask, Seq<char>> {
    match number_of(text, 255, "invalid prefix length: "@) {
        Err(message) => Err(message),
        Ok(prefix) => match host {
            HostAddr::V4(_) if prefix > 32 => Err("IPv4 prefix length must be <= 32"@),
            HostAddr::V6(_) if prefix > 128 => Err("IPv6 prefix length must be <= 128"@),
            _ => Ok(NetMask::Prefix(prefix as u8)),
        },
    }
}

/// Read a mask that is written as a prefix length.
pub fn parse_prefix_mask(text: &[char], host: &HostAddr) -> (mask: Result<NetMask, ParseError>)
    requires
        all_digits(text@),
    ensures
        match (mask, prefix_mask(text@, *host)) {
            (Ok(found), Ok(mask)) => found == mask,
            (Err(found), Err(message)) => found.0@ == message,
            _ => false,
        },
{
    match parse_number(text, 255, "invalid prefix length: ") {
        Err(e) => Err(e),
        Ok(prefix) => match host {
            HostAddr::V4(_) => {
                if prefix > 32 {
                    Err(error("IPv4 prefix length must be <= 32"))
                } else {
                    Ok(NetMask::Prefix(prefix as u8))
                }
            },
            HostAddr::V6(_) => {
                if prefix > 128 {
                    Err(error("IPv6 prefix length must be <= 128"))
                } else {
                    Ok(NetMask::Prefix(prefix as u8))
                }
            },
        },
    }
}

/// The IPv4 mask with the given number of leading ones.
pub open spec fn leading_ones4(prefix: u8) -> u32 {
    if prefix == 0 {
        0
    } else {
        u32::MAX << ((32 - prefix) as u32)
    }
}

/// The IPv6 mask with the given number of leading ones.
pub open spec fn leading_ones6(prefix: u8) -> u128 {
    if prefix == 0 {
        0
    } else {
        u128::MAX << ((128 - prefix) as u32)
    }
}

/// The network of an address and a mask.
pub open spec fn net_of(host: HostAddr, mask: NetMask) -> Result<NetAddr, Seq<char>> {
    match (host, mask) {
        (HostAddr::V4(addr), NetMask::Prefix(p)) => Ok(
            NetAddr::V4 { addr, mask: Ipv4Addr { bits: leading_ones4(p) } },
        ),
        (HostAddr::V4(addr), NetMask::V4(mask)) => Ok(NetAddr::V4 { addr, mask }),
        (HostAddr::V6(addr), NetMask::Prefix(p)) => Ok(
            NetAddr::V6 { addr, mask: Ipv6Addr { bits: leading_ones6(p) } },
        ),
        (HostAddr::V6(addr), NetMask::V6(mask)) => Ok(NetAddr::V6 { addr, mask }),
        _ => Err("IP address and mask version mismatch"@),
    }
}

/// A network of an address and a mask of the same version.
pub fn combine_net(host: HostAddr, mask: NetMask) -> (net: Result<NetAddr, ParseError>)
    requires
        mask matches NetMask::Prefix(p) ==> p <= 128 && (host is V4 ==> p <= 32),
    ensures
        match (net, net_of(host, mask)) {
            (Ok(found), Ok(net)) => found == net,
            (Err(found), Err(message)) => found.0@ == message,
            _ => false,
        },
{
    match (host, mask) {
        (HostAddr::V4(addr), NetMask::Prefix(p)) => {
            let bits: u32 = if p == 0 {
                0
            } else {
                u32::MAX << ((32 - p) as u32)
            };
            Ok(NetAddr::V4 { addr, mask: Ipv4Addr { bits } })
        },
        (HostAddr::V4(addr), NetMask::V4(mask)) => Ok(NetAddr::V4 { addr, mask }),
        (HostAddr::V6(addr), NetMask::Prefix(p)) => {
            let bits: u128 = if p == 0 {
                0
            } else {
                u128::MAX << ((128 - p) as u32)
            };
            Ok(NetAddr::V6 { addr, mask: Ipv6Addr { bits } })
        },
        (HostAddr::V6(addr), NetMask::V6(mask)) => Ok(NetAddr::V6 { addr, mask }),
        _ => Err(error("IP address and mask version mismatch")),
    }
}

/// The relational operator that the characters stand for.
pub open spec fn relop_of(text: Seq<char>) -> Option<RelOp> {
    if text == "="@ || text == "=="@ {
        Some(RelOp::Eq)
    } else if text == "!="@ {
        Some(RelOp::Ne)
    } else if text == ">"@ {
        Some(RelOp::Gt)
    } else if text == ">="@ {
        Some(RelOp::Ge)
    } else if text == "<"@ {
        Some(RelOp::Lt)
    } else if text == "<="@ {
        Some(RelOp::Le)
    } else {
        None
    }
}

/// Parse a relational operator.
pub fn parse_relop(text: &[char]) -> (op: Option<RelOp>)
    ensures
        op == relop_of(text@),
{
    proof {
        reveal_strlit("=");
        reveal_strlit("==");
        reveal_strlit("!=");
        reveal_strlit(">");
        reveal_strlit(">=");
        reveal_strlit("<");
        reveal_strlit("<=");
    }
    let op: Option<RelOp> = if text.len() == 1 && text[0] == '=' {
        Some(RelOp::Eq)
    } else if text.len() == 1 && text[0] == '>' {
        Some(RelOp::Gt)
    } else if text.len() == 1 && text[0] == '<' {
        Some(RelOp::Lt)
    } else if text.len() == 2 && text[0] == '=' && text[1] == '=' {
        Some(RelOp::Eq)
    } else if text.len() == 2 && text[0] == '!' && text[1] == '=' {
        Some(RelOp::Ne)
    } else if text.len() == 2 && text[0] == '>' && text[1] == '=' {
        Some(RelOp::Ge)
    } else if text.len() == 2 && text[0] == '<' && text[1] == '=' {
        Some(RelOp::Le)
    } else {
        None
    };
    proof {
        assert("="@ =~= seq!['=']);
        assert("=="@ =~= seq!['=', '=']);
        assert("!="@ =~= seq!['!', '=']);
        assert(">"@ =~= seq!['>']);
        assert(">="@ =~= seq!['>', '=']);
        assert("<"@ =~= seq!['<']);
        assert("<="@ =~= seq!['<', '=']);
        assert(text@.len() == 1 ==> text@ =~= seq![text@[0]]);
        assert(text@.len() == 2 ==> text@ =~= seq![text@[0], text@[1]]);
    }
    op
}

/// The byte that hexadecimal digits from index `i` on stand for, with `value` before them.
pub open spec fn hex_byte_from(text: Seq<char>, i: int, value: nat) -> Result<u8, Seq<char>>
    decreases text.len() - i,
{
    if !(0 <= i < text.len()) {
        Ok(value as u8)
    } else if !is_hex_digit(text[i]) {
        Err("invalid digit found in string"@)
    } else if value * 16 + hex_digit_value(text[i]) > 255 {
        Err("number too large to fit in target type"@)
    } else {
        hex_byte_from(text, i + 1, value * 16 + hex_digit_value(text[i]))
    }
}

/// The byte that a hexadecimal number stands for; a plus sign may stand before it.
pub open spec fn hex_byte_of(text: Seq<char>) -> Result<u8, Seq<char>> {
    if text.len() == 0 {
        Err("cannot parse integer from empty string"@)
    } else if text[0] == '+' && text.len() > 1 {
        hex_byte_from(text, 1, 0)
    } else {
        hex_byte_from(text, 0, 0)
    }
}

fn parse_hex_byte(text: &[char]) -> (byte: Result<u8, ParseError>)
    ensures
        match (byte, hex_byte_of(text@)) {
            (Ok(found), Ok(byte)) => found == byte,
            (Err(found), Err(message)) => found.0@ == "invalid MAC: "@ + message,
            _ => false,
        },
{
    if text.len() == 0 {
        return Err(error_with("invalid MAC: ", "cannot parse integer from empty string"));
    }
    let mut i: usize = if text[0] == '+' && text.len() > 1 {
        1
    } else {
        0
    };
    let mut value: u32 = 0;
    while i < text.len()
        invariant
            0 <= i <= text@.len(),
            value <= 255,
            hex_byte_of(text@) == hex_byte_from(text@, i as int, value as nat),
        decreases text@.len() - i,
    {
        match hex_value_of(text[i]) {
            None => {
                return Err(error_with("invalid MAC: ", "invalid digit found in string"));
            },
            Some(d) => {
                let next: u32 = value * 16 + d as u32;
                if next > 255 {
                    return Err(error_with(
                        "invalid MAC: ",
                        "number too large to fit in target type",
                    ));
                }
                value = next;
            },
        }
        i = i + 1;
    }
    Ok(value as u8)
}

/// The octets of a MAC address from part `i` on, behind those of `before`. An address of less
/// than six parts has zeros for the rest.
pub open spec fn mac_from(
    parts: Seq<Seq<char>>,
    i: int,
    before: Seq<u8>,
) -> Result<Seq<u8>, Seq<char>>
    decreases parts.len() - i,
{
    if !(0 <= i < parts.len()) {
        Ok(before + Seq::new((6 - before.len()) as nat, |j: int| 0u8))
    } else if i >= 6 {
        Err("MAC address exceeds 6 bytes"@)
    } else {
        match hex_byte_of(parts[i]) {
            Ok(byte) => mac_from(parts, i + 1, before.push(byte)),
            Err(message) => Err("invalid MAC: "@ + message),
        }
    }
}

/// The MAC address that the text stands for.
pub open spec fn mac_of(text: Seq<char>) -> Result<Seq<u8>, Seq<char>> {
    mac_from(split(text, ':'), 0, Seq::<u8>::empty())
}

/// Parse a MAC address.
pub fn parse_mac(text: &[char]) -> (mac: Result<[u8; 6], ParseError>)
    ensures
        match (mac, mac_of(text@)) {
            (Ok(found), Ok(mac)) => found@ == mac,
            (Err(found), Err(message)) => found.0@ == message,
            _ => false,
        },
{
    let parts: Vec<(usize, usize)> = split_ranges(text, ':');
    let ghost all = split(text@, ':');
    let mut octets: [u8; 6] = [0u8; 6];
    let mut i: usize = 0;
    assert(octets@.take(0) =~= Seq::<u8>::empty());
    while i < parts.len()
        invariant
            0 <= i <= parts@.len(),
            i <= 6,
            parts@.len() == all.len(),
            all == split(text@, ':'),
            forall|j: int|
                0 <= j < parts@.len() ==> (#[trigger] parts@[j]).0 <= parts@[j].1 <= text@.len()
                    && text@.subrange(parts@[j].0 as int, parts@[j].1 as int) == all[j],
            forall|j: int| i <= j < 6 ==> #[trigger] octets@[j] == 0,
            mac_of(text@) == mac_from(all, i as int, octets@.take(i as int)),
        decreases parts@.len() - i,
    {
        if i >= 6 {
            return Err(error("MAC address exceeds 6 bytes"));
        }
        assert(parts@[i as int].0 <= parts@[i as int].1);
        let byte: u8 = match parse_hex_byte(slice_subrange(text, parts[i].0, parts[i].1)) {
            Ok(byte) => byte,
            Err(e) => return Err(e),
        };
        let ghost before = octets@;
        octets[i] = byte;
        assert(octets@.take(i + 1) =~= before.take(i as int).push(byte));
        i = i + 1;
    }
    assert(octets@ =~= octets@.take(i as int) + Seq::new(
        (6 - octets@.take(i as int).len()) as nat,
        |j: int| 0u8,
    ));
    Ok(octets)
}

} // verus!
