//! IP addresses as plain numbers.

use vstd::prelude::*;

verus! {

/// An IPv4 address; its first octet is the most significant byte.
#[derive(Debug, Clone, Copy, PartialEq, Eq, Structural)]
pub struct Ipv4Addr {
    pub bits: u32,
}

/// An IPv6 address; its first octet is the most significant byte.
#[derive(Debug, Clone, Copy, PartialEq, Eq, Structural)]
pub struct Ipv6Addr {
    pub bits: u128,
}

/// An IP address of either version.
#[derive(Debug, Clone, Copy, PartialEq, Eq, Structural)]
pub enum IpAddr {
    V4(Ipv4Addr),
    V6(Ipv6Addr),
}

impl Ipv4Addr {
    /// The address `a.b.c.d`.
    pub fn new(a: u8, b: u8, c: u8, d: u8) -> (addr: Self)
        ensures
            addr.bits == a * 0x100_0000 + b * 0x1_0000 + c * 0x100 + d,
    {
        Ipv4Addr { bits: a as u32 * 0x100_0000 + b as u32 * 0x1_0000 + c as u32 * 0x100 + d as u32 }
    }

    /// The octet at index `i`, counted from the most significant one.
    pub open spec fn octet(&self, i: int) -> u8 {
        if i == 0 {
            (self.bits / 0x100_0000) as u8
        } else if i == 1 {
            (self.bits / 0x1_0000 % 0x100) as u8
        } else if i == 2 {
            (self.bits / 0x100 % 0x100) as u8
        } else {
            (self.bits % 0x100) as u8
        }
    }

    /// The four octets.
    pub fn octets(&self) -> (octets: [u8; 4])
        ensures
            forall|i: int| 0 <= i < 4 ==> octets@[i] == #[trigger] self.octet(i),
    {
        [
            (self.bits / 0x100_0000) as u8,
            (self.bits / 0x1_0000 % 0x100) as u8,
            (self.bits / 0x100 % 0x100) as u8,
            (self.bits % 0x100) as u8,
        ]
    }
}

/// The power of two that the 16-bit group at index `i` of an IPv6 address counts.
pub open spec fn segment_unit(i: int) -> int {
    if i == 0 {
        0x1_0000_0000_0000_0000_0000_0000_0000
    } else if i == 1 {
        0x1_0000_0000_0000_0000_0000_0000
    } else if i == 2 {
        0x1_0000_0000_0000_0000_0000
    } else if i == 3 {
        0x1_0000_0000_0000_0000
    } else if i == 4 {
        0x1_0000_0000_0000
    } else if i == 5 {
        0x1_0000_0000
    } else if i == 6 {
        0x1_0000
    } else {
        1
    }
}

impl Ipv6Addr {
    /// The address with the eight given 16-bit groups.
    pub fn new(a: u16, b: u16, c: u16, d: u16, e: u16, f: u16, g: u16, h: u16) -> (addr: Self)
        ensures
            addr.bits == a * segment_unit(0) + b * segment_unit(1) + c * segment_unit(2) + d
                * segment_unit(3) + e * segment_unit(4) + f * segment_unit(5) + g * segment_unit(6)
                + h * segment_unit(7),
    {
        let high: u64 = a as u64 * 0x1_0000_0000_0000 + b as u64 * 0x1_0000_0000 + c as u64
            * 0x1_0000 + d as u64;
        let low: u64 = e as u64 * 0x1_0000_0000_0000 + f as u64 * 0x1_0000_0000 + g as u64
            * 0x1_0000 + h as u64;
        Ipv6Addr { bits: high as u128 * 0x1_0000_0000_0000_0000 + low as u128 }
    }

    /// The 16-bit group at index `i`, counted from the most significant one.
    pub open spec fn segment(&self, i: int) -> u16 {
        (self.bits as int / segment_unit(i) % 0x1_0000) as u16
    }

    /// The eight 16-bit groups.
    pub fn segments(&self) -> (segments: [u16; 8])
        ensures
            forall|i: int| 0 <= i < 8 ==> segments@[i] == #[trigger] self.segment(i),
    {
        [
            (self.bits / 0x1_0000_0000_0000_0000_0000_0000_0000 % 0x1_0000) as u16,
            (self.bits / 0x1_0000_0000_0000_0000_0000_0000 % 0x1_0000) as u16,
            (self.bits / 0x1_0000_0000_0000_0000_0000 % 0x1_0000) as u16,
            (self.bits / 0x1_0000_0000_0000_0000 % 0x1_0000) as u16,
            (self.bits / 0x1_0000_0000_0000 % 0x1_0000) as u16,
            (self.bits / 0x1_0000_0000 % 0x1_0000) as u16,
            (self.bits / 0x1_0000 % 0x1_0000) as u16,
            (self.bits % 0x1_0000) as u16,
        ]
    }

    /// The 32-bit word at index `i`, counted from the most significant one.
    pub open spec fn word(&self, i: int) -> u32 {
        if i == 0 {
            (self.bits / 0x1_0000_0000_0000_0000_0000_0000) as u32
        } else if i == 1 {
            (self.bits / 0x1_0000_0000_0000_0000 % 0x1_0000_0000) as u32
        } else if i == 2 {
            (self.bits / 0x1_0000_0000 % 0x1_0000_0000) as u32
        } else {
            (self.bits % 0x1_0000_0000) as u32
        }
    }

    /// The four 32-bit words.
    pub fn words(&self) -> (words: [u32; 4])
        ensures
            forall|i: int| 0 <= i < 4 ==> words@[i] == #[trigger] self.word(i),
    {
        [
            (self.bits / 0x1_0000_0000_0000_0000_0000_0000) as u32,
            (self.bits / 0x1_0000_0000_0000_0000 % 0x1_0000_0000) as u32,
            (self.bits / 0x1_0000_0000 % 0x1_0000_0000) as u32,
            (self.bits % 0x1_0000_0000) as u32,
        ]
    }
}

} // verus!
