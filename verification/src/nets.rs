//! Which addresses a mask covers and which packets a network matches, bit by bit.

use vstd::arithmetic::div_mod::lemma_mod_breakdown;
use vstd::arithmetic::power2::{
    lemma2_to64, lemma2_to64_rest, lemma_pow2_adds, lemma_pow2_pos, lemma_pow2_unfold, pow2,
};
use vstd::bits::{lemma_u128_shr_is_div, lemma_u32_shr_is_div};
use vstd::prelude::*;

use crate::addr::{Ipv4Addr, Ipv6Addr};
use crate::ast::{holds, ipv6_at, Direction, Expr, HostAddr, NetAddr};
use crate::fields::{asked, field, law_reads_are_big_endian, lemma_sixteen, lemma_words_of};
use crate::values::{default_mask, net_of, NetMask};
use crate::vm::word_at;

verus! {

proof fn lemma_whole()
    ensures
        pow2(32) == 0x1_0000_0000,
        pow2(128) == 0x1_0000_0000_0000_0000_0000_0000_0000_0000,
{
    lemma2_to64();
    lemma2_to64_rest();
    lemma_pow2_adds(64, 64);
}

proof fn lemma_one_bit4(n: u32)
    requires
        n < 32,
    ensures
        (1u32 << n) == pow2(n as nat),
    decreases n,
{
    if n == 0 {
        assert(1u32 << 0u32 == 1) by (bit_vector);
        lemma2_to64();
    } else {
        let m: u32 = (n - 1) as u32;
        lemma_one_bit4(m);
        lemma_pow2_unfold(n as nat);
        assert((1u32 << n) == 2 * (1u32 << m)) by (bit_vector)
            requires
                n == m + 1,
                n < 32,
        ;
    }
}

proof fn lemma_one_bit6(n: u32)
    requires
        n < 128,
    ensures
        (1u128 << n) == pow2(n as nat),
    decreases n,
{
    if n == 0 {
        assert(1u128 << 0u32 == 1) by (bit_vector);
        lemma2_to64();
    } else {
        let m: u32 = (n - 1) as u32;
        lemma_one_bit6(m);
        lemma_pow2_unfold(n as nat);
        assert((1u128 << n) == 2 * (1u128 << m)) by (bit_vector)
            requires
                n == m + 1,
                n < 128,
        ;
    }
}

/// The mask of an IPv4 prefix of `p` bits has `p` ones in front and zeros behind them: it is
/// 2^32 - 2^(32 - p), and its bit at index `k`, counted from the most significant one, is one just
/// for `k` below `p`. The network keeps the address as it was given.
pub proof fn law_ipv4_prefix_is_leading_ones(addr: Ipv4Addr, p: u8, k: u32)
    requires
        p <= 32,
        k < 32,
    ensures
        net_of(HostAddr::V4(addr), NetMask::Prefix(p)) matches Ok(net) && net matches NetAddr::V4 {
            addr: kept,
            mask,
        } && kept == addr && mask.bits == pow2(32) - pow2((32 - p) as nat) && (mask.bits as nat
            / pow2((31 - k) as nat) % 2 == 1 <==> k < p),
{
    lemma_whole();
    let n: u32 = (32 - p) as u32;
    let s: u32 = (31 - k) as u32;
    let ones = if p == 0 {
        0u32
    } else {
        u32::MAX << n
    };
    lemma_u32_shr_is_div(ones, s);
    if p == 0 {
        assert(0u32 >> s == 0) by (bit_vector);
    } else {
        lemma_one_bit4(n);
        assert((0xffff_ffffu32 << n) + (1u32 << n) == 0x1_0000_0000) by (bit_vector)
            requires
                n < 32,
        ;
        assert(((0xffff_ffffu32 << n) >> s) % 2 == 1 <==> n <= s) by (bit_vector)
            requires
                n < 32,
                s < 32,
        ;
    }
}

/// The mask of an IPv6 prefix of `p` bits has `p` ones in front and zeros behind them: it is
/// 2^128 - 2^(128 - p), and its bit at index `k`, counted from the most significant one, is one
/// just for `k` below `p`. The network keeps the address as it was given.
#[verifier::rlimit(40)]
pub proof fn law_ipv6_prefix_is_leading_ones(addr: Ipv6Addr, p: u8, k: u128)
    requires
        p <= 128,
        k < 128,
    ensures
        net_of(HostAddr::V6(addr), NetMask::Prefix(p)) matches Ok(net) && net matches NetAddr::V6 {
            addr: kept,
            mask,
        } && kept == addr && mask.bits == pow2(128) - pow2((128 - p) as nat) && (mask.bits as nat
            / pow2((127 - k) as nat) % 2 == 1 <==> k < p),
{
    lemma_whole();
    let n: u32 = (128 - p) as u32;
    let s: u128 = (127 - k) as u128;
    let ones = if p == 0 {
        0u128
    } else {
        u128::MAX << n
    };
    lemma_u128_shr_is_div(ones, s);
    if p == 0 {
        assert(0u128 >> s == 0) by (bit_vector);
    } else {
        lemma_one_bit6(n);
        assert((0xffff_ffff_ffff_ffff_ffff_ffff_ffff_ffffu128 << n) + (1u128 << n)
            == 0x1_0000_0000_0000_0000_0000_0000_0000_0000) by (bit_vector)
            requires
                n < 128,
        ;
        assert(((0xffff_ffff_ffff_ffff_ffff_ffff_ffff_ffffu128 << n) >> s) % 2 == 1 <==> n <= s)
            by (bit_vector)
            requires
                n < 128,
                s < 128,
        ;
    }
}

/// A mask that is given as an address is the mask of the network, and goes with an address of the
/// same version alone.
pub proof fn law_masks_are_kept(a4: Ipv4Addr, m4: Ipv4Addr, a6: Ipv6Addr, m6: Ipv6Addr)
    ensures
        net_of(HostAddr::V4(a4), NetMask::V4(m4)) == Ok::<NetAddr, Seq<char>>(
            NetAddr::V4 { addr: a4, mask: m4 },
        ),
        net_of(HostAddr::V6(a6), NetMask::V6(m6)) == Ok::<NetAddr, Seq<char>>(
            NetAddr::V6 { addr: a6, mask: m6 },
        ),
        net_of(HostAddr::V4(a4), NetMask::V6(m6)) is Err,
        net_of(HostAddr::V6(a6), NetMask::V4(m4)) is Err,
{
}

/// A network without a mask has that of its class: 8 bits where the first bit of the address is
/// zero, 16 bits behind the bits 10, 24 behind 110, all of them behind 111 and for IPv6.
pub proof fn law_mask_by_class(a4: Ipv4Addr, a6: Ipv6Addr)
    ensures
        a4.bits / 0x8000_0000 == 0 ==> default_mask(HostAddr::V4(a4)) == NetMask::Prefix(8),
        a4.bits / 0x4000_0000 == 2 ==> default_mask(HostAddr::V4(a4)) == NetMask::Prefix(16),
        a4.bits / 0x2000_0000 == 6 ==> default_mask(HostAddr::V4(a4)) == NetMask::Prefix(24),
        a4.bits / 0x2000_0000 == 7 ==> default_mask(HostAddr::V4(a4)) == NetMask::Prefix(32),
        default_mask(HostAddr::V6(a6)) == NetMask::Prefix(128),
{
}

/// An IPv4 network matches where the address that the direction asks for and the address of the
/// network agree under the mask.
pub proof fn law_ipv4_net_by_bytes(
    addr: Ipv4Addr,
    mask: Ipv4Addr,
    dir: Direction,
    packet: Seq<u8>,
)
    ensures
        holds(Expr::Net { addr: NetAddr::V4 { addr, mask }, dir }, packet) == (field(packet, 12, 2)
            == 0x0800 && asked(
            dir,
            (field(packet, 26, 4) as u32 & mask.bits) == (addr.bits & mask.bits),
            (field(packet, 30, 4) as u32 & mask.bits) == (addr.bits & mask.bits),
        )),
{
    law_reads_are_big_endian(packet, 12);
    law_reads_are_big_endian(packet, 26);
    law_reads_are_big_endian(packet, 30);
}

/// An IPv4 network of a prefix matches where the first `p` bits of the address that the direction
/// asks for are those of the network.
pub proof fn law_ipv4_prefix_matches(addr: Ipv4Addr, p: u8, dir: Direction, packet: Seq<u8>)
    requires
        p <= 32,
    ensures
        net_of(HostAddr::V4(addr), NetMask::Prefix(p)) matches Ok(net) && holds(
            Expr::Net { addr: net, dir },
            packet,
        ) == (field(packet, 12, 2) == 0x0800 && asked(
            dir,
            field(packet, 26, 4) / pow2((32 - p) as nat) == addr.bits as nat / pow2(
                (32 - p) as nat,
            ),
            field(packet, 30, 4) / pow2((32 - p) as nat) == addr.bits as nat / pow2(
                (32 - p) as nat,
            ),
        )),
{
    law_reads_are_big_endian(packet, 12);
    law_reads_are_big_endian(packet, 26);
    law_reads_are_big_endian(packet, 30);
    lemma_under_ones4(word_at(packet, 26), addr.bits, p);
    lemma_under_ones4(word_at(packet, 30), addr.bits, p);
}

proof fn lemma_under_ones4(a: u32, b: u32, p: u8)
    requires
        p <= 32,
    ensures
        ({
            let ones = crate::values::leading_ones4(p);
            (a & ones) == (b & ones) <==> a as nat / pow2((32 - p) as nat) == b as nat / pow2(
                (32 - p) as nat,
            )
        }),
{
    if p == 0 {
        lemma_whole();
        assert(a & 0 == 0 && b & 0 == 0) by (bit_vector);
        assert(a as nat / 0x1_0000_0000 == 0 && b as nat / 0x1_0000_0000 == 0);
    } else {
        let n: u32 = (32 - p) as u32;
        lemma_u32_shr_is_div(a, n);
        lemma_u32_shr_is_div(b, n);
        assert((a & (0xffff_ffffu32 << n)) == (b & (0xffff_ffffu32 << n)) <==> a >> n == b >> n)
            by (bit_vector)
            requires
                n < 32,
        ;
    }
}

/// The number in the four words at `off`, a word that does not lie in the packet being zero.
pub open spec fn four_words(packet: Seq<u8>, off: int) -> nat {
    field(packet, off, 4) * 0x1_0000_0000_0000_0000_0000_0000 + field(packet, off + 4, 4)
        * 0x1_0000_0000_0000_0000 + field(packet, off + 8, 4) * 0x1_0000_0000 + field(
        packet,
        off + 12,
        4,
    )
}

/// The four words of an address in a packet are the number in its sixteen bytes.
pub proof fn law_four_words(packet: Seq<u8>, off: int)
    requires
        0 <= off,
        off + 16 <= packet.len(),
    ensures
        four_words(packet, off) == field(packet, off, 16),
        field(packet, off, 16) <= u128::MAX,
{
    law_reads_are_big_endian(packet, off);
    law_reads_are_big_endian(packet, off + 4);
    law_reads_are_big_endian(packet, off + 8);
    law_reads_are_big_endian(packet, off + 12);
    lemma_sixteen(packet, off);
}

proof fn lemma_masked_words(value: u128, mask: u128)
    ensures
        ({
            let v = Ipv6Addr { bits: value };
            let m = Ipv6Addr { bits: mask };
            let both = Ipv6Addr { bits: value & mask };
            forall|i: int| 0 <= i < 4 ==> #[trigger] both.word(i) == v.word(i) & m.word(i)
        }),
{
    assert(((value & mask) / 0x1_0000_0000_0000_0000_0000_0000) as u32 == ((value
        / 0x1_0000_0000_0000_0000_0000_0000) as u32) & ((mask
        / 0x1_0000_0000_0000_0000_0000_0000) as u32)) by (bit_vector);
    assert(((value & mask) / 0x1_0000_0000_0000_0000 % 0x1_0000_0000) as u32 == ((value
        / 0x1_0000_0000_0000_0000 % 0x1_0000_0000) as u32) & ((mask / 0x1_0000_0000_0000_0000
        % 0x1_0000_0000) as u32)) by (bit_vector);
    assert(((value & mask) / 0x1_0000_0000 % 0x1_0000_0000) as u32 == ((value / 0x1_0000_0000
        % 0x1_0000_0000) as u32) & ((mask / 0x1_0000_0000 % 0x1_0000_0000) as u32))
        by (bit_vector);
    assert(((value & mask) % 0x1_0000_0000) as u32 == ((value % 0x1_0000_0000) as u32) & ((mask
        % 0x1_0000_0000) as u32)) by (bit_vector);
}

#[verifier::rlimit(40)]
proof fn lemma_net_words(packet: Seq<u8>, off: int, addr: Ipv6Addr, mask: Ipv6Addr)
    ensures
        four_words(packet, off) <= u128::MAX,
        ipv6_at(packet, off, addr, mask) == ((four_words(packet, off) as u128 & mask.bits)
            == addr.bits),
{
    law_reads_are_big_endian(packet, off);
    law_reads_are_big_endian(packet, off + 4);
    law_reads_are_big_endian(packet, off + 8);
    law_reads_are_big_endian(packet, off + 12);
    let a = word_at(packet, off);
    let b = word_at(packet, off + 4);
    let c = word_at(packet, off + 8);
    let d = word_at(packet, off + 12);
    let value = four_words(packet, off) as u128;
    lemma_words_of(value, a, b, c, d);
    lemma_masked_words(value, mask.bits);
    let v = Ipv6Addr { bits: value };
    let both = Ipv6Addr { bits: value & mask.bits };
    assert(v.word(0) == a && v.word(1) == b && v.word(2) == c && v.word(3) == d);
    lemma_words_of(addr.bits, both.word(0), both.word(1), both.word(2), both.word(3));
    lemma_words_of(both.bits, both.word(0), both.word(1), both.word(2), both.word(3));
    assert(both.word(0) == a & mask.word(0));
    assert(both.word(1) == b & mask.word(1));
    assert(both.word(2) == c & mask.word(2));
    assert(both.word(3) == d & mask.word(3));
    if ipv6_at(packet, off, addr, mask) {
        assert((word_at(packet, off + 4 * 0) & mask.word(0)) == addr.word(0));
        assert((word_at(packet, off + 4 * 1) & mask.word(1)) == addr.word(1));
        assert((word_at(packet, off + 4 * 2) & mask.word(2)) == addr.word(2));
        assert((word_at(packet, off + 4 * 3) & mask.word(3)) == addr.word(3));
    } else {
        let i = choose|i: int|
            0 <= i < 4 && (word_at(packet, off + 4 * i) & mask.word(i)) != #[trigger] addr.word(i);
        assert(i == 0 || i == 1 || i == 2 || i == 3);
    }
}

/// An IPv6 network matches where all 128 bits of the address that the direction asks for, under
/// the mask, are the address of the network: the bytes 22 to 38 hold the source, the bytes 38 to
/// 54 the destination.
pub proof fn law_ipv6_net_by_bytes(
    addr: Ipv6Addr,
    mask: Ipv6Addr,
    dir: Direction,
    packet: Seq<u8>,
)
    requires
        packet.len() >= 54,
    ensures
        holds(Expr::Net { addr: NetAddr::V6 { addr, mask }, dir }, packet) == (field(packet, 12, 2)
            == 0x86dd && asked(
            dir,
            (field(packet, 22, 16) as u128 & mask.bits) == addr.bits,
            (field(packet, 38, 16) as u128 & mask.bits) == addr.bits,
        )),
{
    law_short_ipv6_net(addr, mask, dir, packet);
    law_four_words(packet, 22);
    law_four_words(packet, 38);
}

/// In a packet of any length an IPv6 network is compared with four words, and one that does not
/// lie in the packet is zero.
pub proof fn law_short_ipv6_net(addr: Ipv6Addr, mask: Ipv6Addr, dir: Direction, packet: Seq<u8>)
    ensures
        holds(Expr::Net { addr: NetAddr::V6 { addr, mask }, dir }, packet) == (field(packet, 12, 2)
            == 0x86dd && asked(
            dir,
            (four_words(packet, 22) as u128 & mask.bits) == addr.bits,
            (four_words(packet, 38) as u128 & mask.bits) == addr.bits,
        )),
{
    law_reads_are_big_endian(packet, 12);
    lemma_net_words(packet, 22, addr, mask);
    lemma_net_words(packet, 38, addr, mask);
}

/// Two packets whose source addresses differ in a bit under the mask do not both come from one
/// IPv6 network, and two whose destinations do are not both sent to it.
pub proof fn law_ipv6_net_tells_addresses_apart(
    addr: Ipv6Addr,
    mask: Ipv6Addr,
    one: Seq<u8>,
    other: Seq<u8>,
)
    requires
        one.len() >= 54,
        other.len() >= 54,
    ensures
        (field(one, 22, 16) as u128 & mask.bits) != (field(other, 22, 16) as u128 & mask.bits)
            ==> !(holds(
            Expr::Net { addr: NetAddr::V6 { addr, mask }, dir: Direction::Src },
            one,
        ) && holds(Expr::Net { addr: NetAddr::V6 { addr, mask }, dir: Direction::Src }, other)),
        (field(one, 38, 16) as u128 & mask.bits) != (field(other, 38, 16) as u128 & mask.bits)
            ==> !(holds(
            Expr::Net { addr: NetAddr::V6 { addr, mask }, dir: Direction::Dst },
            one,
        ) && holds(Expr::Net { addr: NetAddr::V6 { addr, mask }, dir: Direction::Dst }, other)),
{
    law_ipv6_net_by_bytes(addr, mask, Direction::Src, one);
    law_ipv6_net_by_bytes(addr, mask, Direction::Src, other);
    law_ipv6_net_by_bytes(addr, mask, Direction::Dst, one);
    law_ipv6_net_by_bytes(addr, mask, Direction::Dst, other);
}

/// An IPv6 network of a prefix matches where the address that the direction asks for, its bits
/// behind the first `p` cleared, is that of the network.
pub proof fn law_ipv6_prefix_matches(addr: Ipv6Addr, p: u8, dir: Direction, packet: Seq<u8>)
    requires
        p <= 128,
        packet.len() >= 54,
    ensures
        net_of(HostAddr::V6(addr), NetMask::Prefix(p)) matches Ok(net) && holds(
            Expr::Net { addr: net, dir },
            packet,
        ) == (field(packet, 12, 2) == 0x86dd && asked(
            dir,
            field(packet, 22, 16) - field(packet, 22, 16) % pow2((128 - p) as nat) == addr.bits,
            field(packet, 38, 16) - field(packet, 38, 16) % pow2((128 - p) as nat) == addr.bits,
        )),
{
    let mask = Ipv6Addr { bits: crate::values::leading_ones6(p) };
    law_ipv6_net_by_bytes(addr, mask, dir, packet);
    law_four_words(packet, 22);
    law_four_words(packet, 38);
    lemma_under_ones6(field(packet, 22, 16) as u128, p);
    lemma_under_ones6(field(packet, 38, 16) as u128, p);
}

#[verifier::rlimit(40)]
proof fn lemma_under_ones6(a: u128, p: u8)
    requires
        p <= 128,
    ensures
        (a & crate::values::leading_ones6(p)) == a as nat - a as nat % pow2((128 - p) as nat),
{
    lemma_whole();
    if p == 0 {
        assert(a & 0 == 0) by (bit_vector);
        assert(pow2((128 - p) as nat) == 0x1_0000_0000_0000_0000_0000_0000_0000_0000);
        vstd::arithmetic::div_mod::lemma_small_mod(a as nat, pow2(128));
    } else {
        let n: u32 = (128 - p) as u32;
        lemma_one_bit6(n);
        lemma_pow2_pos(n as nat);
        let unit = 1u128 << n;
        assert((a & (0xffff_ffff_ffff_ffff_ffff_ffff_ffff_ffffu128 << n)) + (a & ((unit
            - 1) as u128)) == a) by (bit_vector)
            requires
                n < 128,
                unit == 1u128 << n,
        ;
        lemma_low_part(a, n);
    }
}

#[verifier::rlimit(40)]
proof fn lemma_low_part(a: u128, n: u32)
    requires
        n < 128,
    ensures
        a & (((1u128 << n) - 1) as u128) == a as nat % pow2(n as nat),
    decreases n,
{
    lemma_one_bit6(n);
    lemma_pow2_pos(n as nat);
    if n == 0 {
        lemma2_to64();
        assert(a & 0 == 0) by (bit_vector);
    } else {
        let m: u32 = (n - 1) as u32;
        let unit = 1u128 << m;
        let double = 1u128 << n;
        lemma_one_bit6(m);
        lemma_low_part(a, m);
        lemma_pow2_unfold(n as nat);
        lemma_pow2_pos(m as nat);
        lemma_mod_breakdown(a as int, pow2(m as nat) as int, 2);
        let wide = m as u128;
        let shifted = a >> wide;
        lemma_u128_shr_is_div(a, wide);
        assert(a & unit == (if shifted % 2 == 1 {
            unit
        } else {
            0
        })) by (bit_vector)
            requires
                m < 127,
                wide == m as u128,
                unit == 1u128 << m,
                shifted == a >> wide,
        ;
        assert(unit & ((unit - 1) as u128) == 0 && unit > 0) by (bit_vector)
            requires
                m < 127,
                unit == 1u128 << m,
        ;
        assert((a & ((double - 1) as u128)) == (a & ((unit - 1) as u128)) + (a & unit))
            by (bit_vector)
            requires
                unit & ((unit - 1) as u128) == 0,
                unit > 0,
                double == 2 * unit,
        ;
        let size = pow2(m as nat) as int;
        let bit = (a as int / size) % 2;
        assert(shifted == a as int / size);
        assert(size * bit == (if bit == 1 {
            size
        } else {
            0
        })) by (nonlinear_arith)
            requires
                bit == 0 || bit == 1,
        ;
        assert(a & unit == size * bit);
    }
}

} // verus!
