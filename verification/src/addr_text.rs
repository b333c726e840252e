//! The text form of IP addresses.

use vstd::prelude::*;
use vstd::slice::slice_subrange;

use crate::addr::{segment_unit, IpAddr, Ipv4Addr, Ipv6Addr};
use crate::text::{
    all_digits, decimal, decimal_value, hex, hex_value, hex_value_of, is_hex_digit, is_number,
    parse_decimal, push_decimal, push_hex, push_text, split, split_ranges,
};

verus! {

/// Whether the text is a number from 0 to 255 without superfluous zeros.
pub open spec fn is_octet(text: Seq<char>) -> bool {
    &&& all_digits(text)
    &&& text.len() <= 3
    &&& (text.len() == 1 || text[0] != '0')
    &&& decimal_value(text) <= 255
}

/// The IPv4 address that the text stands for: four octets with dots between them.
pub open spec fn ipv4_of(text: Seq<char>) -> Option<Ipv4Addr> {
    let parts = split(text, '.');
    if parts.len() == 4 && is_octet(parts[0]) && is_octet(parts[1]) && is_octet(parts[2])
        && is_octet(parts[3]) {
        Some(
            Ipv4Addr {
                bits: (decimal_value(parts[0]) * 0x100_0000 + decimal_value(parts[1]) * 0x1_0000
                    + decimal_value(parts[2]) * 0x100 + decimal_value(parts[3])) as u32,
            },
        )
    } else {
        None
    }
}

fn parse_octet(text: &[char]) -> (octet: Option<u8>)
    ensures
        octet is Some == is_octet(text@),
        octet matches Some(octet) ==> octet == decimal_value(text@),
{
    if !is_number(text) || text.len() > 3 || (text.len() > 1 && text[0] == '0') {
        return None;
    }
    match parse_decimal(text, 255) {
        Some(value) => Some(value as u8),
        None => None,
    }
}

/// Parse an IPv4 address.
pub fn parse_ipv4(text: &[char]) -> (addr: Option<Ipv4Addr>)
    ensures
        addr == ipv4_of(text@),
{
    let parts: Vec<(usize, usize)> = split_ranges(text, '.');
    if parts.len() != 4 {
        return None;
    }
    assert(parts@[0].0 <= parts@[0].1 && parts@[1].0 <= parts@[1].1);
    assert(parts@[2].0 <= parts@[2].1 && parts@[3].0 <= parts@[3].1);
    let a: Option<u8> = parse_octet(slice_subrange(text, parts[0].0, parts[0].1));
    let b: Option<u8> = parse_octet(slice_subrange(text, parts[1].0, parts[1].1));
    let c: Option<u8> = parse_octet(slice_subrange(text, parts[2].0, parts[2].1));
    let d: Option<u8> = parse_octet(slice_subrange(text, parts[3].0, parts[3].1));
    match (a, b, c, d) {
        (Some(a), Some(b), Some(c), Some(d)) => Some(Ipv4Addr::new(a, b, c, d)),
        _ => None,
    }
}

/// Whether the text is one to four hexadecimal digits.
pub open spec fn is_group(text: Seq<char>) -> bool {
    &&& 1 <= text.len() <= 4
    &&& forall|i: int| 0 <= i < text.len() ==> is_hex_digit(#[trigger] text[i])
}

/// Whether every part is a group.
pub open spec fn are_groups(parts: Seq<Seq<char>>) -> bool {
    forall|i: int| 0 <= i < parts.len() ==> is_group(#[trigger] parts[i])
}

/// The values of groups.
pub open spec fn group_values(parts: Seq<Seq<char>>) -> Seq<u16> {
    Seq::new(parts.len(), |i: int| hex_value(parts[i]) as u16)
}

/// The groups of a part of an IPv6 address that is not empty; an IPv4 address may stand in
/// place of the last two, where `v4_last` says so.
pub open spec fn groups_of(text: Seq<char>, v4_last: bool) -> Option<Seq<u16>> {
    let parts = split(text, ':');
    let front = parts.drop_last();
    let last = parts.last();
    if !are_groups(front) {
        None
    } else if v4_last && ipv4_of(last) is Some {
        let bits = ipv4_of(last)->0.bits;
        Some(group_values(front).push((bits / 0x1_0000) as u16).push((bits % 0x1_0000) as u16))
    } else if is_group(last) {
        Some(group_values(parts))
    } else {
        None
    }
}

/// The first place from index `i` on where two colons stand.
pub open spec fn gap_from(text: Seq<char>, i: int) -> Option<int>
    decreases text.len() - i,
{
    if i + 1 >= text.len() {
        None
    } else if text[i] == ':' && text[i + 1] == ':' {
        Some(i)
    } else {
        gap_from(text, i + 1)
    }
}

/// The address with the eight given groups.
pub open spec fn ipv6_from(groups: Seq<u16>) -> Ipv6Addr {
    Ipv6Addr {
        bits: (groups[0] * segment_unit(0) + groups[1] * segment_unit(1) + groups[2]
            * segment_unit(2) + groups[3] * segment_unit(3) + groups[4] * segment_unit(4)
            + groups[5] * segment_unit(5) + groups[6] * segment_unit(6) + groups[7] * segment_unit(
            7,
        )) as u128,
    }
}

/// `n` groups of zero.
pub open spec fn zeros(n: int) -> Seq<u16> {
    Seq::new(n as nat, |i: int| 0u16)
}

/// The groups on one side of two colons.
pub open spec fn side_of(text: Seq<char>, v4_last: bool) -> Option<Seq<u16>> {
    if text.len() == 0 {
        Some(Seq::<u16>::empty())
    } else {
        groups_of(text, v4_last)
    }
}

/// The IPv6 address that the text stands for: eight groups with colons between them, of which
/// two colons may stand for one or more groups of zero.
pub open spec fn ipv6_of(text: Seq<char>) -> Option<Ipv6Addr> {
    match gap_from(text, 0) {
        None => match groups_of(text, true) {
            Some(groups) => if groups.len() == 8 {
                Some(ipv6_from(groups))
            } else {
                None
            },
            None => None,
        },
        Some(i) => match (
            side_of(text.take(i), false),
            side_of(text.skip(i + 2), true),
        ) {
            (Some(head), Some(tail)) => if head.len() + tail.len() <= 7 {
                Some(ipv6_from(head + zeros(8 - head.len() - tail.len()) + tail))
            } else {
                None
            },
            _ => None,
        },
    }
}

fn parse_group(text: &[char]) -> (value: Option<u16>)
    ensures
        value is Some == is_group(text@),
        value matches Some(value) ==> value == hex_value(text@) as u16,
{
    if text.len() == 0 || text.len() > 4 {
        return None;
    }
    let mut value: u32 = 0;
    let mut i: usize = 0;
    assert(text@.take(0) =~= Seq::<char>::empty());
    while i < text.len()
        invariant
            0 <= i <= text@.len() <= 4,
            forall|j: int| 0 <= j < i ==> is_hex_digit(#[trigger] text@[j]),
            value == hex_value(text@.take(i as int)),
            i == 0 ==> value == 0,
            i == 1 ==> value < 0x10,
            i == 2 ==> value < 0x100,
            i == 3 ==> value < 0x1000,
            i == 4 ==> value < 0x1_0000,
        decreases text@.len() - i,
    {
        assert(text@.take(i + 1).drop_last() =~= text@.take(i as int));
        match hex_value_of(text[i]) {
            Some(d) => {
                value = value * 16 + d as u32;
            },
            None => {
                return None;
            },
        }
        i = i + 1;
    }
    assert(text@.take(i as int) =~= text@);
    Some(value as u16)
}

fn parse_groups(text: &[char], v4_last: bool) -> (groups: Option<Vec<u16>>)
    ensures
        match (groups, groups_of(text@, v4_last)) {
            (Some(found), Some(groups)) => found@ == groups,
            (None, None) => true,
            _ => false,
        },
{
    let parts: Vec<(usize, usize)> = split_ranges(text, ':');
    let ghost all = split(text@, ':');
    let mut groups: Vec<u16> = Vec::new();
    let mut i: usize = 0;
    while i < parts.len() - 1
        invariant
            0 <= i <= parts@.len() - 1,
            parts@.len() == all.len(),
            all == split(text@, ':'),
            forall|j: int|
                0 <= j < parts@.len() ==> (#[trigger] parts@[j]).0 <= parts@[j].1 <= text@.len()
                    && text@.subrange(parts@[j].0 as int, parts@[j].1 as int) == all[j],
            forall|j: int| 0 <= j < i ==> is_group(#[trigger] all[j]),
            groups@ =~= group_values(all.take(i as int)),
        decreases parts@.len() - i,
    {
        assert(parts@[i as int].0 <= parts@[i as int].1);
        match parse_group(slice_subrange(text, parts[i].0, parts[i].1)) {
            Some(value) => {
                groups.push(value);
            },
            None => {
                assert(!is_group(all.drop_last()[i as int]));
                return None;
            },
        }
        i = i + 1;
    }
    assert(all.take(i as int) =~= all.drop_last());
    assert(are_groups(all.drop_last()));
    assert(parts@[i as int].0 <= parts@[i as int].1);
    let last: &[char] = slice_subrange(text, parts[i].0, parts[i].1);
    if v4_last {
        if let Some(addr) = parse_ipv4(last) {
            groups.push((addr.bits / 0x1_0000) as u16);
            groups.push((addr.bits % 0x1_0000) as u16);
            return Some(groups);
        }
    }
    match parse_group(last) {
        Some(value) => {
            groups.push(value);
            assert(groups@ =~= group_values(all));
            Some(groups)
        },
        None => None,
    }
}

fn parse_side(text: &[char], v4_last: bool) -> (groups: Option<Vec<u16>>)
    ensures
        match (groups, side_of(text@, v4_last)) {
            (Some(found), Some(groups)) => found@ == groups,
            (None, None) => true,
            _ => false,
        },
{
    if text.len() == 0 {
        Some(Vec::new())
    } else {
        parse_groups(text, v4_last)
    }
}

fn find_gap(text: &[char]) -> (gap: Option<usize>)
    ensures
        match (gap, gap_from(text@, 0)) {
            (Some(found), Some(gap)) => found == gap && gap + 2 <= text@.len(),
            (None, None) => true,
            _ => false,
        },
{
    let mut i: usize = 0;
    while i < text.len() && text.len() - i > 1
        invariant
            0 <= i <= text@.len(),
            gap_from(text@, 0) == gap_from(text@, i as int),
        decreases text@.len() - i,
    {
        if text[i] == ':' && text[i + 1] == ':' {
            return Some(i);
        }
        i = i + 1;
    }
    None
}

fn ipv6_from_groups(groups: &Vec<u16>) -> (addr: Ipv6Addr)
    requires
        groups@.len() == 8,
    ensures
        addr == ipv6_from(groups@),
{
    Ipv6Addr::new(
        groups[0],
        groups[1],
        groups[2],
        groups[3],
        groups[4],
        groups[5],
        groups[6],
        groups[7],
    )
}

/// Parse an IPv6 address.
pub fn parse_ipv6(text: &[char]) -> (addr: Option<Ipv6Addr>)
    ensures
        addr == ipv6_of(text@),
{
    match find_gap(text) {
        None => match parse_groups(text, true) {
            Some(groups) => if groups.len() == 8 {
                Some(ipv6_from_groups(&groups))
            } else {
                None
            },
            None => None,
        },
        Some(gap) => {
            let len: usize = text.len();
            let before: &[char] = slice_subrange(text, 0, gap);
            let after: &[char] = slice_subrange(text, gap + 2, len);
            assert(before@ =~= text@.take(gap as int));
            assert(after@ =~= text@.skip(gap + 2));
            match (parse_side(before, false), parse_side(after, true)) {
                (Some(head), Some(tail)) => {
                    if head.len() > 7 || tail.len() > 7 || head.len() + tail.len() > 7 {
                        return None;
                    }
                    let ghost all = head@ + zeros(8 - head@.len() - tail@.len()) + tail@;
                    let mut groups: Vec<u16> = Vec::new();
                    let mut i: usize = 0;
                    while i < 8
                        invariant
                            0 <= i <= 8,
                            head@.len() + tail@.len() <= 7,
                            all == head@ + zeros(8 - head@.len() - tail@.len()) + tail@,
                            groups@ =~= all.take(i as int),
                        decreases 8 - i,
                    {
                        if i < head.len() {
                            groups.push(head[i]);
                        } else if i < 8 - tail.len() {
                            groups.push(0);
                        } else {
                            groups.push(tail[i - (8 - tail.len())]);
                        }
                        i = i + 1;
                    }
                    assert(groups@ =~= all);
                    Some(ipv6_from_groups(&groups))
                },
                _ => None,
            }
        },
    }
}

/// The text of an IPv4 address.
pub open spec fn ipv4_text(addr: Ipv4Addr) -> Seq<char> {
    decimal(addr.octet(0) as nat) + "."@ + decimal(addr.octet(1) as nat) + "."@ + decimal(
        addr.octet(2) as nat,
    ) + "."@ + decimal(addr.octet(3) as nat)
}

/// Append the text of an IPv4 address.
pub fn push_ipv4(out: &mut String, addr: Ipv4Addr)
    ensures
        final(out)@ == old(out)@ + ipv4_text(addr),
{
    let octets: [u8; 4] = addr.octets();
    assert(octets@[0] == addr.octet(0) && octets@[1] == addr.octet(1));
    assert(octets@[2] == addr.octet(2) && octets@[3] == addr.octet(3));
    push_decimal(out, octets[0] as u128);
    push_text(out, ".");
    push_decimal(out, octets[1] as u128);
    push_text(out, ".");
    push_decimal(out, octets[2] as u128);
    push_text(out, ".");
    push_decimal(out, octets[3] as u128);
    assert(out@ =~= old(out)@ + ipv4_text(addr));
}

/// The number of groups of zero from index `i` on.
pub open spec fn zero_run(addr: Ipv6Addr, i: int) -> int
    decreases 8 - i,
{
    if 0 <= i < 8 && addr.segment(i) == 0 {
        1 + zero_run(addr, i + 1)
    } else {
        0
    }
}

/// Whether the first of the longest runs of zero groups starts at `i`.
pub open spec fn is_longest_run(addr: Ipv6Addr, i: int) -> bool {
    &&& 0 <= i < 8
    &&& forall|j: int| 0 <= j < i ==> #[trigger] zero_run(addr, j) < zero_run(addr, i)
    &&& forall|j: int| i <= j < 8 ==> #[trigger] zero_run(addr, j) <= zero_run(addr, i)
}

/// Groups in hexadecimal with colons between them.
pub open spec fn groups_text(addr: Ipv6Addr, from: int, to: int) -> Seq<char>
    decreases to - from,
{
    if from >= to {
        Seq::<char>::empty()
    } else if from + 1 == to {
        hex(addr.segment(from) as nat)
    } else {
        groups_text(addr, from, to - 1) + ":"@ + hex(addr.segment(to - 1) as nat)
    }
}

/// Whether the address stands for an IPv4 address.
pub open spec fn is_mapped(addr: Ipv6Addr) -> bool {
    addr.bits / 0x1_0000_0000 == 0xffff
}

/// The text of an IPv6 address: the first of the longest runs of two or more zero groups is left
/// out.
pub open spec fn ipv6_text(addr: Ipv6Addr) -> Seq<char> {
    if is_mapped(addr) {
        "::ffff:"@ + ipv4_text(Ipv4Addr { bits: (addr.bits % 0x1_0000_0000) as u32 })
    } else {
        let start = choose|i: int| #[trigger] is_longest_run(addr, i);
        let len = zero_run(addr, start);
        if len > 1 {
            groups_text(addr, 0, start) + "::"@ + groups_text(addr, start + len, 8)
        } else {
            groups_text(addr, 0, 8)
        }
    }
}

fn count_zeros(addr: Ipv6Addr, segments: &[u16; 8], i: usize) -> (len: usize)
    requires
        i <= 8,
        forall|j: int| 0 <= j < 8 ==> segments@[j] == #[trigger] addr.segment(j),
    ensures
        len == zero_run(addr, i as int),
        i + len <= 8,
    decreases 8 - i,
{
    if i < 8 && segments[i] == 0 {
        assert(segments@[i as int] == addr.segment(i as int));
        1 + count_zeros(addr, segments, i + 1)
    } else {
        assert(i < 8 ==> segments@[i as int] == addr.segment(i as int));
        0
    }
}

fn push_groups(out: &mut String, addr: Ipv6Addr, segments: &[u16; 8], from: usize, to: usize)
    requires
        from <= to <= 8,
        forall|j: int| 0 <= j < 8 ==> segments@[j] == #[trigger] addr.segment(j),
    ensures
        final(out)@ == old(out)@ + groups_text(addr, from as int, to as int),
{
    let mut i: usize = from;
    while i < to
        invariant
            from <= i <= to <= 8,
            forall|j: int| 0 <= j < 8 ==> segments@[j] == #[trigger] addr.segment(j),
            out@ == old(out)@ + groups_text(addr, from as int, i as int),
        decreases to - i,
    {
        assert(segments@[i as int] == addr.segment(i as int));
        if i > from {
            push_text(out, ":");
        }
        push_hex(out, segments[i] as u64);
        i = i + 1;
        assert(out@ =~= old(out)@ + groups_text(addr, from as int, i as int));
    }
}

/// There is one longest run.
proof fn lemma_longest_run(addr: Ipv6Addr, i: int, j: int)
    requires
        is_longest_run(addr, i),
        is_longest_run(addr, j),
    ensures
        i == j,
{
    if i < j {
        assert(zero_run(addr, i) < zero_run(addr, j));
    } else if j < i {
        assert(zero_run(addr, j) < zero_run(addr, i));
    }
}

/// Append the text of an IPv6 address.
pub fn push_ipv6(out: &mut String, addr: Ipv6Addr)
    ensures
        final(out)@ == old(out)@ + ipv6_text(addr),
{
    if addr.bits / 0x1_0000_0000 == 0xffff {
        push_text(out, "::ffff:");
        push_ipv4(out, Ipv4Addr { bits: (addr.bits % 0x1_0000_0000) as u32 });
        assert(out@ =~= old(out)@ + ipv6_text(addr));
        return;
    }
    let segments: [u16; 8] = addr.segments();
    let mut start: usize = 0;
    let mut len: usize = count_zeros(addr, &segments, 0);
    let mut i: usize = 1;
    while i < 8
        invariant
            1 <= i <= 8,
            0 <= start < i,
            start + len <= 8,
            forall|j: int| 0 <= j < 8 ==> segments@[j] == #[trigger] addr.segment(j),
            len == zero_run(addr, start as int),
            forall|j: int| 0 <= j < start ==> #[trigger] zero_run(addr, j) < len,
            forall|j: int| start <= j < i ==> #[trigger] zero_run(addr, j) <= len,
        decreases 8 - i,
    {
        let run: usize = count_zeros(addr, &segments, i);
        if run > len {
            start = i;
            len = run;
        }
        i = i + 1;
    }
    proof {
        assert(is_longest_run(addr, start as int));
        let chosen = choose|i: int| #[trigger] is_longest_run(addr, i);
        lemma_longest_run(addr, start as int, chosen);
    }
    if len > 1 {
        push_groups(out, addr, &segments, 0, start);
        push_text(out, "::");
        push_groups(out, addr, &segments, start + len, 8);
        assert(out@ =~= old(out)@ + ipv6_text(addr));
    } else {
        push_groups(out, addr, &segments, 0, 8);
    }
}

/// The text of an IP address.
pub open spec fn ip_text(addr: IpAddr) -> Seq<char> {
    match addr {
        IpAddr::V4(addr) => ipv4_text(addr),
        IpAddr::V6(addr) => ipv6_text(addr),
    }
}

/// Append the text of an IP address.
pub fn push_ip(out: &mut String, addr: IpAddr)
    ensures
        final(out)@ == old(out)@ + ip_text(addr),
{
    match addr {
        IpAddr::V4(addr) => push_ipv4(out, addr),
        IpAddr::V6(addr) => push_ipv6(out, addr),
    }
}

} // verus!
