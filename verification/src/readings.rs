//! What numbers, masks, operators and MAC addresses in filters are read as.

use vstd::prelude::*;

use crate::addr::{Ipv4Addr, Ipv6Addr};
use crate::addr_text::{ipv4_of, ipv4_text, ipv6_text, is_mapped};
use crate::ast::{Direction, HostAddr, NetAddr, RelOp};
use crate::format::mac_text;
use crate::notation::{
    glued, group_texts, law_glued_parts_come_apart, law_ipv4_reads_back, law_ipv6_is_written_short,
    law_ipv6_reads_back, law_only_dotted_is_ipv4, lemma_no_colon,
};
use crate::numerals::{
    digit_worth, is_numeral, law_byte_reads_back, law_digits_are_read, law_hex_digits_are_read,
    worth,
};
use crate::parser::{len_expr, port_expr, portrange_expr};
use crate::text::{hex_byte, hex_digit_value, is_hex_digit, lower};
use crate::values::{
    address_mask, hex_byte_from, hex_byte_of, host_of, mac_from, mac_of, net_of, number_of,
    prefix_mask, relop_of, NetMask,
};

verus! {

/// A number is read as what its digits make up, up to the largest one.
pub proof fn law_numbers_are_read(text: Seq<char>, max: nat, what: Seq<char>)
    requires
        is_numeral(text, 10),
    ensures
        worth(text, 10) <= max ==> number_of(text, max, what) == Ok::<nat, Seq<char>>(
            worth(text, 10),
        ),
        worth(text, 10) > max ==> number_of(text, max, what) is Err,
{
    law_digits_are_read(text);
}

/// The length of a prefix is read as a number of at most 32 for IPv4, and of at most 128 for IPv6.
pub proof fn law_prefixes_are_read(text: Seq<char>, a4: Ipv4Addr, a6: Ipv6Addr)
    requires
        is_numeral(text, 10),
    ensures
        match prefix_mask(text, HostAddr::V4(a4)) {
            Ok(mask) => worth(text, 10) <= 32 && mask == NetMask::Prefix(worth(text, 10) as u8),
            Err(_) => worth(text, 10) > 32,
        },
        match prefix_mask(text, HostAddr::V6(a6)) {
            Ok(mask) => worth(text, 10) <= 128 && mask == NetMask::Prefix(worth(text, 10) as u8),
            Err(_) => worth(text, 10) > 128,
        },
{
    law_digits_are_read(text);
}

/// A mask that is written as an address is read as that address, of the version of the host.
pub proof fn law_masks_are_read(a4: Ipv4Addr, m4: Ipv4Addr, a6: Ipv6Addr, m6: Ipv6Addr)
    ensures
        address_mask(ipv4_text(m4), HostAddr::V4(a4)) == Ok::<NetMask, Seq<char>>(NetMask::V4(m4)),
        address_mask(ipv6_text(m6), HostAddr::V6(a6)) == Ok::<NetMask, Seq<char>>(NetMask::V6(m6)),
        address_mask(ipv6_text(m6), HostAddr::V4(a4)) is Err,
{
    law_ipv4_reads_back(m4);
    law_ipv6_reads_back(m6);
    lemma_not_dotted(m6);
}

/// The text of an address of either version is read as that host.
pub proof fn law_hosts_are_read(a4: Ipv4Addr, a6: Ipv6Addr)
    ensures
        host_of(ipv4_text(a4)) == Ok::<HostAddr, Seq<char>>(HostAddr::V4(a4)),
        host_of(ipv6_text(a6)) == Ok::<HostAddr, Seq<char>>(HostAddr::V6(a6)),
{
    law_ipv4_reads_back(a4);
    law_ipv6_reads_back(a6);
    lemma_not_dotted(a6);
}

/// The text of an IPv6 address holds a colon.
pub proof fn lemma_has_colon(addr: Ipv6Addr)
    ensures
        ipv6_text(addr).contains(':'),
{
    let text = ipv6_text(addr);
    if is_mapped(addr) {
        reveal_strlit("::ffff:");
        assert(text[0] == ':');
    } else {
        law_ipv6_is_written_short(addr);
        let whole = group_texts(addr, 0, 8);
        if text == glued(whole, ':') {
            assert(text == glued(whole.drop_last(), ':') + seq![':'] + whole.last());
            assert(text[glued(whole.drop_last(), ':').len() as int] == ':');
        } else {
            let (start, len) = choose|start: int, len: int|
                text == #[trigger] glued(group_texts(addr, 0, start), ':') + seq![':', ':']
                    + #[trigger] glued(group_texts(addr, start + len, 8), ':');
            assert(text[glued(group_texts(addr, 0, start), ':').len() as int] == ':');
        }
    }
}

/// The text of an IPv6 address is no IPv4 address.
proof fn lemma_not_dotted(addr: Ipv6Addr)
    ensures
        ipv4_of(ipv6_text(addr)) is None,
{
    let text = ipv6_text(addr);
    lemma_has_colon(addr);
    law_only_dotted_is_ipv4(text);
    if ipv4_of(text) is Some {
        lemma_no_colon(ipv4_of(text)->0);
    }
}

/// The operators of comparisons, and what is none.
pub proof fn law_operators_are_read(text: Seq<char>)
    ensures
        relop_of(text) == Some(RelOp::Eq) <==> (text == seq!['='] || text == seq!['=', '=']),
        relop_of(text) == Some(RelOp::Ne) <==> text == seq!['!', '='],
        relop_of(text) == Some(RelOp::Gt) <==> text == seq!['>'],
        relop_of(text) == Some(RelOp::Ge) <==> text == seq!['>', '='],
        relop_of(text) == Some(RelOp::Lt) <==> text == seq!['<'],
        relop_of(text) == Some(RelOp::Le) <==> text == seq!['<', '='],
{
    reveal_strlit("=");
    reveal_strlit("==");
    reveal_strlit("!=");
    reveal_strlit(">");
    reveal_strlit(">=");
    reveal_strlit("<");
    reveal_strlit("<=");
    assert("="@ =~= seq!['=']);
    assert("=="@ =~= seq!['=', '=']);
    assert("!="@ =~= seq!['!', '=']);
    assert(">"@ =~= seq!['>']);
    assert(">="@ =~= seq!['>', '=']);
    assert("<"@ =~= seq!['<']);
    assert("<="@ =~= seq!['<', '=']);
    assert(seq!['='].len() == 1 && seq!['>'].len() == 1 && seq!['<'].len() == 1);
    assert(seq!['=', '='].len() == 2 && seq!['!', '='].len() == 2);
    assert(seq!['>', '='].len() == 2 && seq!['<', '='].len() == 2);
    assert(seq!['='][0] == '=' && seq!['>'][0] == '>' && seq!['<'][0] == '<');
    assert(seq!['=', '='][0] == '=' && seq!['!', '='][0] == '!');
    assert(seq!['>', '='][0] == '>' && seq!['<', '='][0] == '<');
}

/// Keywords are read in either case: a capital letter counts as the small one, 32 places on in
/// ASCII, and nothing else is changed.
pub proof fn law_case_is_ignored(c: char)
    ensures
        'A' <= c <= 'Z' ==> lower(c) as u32 == c as u32 + 32,
        !('A' <= c <= 'Z') ==> lower(c) == c,
{
}

/// A larger number has a longer row of digits before it.
proof fn lemma_prefix_is_less(text: Seq<char>, i: int)
    requires
        0 <= i <= text.len(),
    ensures
        worth(text.take(i), 16) <= worth(text, 16),
    decreases text.len() - i,
{
    if i < text.len() {
        lemma_prefix_is_less(text, i + 1);
        assert(text.take(i + 1).drop_last() =~= text.take(i));
    } else {
        assert(text.take(i) =~= text);
    }
}

proof fn lemma_byte_from(text: Seq<char>, i: int)
    requires
        is_numeral(text, 16),
        0 <= i <= text.len(),
        worth(text.take(i), 16) <= 255,
    ensures
        match hex_byte_from(text, i, worth(text.take(i), 16)) {
            Ok(byte) => worth(text, 16) < 256 && byte == worth(text, 16),
            Err(_) => worth(text, 16) >= 256,
        },
    decreases text.len() - i,
{
    if i < text.len() {
        law_hex_digits_are_read(text);
        assert(digit_worth(text[i]) < 16);
        assert(is_hex_digit(text[i]));
        assert(hex_digit_value(text[i]) == digit_worth(text[i]));
        assert(text.take(i + 1).drop_last() =~= text.take(i));
        assert(worth(text.take(i + 1), 16) == worth(text.take(i), 16) * 16 + hex_digit_value(
            text[i],
        ));
        lemma_prefix_is_less(text, i + 1);
        if worth(text.take(i + 1), 16) <= 255 {
            lemma_byte_from(text, i + 1);
        }
    } else {
        assert(text.take(i) =~= text);
    }
}

/// A row of hexadecimal digits is read as the byte that it makes up, and one beyond 255 is refused.
pub proof fn law_bytes_are_read(text: Seq<char>)
    requires
        is_numeral(text, 16),
    ensures
        match hex_byte_of(text) {
            Ok(byte) => worth(text, 16) < 256 && byte == worth(text, 16),
            Err(_) => worth(text, 16) >= 256,
        },
{
    assert(digit_worth(text[0]) < 16);
    assert(text.take(0) =~= Seq::<char>::empty());
    lemma_byte_from(text, 0);
}

/// A text with a character that is no hexadecimal digit is no byte, but for a plus at its front.
pub proof fn law_only_digits_are_bytes(text: Seq<char>, k: int)
    requires
        0 <= k < text.len(),
        digit_worth(text[k]) >= 16,
        k > 0 || text[0] != '+' || text.len() == 1,
    ensures
        hex_byte_of(text) is Err,
{
    let start: int = if text[0] == '+' && text.len() > 1 {
        1
    } else {
        0
    };
    lemma_no_byte(text, start, 0, k);
}

proof fn lemma_no_byte(text: Seq<char>, i: int, value: nat, k: int)
    requires
        0 <= i <= k < text.len(),
        digit_worth(text[k]) >= 16,
    ensures
        hex_byte_from(text, i, value) is Err,
    decreases text.len() - i,
{
    law_hex_digits_are_read(text);
    assert(!is_hex_digit(text[k]));
    if i < k && is_hex_digit(text[i]) && value * 16 + hex_digit_value(text[i]) <= 255 {
        lemma_no_byte(text, i + 1, value * 16 + hex_digit_value(text[i]), k);
    }
}

/// Up to six bytes with colons between them are read as a MAC address, whose bytes behind them are
/// zero. More than six are refused.
pub proof fn law_macs_are_read(parts: Seq<Seq<char>>)
    requires
        parts.len() > 0,
        forall|i: int|
            0 <= i < parts.len() ==> is_numeral(#[trigger] parts[i], 16) && worth(parts[i], 16)
                < 256,
    ensures
        parts.len() <= 6 ==> (mac_of(glued(parts, ':')) matches Ok(mac) && mac.len() == 6 && forall|
            i: int,
        |
            0 <= i < 6 ==> #[trigger] mac[i] == (if i < parts.len() {
                worth(parts[i], 16)
            } else {
                0
            })),
        parts.len() > 6 ==> mac_of(glued(parts, ':')) is Err,
{
    assert forall|i: int| 0 <= i < parts.len() implies !(#[trigger] parts[i]).contains(':') by {
        let part = parts[i];
        if part.contains(':') {
            let k = choose|k: int| 0 <= k < part.len() && part[k] == ':';
            assert(digit_worth(part[k]) < 16);
        }
    }
    law_glued_parts_come_apart(parts, ':');
    lemma_mac_from(parts, 0, Seq::<u8>::empty());
}

proof fn lemma_mac_from(parts: Seq<Seq<char>>, i: int, before: Seq<u8>)
    requires
        forall|j: int|
            0 <= j < parts.len() ==> is_numeral(#[trigger] parts[j], 16) && worth(parts[j], 16)
                < 256,
        0 <= i <= parts.len(),
        i <= 6,
        before.len() == i,
        forall|j: int| 0 <= j < i ==> #[trigger] before[j] == worth(parts[j], 16),
    ensures
        parts.len() <= 6 ==> (mac_from(parts, i, before) matches Ok(mac) && mac.len() == 6
            && forall|j: int|
            0 <= j < 6 ==> #[trigger] mac[j] == (if j < parts.len() {
                worth(parts[j], 16)
            } else {
                0
            })),
        parts.len() > 6 ==> mac_from(parts, i, before) is Err,
    decreases parts.len() - i,
{
    if i < parts.len() && i < 6 {
        law_bytes_are_read(parts[i]);
        let next = before.push(worth(parts[i], 16) as u8);
        assert forall|j: int| 0 <= j < i + 1 implies #[trigger] next[j] == worth(parts[j], 16) by {
            if j < i {
                assert(next[j] == before[j]);
            }
        }
        lemma_mac_from(parts, i + 1, next);
    } else if i == parts.len() {
        let mac = before + Seq::new((6 - before.len()) as nat, |j: int| 0u8);
        assert forall|j: int| 0 <= j < 6 implies #[trigger] mac[j] == (if j < parts.len() {
            worth(parts[j], 16)
        } else {
            0
        }) by {
            if j < i {
                assert(mac[j] == before[j]);
            }
        }
    }
}

/// The text of a MAC address is read as that address.
pub proof fn law_mac_reads_back(mac: Seq<u8>)
    requires
        mac.len() == 6,
    ensures
        mac_of(mac_text(mac)) == Ok::<Seq<u8>, Seq<char>>(mac),
{
    let parts = Seq::new(6, |i: int| hex_byte(mac[i]));
    assert forall|i: int| 0 <= i < 6 implies is_numeral(#[trigger] parts[i], 16) && worth(
        parts[i],
        16,
    ) == mac[i] by {
        law_byte_reads_back(mac[i]);
    }
    law_macs_are_read(parts);
    lemma_mac_text(mac, parts);
    let found = mac_of(mac_text(mac));
    assert(found is Ok && found->Ok_0 =~= mac);
}

pub proof fn lemma_mac_text(mac: Seq<u8>, parts: Seq<Seq<char>>)
    requires
        mac.len() == 6,
        parts == Seq::new(6, |i: int| hex_byte(mac[i])),
    ensures
        glued(parts, ':') == mac_text(mac),
{
    reveal_with_fuel(glued, 6);
    reveal_strlit(":");
    assert(":"@ =~= seq![':']);
    let p5 = parts.drop_last();
    let p4 = p5.drop_last();
    let p3 = p4.drop_last();
    let p2 = p3.drop_last();
    let p1 = p2.drop_last();
    assert(p1.len() == 1 && p1[0] == hex_byte(mac[0]));
    assert(p2.last() == hex_byte(mac[1]) && p3.last() == hex_byte(mac[2]) && p4.last() == hex_byte(
        mac[3],
    ) && p5.last() == hex_byte(mac[4]) && parts.last() == hex_byte(mac[5]));
}

/// A port beyond 65535, and a range of ports that runs downward, are refused.
pub proof fn law_bad_ports_are_refused(first: Seq<char>, last: Seq<char>, dir: Direction)
    requires
        is_numeral(first, 10),
        is_numeral(last, 10),
    ensures
        port_expr(first, dir) is Err == (worth(first, 10) > 65535),
        portrange_expr(first, last, dir) is Err == (worth(first, 10) > 65535 || worth(last, 10)
            > 65535 || worth(first, 10) > worth(last, 10)),
{
    law_digits_are_read(first);
    law_digits_are_read(last);
}

/// A length beyond 32 bits is refused.
pub proof fn law_bad_lengths_are_refused(text: Seq<char>, op: RelOp)
    requires
        is_numeral(text, 10),
    ensures
        len_expr(op, text) is Err == (worth(text, 10) > 0xffff_ffff),
{
    law_digits_are_read(text);
}

/// What is refused is refused with the reason.
pub proof fn law_refusals_say_why(
    text: Seq<char>,
    max: nat,
    what: Seq<char>,
    a4: Ipv4Addr,
    a6: Ipv6Addr,
    dir: Direction,
)
    ensures
        number_of(text, max, what) matches Err(why) ==> why == what
            + "number too large to fit in target type"@,
        host_of(text) matches Err(why) ==> why == "invalid IP address: "@ + text,
        address_mask(text, HostAddr::V4(a4)) matches Err(why) ==> why
            == "invalid IPv4 mask: invalid IPv4 address syntax"@,
        address_mask(text, HostAddr::V6(a6)) matches Err(why) ==> why
            == "invalid IPv6 mask: invalid IPv6 address syntax"@,
        net_of(HostAddr::V4(a4), NetMask::V6(a6)) == Err::<NetAddr, Seq<char>>(
            "IP address and mask version mismatch"@,
        ),
        port_expr(text, dir) matches Err(why) ==> why == "invalid port: "@
            + "number too large to fit in target type"@,
{
}

/// A prefix that is too long is refused with the limit.
pub proof fn law_long_prefixes_say_why(text: Seq<char>, a4: Ipv4Addr, a6: Ipv6Addr)
    requires
        is_numeral(text, 10),
        worth(text, 10) <= 255,
    ensures
        worth(text, 10) > 32 ==> prefix_mask(text, HostAddr::V4(a4)) == Err::<NetMask, Seq<char>>(
            "IPv4 prefix length must be <= 32"@,
        ),
        worth(text, 10) > 128 ==> prefix_mask(text, HostAddr::V6(a6)) == Err::<NetMask, Seq<char>>(
            "IPv6 prefix length must be <= 128"@,
        ),
{
    law_digits_are_read(text);
}

/// A plus may stand before the digits of a byte.
pub proof fn law_plus_before_a_byte(digits: Seq<char>)
    requires
        is_numeral(digits, 16),
    ensures
        hex_byte_of(seq!['+'] + digits) == hex_byte_of(digits),
{
    let text = seq!['+'] + digits;
    assert(digit_worth(digits[0]) < 16);
    assert(text[0] == '+');
    lemma_shifted_byte(digits, 0, 0);
}

proof fn lemma_shifted_byte(digits: Seq<char>, i: int, value: nat)
    requires
        0 <= i <= digits.len(),
    ensures
        hex_byte_from(seq!['+'] + digits, i + 1, value) == hex_byte_from(digits, i, value),
    decreases digits.len() - i,
{
    let text = seq!['+'] + digits;
    if i < digits.len() {
        assert(text[i + 1] == digits[i]);
        lemma_shifted_byte(digits, i + 1, value * 16 + hex_digit_value(digits[i]));
    }
}

/// A MAC address with a part that is no byte is refused.
pub proof fn law_bad_macs_are_refused(parts: Seq<Seq<char>>, k: int)
    requires
        0 <= k < parts.len(),
        forall|i: int| 0 <= i < parts.len() ==> !(#[trigger] parts[i]).contains(':'),
        hex_byte_of(parts[k]) is Err,
    ensures
        mac_of(glued(parts, ':')) is Err,
{
    law_glued_parts_come_apart(parts, ':');
    lemma_bad_mac(parts, 0, Seq::<u8>::empty(), k);
}

proof fn lemma_bad_mac(parts: Seq<Seq<char>>, i: int, before: Seq<u8>, k: int)
    requires
        0 <= i <= k < parts.len(),
        hex_byte_of(parts[k]) is Err,
    ensures
        mac_from(parts, i, before) is Err,
    decreases parts.len() - i,
{
    if i < 6 && i < k {
        if let Ok(byte) = hex_byte_of(parts[i]) {
            lemma_bad_mac(parts, i + 1, before.push(byte), k);
        }
    }
}

} // verus!
