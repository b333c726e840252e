//! How addresses are written: what is printed reads back, and only that is read.

use vstd::prelude::*;

use crate::addr::{Ipv4Addr, Ipv6Addr};
use crate::addr_text::{
    are_groups, gap_from, group_values, groups_of, groups_text, ipv4_of, ipv4_text, ipv6_from,
    ipv6_of, ipv6_text, is_group, is_longest_run, is_mapped, is_octet, side_of, zero_run, zeros,
};
use crate::numerals::{
    digit_worth, is_numeral, law_decimal_reads_back, law_digits_are_read, law_hex_digits_are_read,
    law_hex_reads_back, law_numerals_are_unique, worth,
};
use crate::text::{decimal, decimal_value, hex, hex_value, is_hex_digit, split};

verus! {

/// Parts of a text with a separator between them.
pub open spec fn glued(parts: Seq<Seq<char>>, sep: char) -> Seq<char>
    decreases parts.len(),
{
    if parts.len() == 0 {
        Seq::<char>::empty()
    } else if parts.len() == 1 {
        parts[0]
    } else {
        glued(parts.drop_last(), sep) + seq![sep] + parts.last()
    }
}

/// The parts of a text between separators make up the text, and none of them holds a separator.
pub proof fn law_split_parts_make_up_the_text(text: Seq<char>, sep: char)
    ensures
        split(text, sep).len() > 0,
        glued(split(text, sep), sep) == text,
        forall|i: int| 0 <= i < split(text, sep).len() ==> !(#[trigger] split(text, sep)[i]).contains(
            sep,
        ),
    decreases text.len(),
{
    let parts = split(text, sep);
    if text.len() == 0 {
        assert(glued(parts, sep) =~= text);
    } else {
        let front = text.drop_last();
        let start = split(front, sep);
        law_split_parts_make_up_the_text(front, sep);
        assert(text =~= front.push(text.last()));
        if text.last() == sep {
            assert(parts.drop_last() =~= start);
            assert(glued(parts, sep) =~= text);
        } else {
            let last = start.last().push(text.last());
            assert(parts.drop_last() =~= start.drop_last());
            assert(parts.last() == last);
            assert(!last.contains(sep)) by {
                assert(!start[start.len() - 1].contains(sep));
                if last.contains(sep) {
                    let k = choose|k: int| 0 <= k < last.len() && last[k] == sep;
                    assert(start.last()[k] == sep);
                }
            }
            assert forall|i: int| 0 <= i < parts.len() implies !(#[trigger] parts[i]).contains(
                sep,
            ) by {
                if i < parts.len() - 1 {
                    assert(parts[i] == start[i]);
                }
            }
            assert(glued(parts, sep) =~= text);
        }
    }
}

/// Parts without a separator that are put together with one come apart again.
pub proof fn law_glued_parts_come_apart(parts: Seq<Seq<char>>, sep: char)
    requires
        parts.len() > 0,
        forall|i: int| 0 <= i < parts.len() ==> !(#[trigger] parts[i]).contains(sep),
    ensures
        split(glued(parts, sep), sep) == parts,
    decreases parts.len(),
{
    if parts.len() == 1 {
        lemma_split_one(parts[0], sep);
        assert(parts =~= seq![parts[0]]);
    } else {
        assert(!parts[parts.len() - 1].contains(sep));
        assert forall|i: int| 0 <= i < parts.len() - 1 implies !(
        #[trigger] parts.drop_last()[i]).contains(sep) by {
            assert(parts.drop_last()[i] == parts[i]);
        }
        law_glued_parts_come_apart(parts.drop_last(), sep);
        lemma_split_last(glued(parts.drop_last(), sep), parts.last(), sep);
        assert(parts.drop_last().push(parts.last()) =~= parts);
    }
}

proof fn lemma_split_one(text: Seq<char>, sep: char)
    requires
        !text.contains(sep),
    ensures
        split(text, sep) == seq![text],
    decreases text.len(),
{
    if text.len() > 0 {
        let front = text.drop_last();
        assert(text[text.len() - 1] == text.last());
        assert(!front.contains(sep)) by {
            if front.contains(sep) {
                let k = choose|k: int| 0 <= k < front.len() && front[k] == sep;
                assert(text[k] == sep);
            }
        }
        lemma_split_one(front, sep);
        assert(front.push(text.last()) =~= text);
        assert(split(text, sep) =~= seq![text]);
    } else {
        assert(text =~= Seq::<char>::empty());
    }
}

proof fn lemma_split_last(text: Seq<char>, tail: Seq<char>, sep: char)
    requires
        !tail.contains(sep),
    ensures
        split(text + seq![sep] + tail, sep) == split(text, sep).push(tail),
    decreases tail.len(),
{
    let all = text + seq![sep] + tail;
    law_split_parts_make_up_the_text(text, sep);
    if tail.len() == 0 {
        assert(all.drop_last() =~= text);
        assert(tail =~= Seq::<char>::empty());
    } else {
        let front = tail.drop_last();
        assert(tail[tail.len() - 1] == tail.last());
        assert(!front.contains(sep)) by {
            if front.contains(sep) {
                let k = choose|k: int| 0 <= k < front.len() && front[k] == sep;
                assert(tail[k] == sep);
            }
        }
        lemma_split_last(text, front, sep);
        assert(all.drop_last() =~= text + seq![sep] + front);
        assert(front.push(tail.last()) =~= tail);
        assert(split(all, sep) =~= split(text, sep).push(tail));
    }
}

proof fn lemma_glued_four(a: Seq<char>, b: Seq<char>, c: Seq<char>, d: Seq<char>, sep: char)
    ensures
        glued(seq![a, b, c, d], sep) == a + seq![sep] + b + seq![sep] + c + seq![sep] + d,
{
    let all = seq![a, b, c, d];
    reveal_with_fuel(glued, 4);
    assert(all.drop_last() =~= seq![a, b, c]);
    assert(seq![a, b, c].drop_last() =~= seq![a, b]);
    assert(seq![a, b].drop_last() =~= seq![a]);
}

/// Whether the text is the number in decimal, without a superfluous zero.
pub open spec fn is_plain(text: Seq<char>, n: nat) -> bool {
    is_numeral(text, 10) && worth(text, 10) == n && (text[0] == '0' ==> text.len() == 1)
}

/// An IPv4 address is written as four numbers below 256 with dots between them, the most
/// significant first.
pub proof fn law_ipv4_is_dotted(addr: Ipv4Addr)
    ensures
        exists|a: Seq<char>, b: Seq<char>, c: Seq<char>, d: Seq<char>|
            {
                &&& #[trigger] is_plain(a, addr.bits as nat / 0x100_0000)
                &&& #[trigger] is_plain(b, addr.bits as nat / 0x1_0000 % 0x100)
                &&& #[trigger] is_plain(c, addr.bits as nat / 0x100 % 0x100)
                &&& #[trigger] is_plain(d, addr.bits as nat % 0x100)
                &&& ipv4_text(addr) == a + seq!['.'] + b + seq!['.'] + c + seq!['.'] + d
            },
{
    let n = addr.bits as nat;
    law_decimal_reads_back(n / 0x100_0000);
    law_decimal_reads_back(n / 0x1_0000 % 0x100);
    law_decimal_reads_back(n / 0x100 % 0x100);
    law_decimal_reads_back(n % 0x100);
    reveal_strlit(".");
    assert("."@ =~= seq!['.']);
    assert(is_plain(decimal(n / 0x100_0000), n / 0x100_0000));
    assert(is_plain(decimal(n / 0x1_0000 % 0x100), n / 0x1_0000 % 0x100));
    assert(is_plain(decimal(n / 0x100 % 0x100), n / 0x100 % 0x100));
    assert(is_plain(decimal(n % 0x100), n % 0x100));
}

/// Four numbers below 256 with dots between them are read as the address with those octets.
pub proof fn law_dotted_is_ipv4(a: Seq<char>, b: Seq<char>, c: Seq<char>, d: Seq<char>)
    requires
        is_plain(a, worth(a, 10)),
        is_plain(b, worth(b, 10)),
        is_plain(c, worth(c, 10)),
        is_plain(d, worth(d, 10)),
        worth(a, 10) < 256,
        worth(b, 10) < 256,
        worth(c, 10) < 256,
        worth(d, 10) < 256,
    ensures
        ipv4_of(a + seq!['.'] + b + seq!['.'] + c + seq!['.'] + d) matches Some(addr) && addr.bits
            == worth(a, 10) * 0x100_0000 + worth(b, 10) * 0x1_0000 + worth(c, 10) * 0x100 + worth(
            d,
            10,
        ),
{
    let parts = seq![a, b, c, d];
    lemma_octet(a);
    lemma_octet(b);
    lemma_octet(c);
    lemma_octet(d);
    assert forall|i: int| 0 <= i < parts.len() implies !(#[trigger] parts[i]).contains('.') by {
        assert(i == 0 || i == 1 || i == 2 || i == 3);
    }
    law_glued_parts_come_apart(parts, '.');
    lemma_glued_four(a, b, c, d, '.');
}

proof fn lemma_octet(text: Seq<char>)
    requires
        is_plain(text, worth(text, 10)),
        worth(text, 10) < 256,
    ensures
        is_octet(text),
        decimal_value(text) == worth(text, 10),
        !text.contains('.'),
        !text.contains(':'),
{
    law_digits_are_read(text);
    law_decimal_reads_back(worth(text, 10));
    let n = worth(text, 10);
    law_numerals_are_unique(text, decimal(n));
    reveal_with_fuel(decimal, 3);
    assert forall|c: char| digit_worth(c) >= 10 implies !#[trigger] text.contains(c) by {
        if text.contains(c) {
            let k = choose|k: int| 0 <= k < text.len() && text[k] == c;
            assert(digit_worth(text[k]) < 10);
        }
    }
}

proof fn lemma_octets_make_up(n: nat)
    requires
        n <= u32::MAX,
    ensures
        n == (n / 0x100_0000) * 0x100_0000 + (n / 0x1_0000 % 0x100) * 0x1_0000 + (n / 0x100 % 0x100)
            * 0x100 + n % 0x100,
        n / 0x100_0000 < 256,
{
    let n1 = n / 0x100;
    let n2 = n1 / 0x100;
    assert(n2 == n / 0x1_0000);
    assert(n2 / 0x100 == n / 0x100_0000);
    assert(n == n1 * 0x100 + n % 0x100);
    assert(n1 == n2 * 0x100 + n1 % 0x100);
}

proof fn lemma_octets_are(a: nat, b: nat, c: nat, d: nat)
    requires
        a < 256,
        b < 256,
        c < 256,
        d < 256,
    ensures
        ({
            let n = a * 0x100_0000 + b * 0x1_0000 + c * 0x100 + d;
            &&& n <= u32::MAX
            &&& n / 0x100_0000 == a
            &&& n / 0x1_0000 % 0x100 == b
            &&& n / 0x100 % 0x100 == c
            &&& n % 0x100 == d
        }),
{
    let n = a * 0x100_0000 + b * 0x1_0000 + c * 0x100 + d;
    assert(n / 0x1_0000 == a * 0x100 + b);
    assert(n / 0x100 == a * 0x1_0000 + b * 0x100 + c);
}

/// The text of an IPv4 address is read as that address.
#[verifier::rlimit(40)]
pub proof fn law_ipv4_reads_back(addr: Ipv4Addr)
    ensures
        ipv4_of(ipv4_text(addr)) == Some(addr),
{
    let n = addr.bits as nat;
    let a = decimal(n / 0x100_0000);
    let b = decimal(n / 0x1_0000 % 0x100);
    let c = decimal(n / 0x100 % 0x100);
    let d = decimal(n % 0x100);
    law_decimal_reads_back(n / 0x100_0000);
    law_decimal_reads_back(n / 0x1_0000 % 0x100);
    law_decimal_reads_back(n / 0x100 % 0x100);
    law_decimal_reads_back(n % 0x100);
    lemma_octets_make_up(n);
    lemma_octets_text(addr);
    law_dotted_is_ipv4(a, b, c, d);
}

proof fn lemma_octets_text(addr: Ipv4Addr)
    ensures
        ({
            let n = addr.bits as nat;
            ipv4_text(addr) == decimal(n / 0x100_0000) + seq!['.'] + decimal(n / 0x1_0000 % 0x100)
                + seq!['.'] + decimal(n / 0x100 % 0x100) + seq!['.'] + decimal(n % 0x100)
        }),
{
    reveal_strlit(".");
    assert("."@ =~= seq!['.']);
}

/// No other text is read as an IPv4 address.
#[verifier::rlimit(40)]
pub proof fn law_only_dotted_is_ipv4(text: Seq<char>)
    ensures
        ipv4_of(text) matches Some(addr) ==> text == ipv4_text(addr),
{
    if ipv4_of(text) is Some {
        let addr = ipv4_of(text)->0;
        let parts = split(text, '.');
        law_split_parts_make_up_the_text(text, '.');
        lemma_canonical(parts[0]);
        lemma_canonical(parts[1]);
        lemma_canonical(parts[2]);
        lemma_canonical(parts[3]);
        assert(parts =~= seq![parts[0], parts[1], parts[2], parts[3]]);
        lemma_glued_four(parts[0], parts[1], parts[2], parts[3], '.');
        lemma_octets_are(
            decimal_value(parts[0]),
            decimal_value(parts[1]),
            decimal_value(parts[2]),
            decimal_value(parts[3]),
        );
        lemma_octets_text(addr);
    }
}

proof fn lemma_canonical(text: Seq<char>)
    requires
        is_octet(text),
    ensures
        text == decimal(decimal_value(text)),
        decimal_value(text) < 256,
{
    law_digits_are_read(text);
    law_decimal_reads_back(decimal_value(text));
    law_numerals_are_unique(text, decimal(decimal_value(text)));
}

/// The number that groups of 16 bits make up, the first of them the most significant.
pub open spec fn groups_number(groups: Seq<u16>) -> nat
    decreases groups.len(),
{
    if groups.len() == 0 {
        0
    } else {
        groups_number(groups.drop_last()) * 0x1_0000 + groups.last() as nat
    }
}

/// Whether the texts show the groups, each in one to four hexadecimal digits.
pub open spec fn show_groups(parts: Seq<Seq<char>>, groups: Seq<u16>) -> bool {
    &&& parts.len() == groups.len()
    &&& forall|i: int|
        0 <= i < parts.len() ==> is_numeral(#[trigger] parts[i], 16) && parts[i].len() <= 4
            && worth(parts[i], 16) == groups[i]
}

#[verifier::rlimit(40)]
proof fn lemma_steps(groups: Seq<u16>, g: Seq<nat>)
    requires
        groups.len() == 8,
        g.len() == 8,
        g[0] == groups[0],
        forall|i: int| 1 <= i < 8 ==> #[trigger] g[i] == g[i - 1] * 0x1_0000 + groups[i],
    ensures
        groups_number(groups) == g[7],
{
    reveal_with_fuel(groups_number, 9);
    let g7 = groups.drop_last();
    let g6 = g7.drop_last();
    let g5 = g6.drop_last();
    let g4 = g5.drop_last();
    let g3 = g4.drop_last();
    let g2 = g3.drop_last();
    let g1 = g2.drop_last();
    assert(groups_number(g1.drop_last()) == 0);
    assert(groups_number(g1) == g[0]);
    assert(groups_number(g2) == g[1]);
    assert(groups_number(g3) == g[2]);
    assert(groups_number(g4) == g[3]);
    assert(groups_number(g5) == g[4]);
    assert(groups_number(g6) == g[5]);
    assert(groups_number(g7) == g[6]);
}

#[verifier::rlimit(40)]
proof fn lemma_number(groups: Seq<u16>)
    requires
        groups.len() == 8,
    ensures
        ipv6_from(groups).bits == groups_number(groups),
{
    let a = groups[0] as nat;
    let b = a * 0x1_0000 + groups[1] as nat;
    let c = b * 0x1_0000 + groups[2] as nat;
    let d = c * 0x1_0000 + groups[3] as nat;
    let e = d * 0x1_0000 + groups[4] as nat;
    let f = e * 0x1_0000 + groups[5] as nat;
    let g = f * 0x1_0000 + groups[6] as nat;
    let h = g * 0x1_0000 + groups[7] as nat;
    lemma_steps(groups, seq![a, b, c, d, e, f, g, h]);
}

/// The groups of an address.
pub open spec fn groups_in(addr: Ipv6Addr) -> Seq<u16> {
    Seq::new(8, |i: int| addr.segment(i))
}

/// The groups of an address make up its number.
#[verifier::rlimit(40)]
pub proof fn law_groups_make_up_the_address(addr: Ipv6Addr)
    ensures
        groups_number(groups_in(addr)) == addr.bits,
{
    let g = groups_in(addr);
    let n = addr.bits as nat;
    let n1 = n / 0x1_0000;
    let n2 = n1 / 0x1_0000;
    let n3 = n2 / 0x1_0000;
    let n4 = n3 / 0x1_0000;
    let n5 = n4 / 0x1_0000;
    let n6 = n5 / 0x1_0000;
    let n7 = n6 / 0x1_0000;
    assert(n2 == n / 0x1_0000_0000);
    assert(n3 == n / 0x1_0000_0000_0000);
    assert(n4 == n / 0x1_0000_0000_0000_0000);
    assert(n5 == n / 0x1_0000_0000_0000_0000_0000);
    assert(n6 == n / 0x1_0000_0000_0000_0000_0000_0000);
    assert(n7 == n / 0x1_0000_0000_0000_0000_0000_0000_0000);
    assert(g[0] == n7);
    assert(g[1] == n6 % 0x1_0000);
    assert(g[2] == n5 % 0x1_0000);
    assert(g[3] == n4 % 0x1_0000);
    assert(g[4] == n3 % 0x1_0000);
    assert(g[5] == n2 % 0x1_0000);
    assert(g[6] == n1 % 0x1_0000);
    assert(g[7] == n % 0x1_0000);
    let steps = seq![n7, n6, n5, n4, n3, n2, n1, n];
    assert(steps[1] == steps[0] * 0x1_0000 + g[1]);
    assert(steps[2] == steps[1] * 0x1_0000 + g[2]);
    assert(steps[3] == steps[2] * 0x1_0000 + g[3]);
    assert(steps[4] == steps[3] * 0x1_0000 + g[4]);
    assert(steps[5] == steps[4] * 0x1_0000 + g[5]);
    assert(steps[6] == steps[5] * 0x1_0000 + g[6]);
    assert(steps[7] == steps[6] * 0x1_0000 + g[7]);
    assert forall|i: int| 1 <= i < 8 implies #[trigger] steps[i] == steps[i - 1] * 0x1_0000 + g[i] by {
        assert(i == 1 || i == 2 || i == 3 || i == 4 || i == 5 || i == 6 || i == 7);
    }
    lemma_steps(g, steps);
}

/// Whether no two colons stand side by side, nor one at the end.
pub open spec fn no_gap(text: Seq<char>) -> bool {
    &&& forall|i: int| 0 <= i < text.len() - 1 ==> !(#[trigger] text[i] == ':' && text[i + 1] == ':')
    &&& text.len() > 0 ==> text.last() != ':'
}

proof fn lemma_no_gap(parts: Seq<Seq<char>>)
    requires
        forall|i: int|
            0 <= i < parts.len() ==> (#[trigger] parts[i]).len() > 0 && !parts[i].contains(':'),
    ensures
        no_gap(glued(parts, ':')),
        parts.len() > 0 ==> glued(parts, ':').len() > 0,
    decreases parts.len(),
{
    let text = glued(parts, ':');
    if parts.len() == 1 {
        let part = parts[0];
        assert forall|i: int| 0 <= i < part.len() implies part[i] != ':' by {
            assert(part.contains(part[i]));
        }
    } else if parts.len() > 1 {
        let front = parts.drop_last();
        assert forall|i: int| 0 <= i < front.len() implies (#[trigger] front[i]).len() > 0
            && !front[i].contains(':') by {
            assert(front[i] == parts[i]);
        }
        lemma_no_gap(front);
        let start = glued(front, ':');
        let last = parts[parts.len() - 1];
        assert(text == start + seq![':'] + last);
        assert forall|i: int| 0 <= i < last.len() implies #[trigger] last[i] != ':' by {
            assert(last.contains(last[i]));
        }
        assert(text.last() == last[last.len() - 1]);
        assert forall|i: int| 0 <= i < text.len() - 1 implies !(#[trigger] text[i] == ':' && text[i
            + 1] == ':') by {
            if i < start.len() - 1 {
                assert(text[i] == start[i] && text[i + 1] == start[i + 1]);
            } else if i == start.len() - 1 {
                assert(text[i] == start.last());
            } else if i >= start.len() {
                assert(text[i + 1] == last[i + 1 - start.len() - 1]);
            }
        }
    }
}

proof fn lemma_gap_none(text: Seq<char>, i: int)
    requires
        no_gap(text),
        0 <= i,
    ensures
        gap_from(text, i) == None::<int>,
    decreases text.len() - i,
{
    if i + 1 < text.len() {
        assert(!(text[i] == ':' && text[i + 1] == ':'));
        lemma_gap_none(text, i + 1);
    }
}

proof fn lemma_gap_some(head: Seq<char>, tail: Seq<char>, i: int)
    requires
        no_gap(head),
        0 <= i <= head.len(),
    ensures
        gap_from(head + seq![':', ':'] + tail, i) == Some(head.len() as int),
    decreases head.len() - i,
{
    let text = head + seq![':', ':'] + tail;
    if i < head.len() {
        assert(text[i] == head[i]);
        if i + 1 < head.len() {
            assert(text[i + 1] == head[i + 1]);
        } else {
            assert(head.last() == head[i]);
        }
        lemma_gap_some(head, tail, i + 1);
    } else {
        assert(text[i] == ':' && text[i + 1] == ':');
    }
}

proof fn lemma_groups_shown(parts: Seq<Seq<char>>, groups: Seq<u16>)
    requires
        show_groups(parts, groups),
    ensures
        are_groups(parts),
        group_values(parts) == groups,
        forall|i: int|
            0 <= i < parts.len() ==> (#[trigger] parts[i]).len() > 0 && !parts[i].contains(':')
                && !parts[i].contains('.'),
{
    assert forall|i: int| 0 <= i < parts.len() implies is_group(#[trigger] parts[i]) && hex_value(
        parts[i],
    ) == groups[i] && parts[i].len() > 0 && !parts[i].contains(':') && !parts[i].contains('.') by {
        let part = parts[i];
        law_hex_digits_are_read(part);
        assert forall|j: int| 0 <= j < part.len() implies is_hex_digit(#[trigger] part[j]) by {
            assert(digit_worth(part[j]) < 16);
        }
        assert forall|c: char| digit_worth(c) >= 16 implies !#[trigger] part.contains(c) by {
            if part.contains(c) {
                let k = choose|k: int| 0 <= k < part.len() && part[k] == c;
                assert(digit_worth(part[k]) < 16);
            }
        }
    }
    assert(group_values(parts) =~= groups);
}

/// What stands at the end of an address: groups, or groups and an IPv4 address in place of the last
/// two.
pub open spec fn is_tail(text: Seq<char>, groups: Seq<u16>) -> bool {
    ||| exists|parts: Seq<Seq<char>>| #[trigger]
        show_groups(parts, groups) && text == glued(parts, ':')
    ||| exists|parts: Seq<Seq<char>>, front: Seq<u16>, v4: Ipv4Addr|
        #[trigger] show_groups(parts, front) && text == glued(
            parts.push(#[trigger] ipv4_text(v4)),
            ':',
        ) && groups == front + seq![
            (v4.bits / 0x1_0000) as u16,
            (v4.bits % 0x1_0000) as u16,
        ]
}

proof fn lemma_side(parts: Seq<Seq<char>>, groups: Seq<u16>, v4_last: bool)
    requires
        show_groups(parts, groups),
    ensures
        side_of(glued(parts, ':'), v4_last) == Some(groups),
        no_gap(glued(parts, ':')),
        parts.len() > 0 ==> groups_of(glued(parts, ':'), v4_last) == Some(groups),
{
    lemma_groups_shown(parts, groups);
    lemma_no_gap(parts);
    if parts.len() > 0 {
        law_glued_parts_come_apart(parts, ':');
        let last = parts.last();
        let front = parts.drop_last();
        assert(parts[parts.len() - 1] == last);
        assert forall|i: int| 0 <= i < front.len() implies is_group(#[trigger] front[i]) by {
            assert(front[i] == parts[i]);
        }
        lemma_split_one(last, '.');
        assert(ipv4_of(last) is None);
    } else {
        assert(groups =~= Seq::<u16>::empty());
    }
}

#[verifier::rlimit(40)]
proof fn lemma_tail(text: Seq<char>, groups: Seq<u16>)
    requires
        is_tail(text, groups),
    ensures
        side_of(text, true) == Some(groups),
        no_gap(text),
        groups.len() > 0 ==> groups_of(text, true) == Some(groups),
{
    if exists|parts: Seq<Seq<char>>| #[trigger]
        show_groups(parts, groups) && text == glued(parts, ':') {
        let parts = choose|parts: Seq<Seq<char>>| #[trigger]
            show_groups(parts, groups) && text == glued(parts, ':');
        lemma_side(parts, groups, true);
    } else {
        let (parts, front, v4) = choose|parts: Seq<Seq<char>>, front: Seq<u16>, v4: Ipv4Addr|
            #[trigger] show_groups(parts, front) && text == glued(
                parts.push(#[trigger] ipv4_text(v4)),
                ':',
            ) && groups == front + seq![
                (v4.bits / 0x1_0000) as u16,
                (v4.bits % 0x1_0000) as u16,
            ];
        let last = ipv4_text(v4);
        let all = parts.push(last);
        lemma_groups_shown(parts, front);
        lemma_no_colon(v4);
        assert forall|i: int| 0 <= i < all.len() implies (#[trigger] all[i]).len() > 0
            && !all[i].contains(':') by {
            if i < parts.len() {
                assert(all[i] == parts[i]);
            }
        }
        lemma_no_gap(all);
        law_glued_parts_come_apart(all, ':');
        assert(all.drop_last() =~= parts);
        law_ipv4_reads_back(v4);
        assert(front.push((v4.bits / 0x1_0000) as u16).push((v4.bits % 0x1_0000) as u16)
            =~= groups);
    }
}

pub proof fn lemma_no_colon(addr: Ipv4Addr)
    ensures
        ipv4_text(addr).len() > 0,
        !ipv4_text(addr).contains(':'),
{
    law_ipv4_is_dotted(addr);
    let (a, b, c, d) = choose|a: Seq<char>, b: Seq<char>, c: Seq<char>, d: Seq<char>|
        {
            &&& #[trigger] is_plain(a, addr.bits as nat / 0x100_0000)
            &&& #[trigger] is_plain(b, addr.bits as nat / 0x1_0000 % 0x100)
            &&& #[trigger] is_plain(c, addr.bits as nat / 0x100 % 0x100)
            &&& #[trigger] is_plain(d, addr.bits as nat % 0x100)
            &&& ipv4_text(addr) == a + seq!['.'] + b + seq!['.'] + c + seq!['.'] + d
        };
    lemma_octet(a);
    lemma_octet(b);
    lemma_octet(c);
    lemma_octet(d);
    let text = ipv4_text(addr);
    if text.contains(':') {
        let k = choose|k: int| 0 <= k < text.len() && text[k] == ':';
        lemma_contains_parts(a, b, c, d, k);
    }
}

proof fn lemma_contains_parts(a: Seq<char>, b: Seq<char>, c: Seq<char>, d: Seq<char>, k: int)
    requires
        0 <= k < (a + seq!['.'] + b + seq!['.'] + c + seq!['.'] + d).len(),
        !a.contains(':'),
        !b.contains(':'),
        !c.contains(':'),
        !d.contains(':'),
    ensures
        (a + seq!['.'] + b + seq!['.'] + c + seq!['.'] + d)[k] != ':',
{
    let text = a + seq!['.'] + b + seq!['.'] + c + seq!['.'] + d;
    let p = (a.len() + 1) as int;
    let q = (p + b.len() + 1) as int;
    let r = (q + c.len() + 1) as int;
    if k < a.len() {
        assert(text[k] == a[k] && a.contains(a[k]));
    } else if k == a.len() {
    } else if k < p + b.len() {
        assert(text[k] == b[k - p] && b.contains(b[k - p]));
    } else if k == p + b.len() {
    } else if k < q + c.len() {
        assert(text[k] == c[k - q] && c.contains(c[k - q]));
    } else if k == q + c.len() {
    } else {
        assert(text[k] == d[k - r] && d.contains(d[k - r]));
    }
}

/// Eight groups with colons between them, an IPv4 address possibly in place of the last two, are
/// read as the address that they make up.
pub proof fn law_eight_groups_are_ipv6(text: Seq<char>, groups: Seq<u16>)
    requires
        is_tail(text, groups),
    ensures
        groups.len() == 8 ==> (ipv6_of(text) matches Some(addr) && addr.bits == groups_number(
            groups,
        )),
        groups.len() != 8 && groups.len() > 0 ==> ipv6_of(text) is None,
{
    lemma_tail(text, groups);
    lemma_gap_none(text, 0);
    if groups.len() == 8 {
        lemma_number(groups);
    }
}

/// Two colons stand for as many groups of zero as there are fewer than eight on both sides of them,
/// at least one.
#[verifier::rlimit(40)]
pub proof fn law_two_colons_are_zeros(
    head: Seq<Seq<char>>,
    first: Seq<u16>,
    tail: Seq<char>,
    last: Seq<u16>,
)
    requires
        show_groups(head, first),
        is_tail(tail, last),
    ensures
        first.len() + last.len() <= 7 ==> (ipv6_of(glued(head, ':') + seq![':', ':'] + tail) matches Some(
            addr,
        ) && addr.bits == groups_number(
            first + Seq::new((8 - first.len() - last.len()) as nat, |i: int| 0u16) + last,
        )),
        first.len() + last.len() > 7 ==> ipv6_of(glued(head, ':') + seq![':', ':'] + tail) is None,
{
    let start = glued(head, ':');
    let text = start + seq![':', ':'] + tail;
    lemma_side(head, first, false);
    lemma_tail(tail, last);
    lemma_gap_some(start, tail, 0);
    assert(text.take(start.len() as int) =~= start);
    assert(text.skip((start.len() + 2) as int) =~= tail);
    if first.len() + last.len() <= 7 {
        let fill = zeros(8 - first.len() - last.len());
        assert(fill =~= Seq::new((8 - first.len() - last.len()) as nat, |i: int| 0u16));
        lemma_number(first + fill + last);
    }
}

/// There is a first longest run of zero groups among the first `n`.
proof fn lemma_longest_exists(addr: Ipv6Addr, n: int) -> (at: int)
    requires
        1 <= n <= 8,
    ensures
        0 <= at < n,
        forall|j: int| 0 <= j < at ==> #[trigger] zero_run(addr, j) < zero_run(addr, at),
        forall|j: int| at <= j < n ==> #[trigger] zero_run(addr, j) <= zero_run(addr, at),
    decreases n,
{
    if n == 1 {
        0
    } else {
        let best = lemma_longest_exists(addr, n - 1);
        if zero_run(addr, n - 1) > zero_run(addr, best) {
            n - 1
        } else {
            best
        }
    }
}

proof fn lemma_zero_run(addr: Ipv6Addr, i: int)
    requires
        0 <= i <= 8,
    ensures
        0 <= zero_run(addr, i) <= 8 - i,
        forall|j: int| i <= j < i + zero_run(addr, i) ==> #[trigger] addr.segment(j) == 0,
        i + zero_run(addr, i) < 8 ==> addr.segment(i + zero_run(addr, i)) != 0,
    decreases 8 - i,
{
    if i < 8 && addr.segment(i) == 0 {
        lemma_zero_run(addr, i + 1);
    }
}

/// The texts of the groups from one index up to another.
pub open spec fn group_texts(addr: Ipv6Addr, from: int, to: int) -> Seq<Seq<char>> {
    Seq::new((to - from) as nat, |i: int| hex(addr.segment(from + i) as nat))
}

proof fn lemma_groups_text(addr: Ipv6Addr, from: int, to: int)
    requires
        0 <= from <= to <= 8,
    ensures
        groups_text(addr, from, to) == glued(group_texts(addr, from, to), ':'),
        show_groups(group_texts(addr, from, to), groups_in(addr).subrange(from, to)),
    decreases to - from,
{
    let parts = group_texts(addr, from, to);
    let groups = groups_in(addr).subrange(from, to);
    assert forall|i: int| 0 <= i < parts.len() implies is_numeral(#[trigger] parts[i], 16)
        && parts[i].len() <= 4 && worth(parts[i], 16) == groups[i] by {
        law_hex_reads_back(addr.segment(from + i) as nat);
    }
    reveal_strlit(":");
    assert(":"@ =~= seq![':']);
    if from + 1 < to {
        lemma_groups_text(addr, from, to - 1);
        assert(parts.drop_last() =~= group_texts(addr, from, to - 1));
    }
}

/// The groups of an address are written in hexadecimal without superfluous zeros. The first of the
/// longest runs of two or more zero groups is left out, and two colons stand in its place.
#[verifier::rlimit(40)]
pub proof fn law_ipv6_is_written_short(addr: Ipv6Addr)
    requires
        addr.bits / 0x1_0000_0000 != 0xffff,
    ensures
        (exists|start: int, len: int|
            {
                &&& 0 <= start && 2 <= len && start + len <= 8
                &&& forall|j: int| start <= j < start + len ==> #[trigger] groups_in(addr)[j] == 0
                &&& forall|i: int, n: int|
                    0 <= i && 0 < n && i + n <= 8 && #[trigger] groups_in(addr).subrange(i, i + n)
                        == Seq::new(n as nat, |k: int| 0u16) ==> n < len || (n == len && start <= i)
                &&& ipv6_text(addr) == #[trigger] glued(group_texts(addr, 0, start), ':') + seq![
                    ':',
                    ':',
                ] + #[trigger] glued(group_texts(addr, start + len, 8), ':')
            }) || ((forall|j: int|
            0 <= j < 7 ==> !(#[trigger] groups_in(addr)[j] == 0 && groups_in(addr)[j + 1] == 0))
            && ipv6_text(addr) == glued(group_texts(addr, 0, 8), ':')),
{
    let at = lemma_longest_exists(addr, 8);
    assert(is_longest_run(addr, at));
    let start = choose|i: int| #[trigger] is_longest_run(addr, i);
    let len = zero_run(addr, start);
    lemma_zero_run(addr, start);
    let groups = groups_in(addr);
    assert forall|i: int, n: int|
        0 <= i && 0 < n && i + n <= 8 && #[trigger] groups.subrange(i, i + n) == Seq::new(
            n as nat,
            |k: int| 0u16,
        ) implies n < len || (n == len && start <= i) by {
        lemma_run_counts(addr, i, n);
        assert(zero_run(addr, i) >= n);
    }
    if len > 1 {
        lemma_groups_text(addr, 0, start);
        lemma_groups_text(addr, start + len, 8);
        reveal_strlit("::");
        assert("::"@ =~= seq![':', ':']);
    } else {
        lemma_groups_text(addr, 0, 8);
        assert forall|j: int| 0 <= j < 7 implies !(#[trigger] groups[j] == 0 && groups[j + 1]
            == 0) by {
            if groups[j] == 0 && groups[j + 1] == 0 {
                assert(groups.subrange(j, j + 2) =~= Seq::new(2, |k: int| 0u16));
            }
        }
    }
}

proof fn lemma_run_counts(addr: Ipv6Addr, i: int, n: int)
    requires
        0 <= i,
        0 <= n,
        i + n <= 8,
        groups_in(addr).subrange(i, i + n) == Seq::new(n as nat, |k: int| 0u16),
    ensures
        zero_run(addr, i) >= n,
    decreases n,
{
    lemma_zero_run(addr, i);
    if n > 0 {
        let run = groups_in(addr).subrange(i, i + n);
        assert(run[0] == 0);
        assert(addr.segment(i) == 0);
        let rest = groups_in(addr).subrange(i + 1, i + 1 + (n - 1));
        assert forall|k: int| 0 <= k < n - 1 implies #[trigger] rest[k] == 0 by {
            assert(run[k + 1] == 0);
        }
        assert(rest =~= Seq::new((n - 1) as nat, |k: int| 0u16));
        lemma_run_counts(addr, i + 1, n - 1);
    }
}

/// The text of an IPv6 address is read as that address.
#[verifier::rlimit(40)]
pub proof fn law_ipv6_reads_back(addr: Ipv6Addr)
    ensures
        ipv6_of(ipv6_text(addr)) == Some(addr),
{
    law_groups_make_up_the_address(addr);
    let groups = groups_in(addr);
    if is_mapped(addr) {
        lemma_mapped_reads_back(addr);
    } else {
        let at = lemma_longest_exists(addr, 8);
        assert(is_longest_run(addr, at));
        let start = choose|i: int| #[trigger] is_longest_run(addr, i);
        let len = zero_run(addr, start);
        lemma_zero_run(addr, start);
        if len > 1 {
            lemma_groups_text(addr, 0, start);
            lemma_groups_text(addr, start + len, 8);
            let head = group_texts(addr, 0, start);
            let tail = group_texts(addr, start + len, 8);
            let first = groups.subrange(0, start);
            let last = groups.subrange(start + len, 8);
            assert(is_tail(glued(tail, ':'), last));
            law_two_colons_are_zeros(head, first, glued(tail, ':'), last);
            let fill = Seq::new((8 - first.len() - last.len()) as nat, |i: int| 0u16);
            assert forall|j: int| 0 <= j < 8 implies (first + fill + last)[j] == groups[j] by {
                if start <= j < start + len {
                    assert(addr.segment(j) == 0);
                }
            }
            assert(first + fill + last =~= groups);
            reveal_strlit("::");
            assert("::"@ =~= seq![':', ':']);
        } else {
            lemma_groups_text(addr, 0, 8);
            assert(groups.subrange(0, 8) =~= groups);
            assert(is_tail(glued(group_texts(addr, 0, 8), ':'), groups));
            law_eight_groups_are_ipv6(glued(group_texts(addr, 0, 8), ':'), groups);
        }
    }
}

#[verifier::rlimit(40)]
proof fn lemma_mapped_groups(addr: Ipv6Addr)
    requires
        is_mapped(addr),
    ensures
        ({
            let low = (addr.bits % 0x1_0000_0000) as u32;
            groups_in(addr) == seq![
                0u16,
                0,
                0,
                0,
                0,
                0xffff,
                (low / 0x1_0000) as u16,
                (low % 0x1_0000) as u16,
            ]
        }),
{
    let n = addr.bits as int;
    let low = n % 0x1_0000_0000;
    assert(n == 0xffff_0000_0000 + low);
    assert(n / 0x1_0000 == 0xffff_0000 + low / 0x1_0000);
    assert(n / 0x1_0000 % 0x1_0000 == low / 0x1_0000);
    assert(n % 0x1_0000 == low % 0x1_0000);
    assert(addr.segment(0) == 0 && addr.segment(1) == 0 && addr.segment(2) == 0 && addr.segment(3)
        == 0 && addr.segment(4) == 0 && addr.segment(5) == 0xffff);
    assert(addr.segment(6) == low / 0x1_0000 && addr.segment(7) == low % 0x1_0000);
}

#[verifier::rlimit(40)]
proof fn lemma_mapped_reads_back(addr: Ipv6Addr)
    requires
        is_mapped(addr),
    ensures
        ipv6_of(ipv6_text(addr)) == Some(addr),
{
    let v4 = Ipv4Addr { bits: (addr.bits % 0x1_0000_0000) as u32 };
    let last = seq![0xffffu16, (v4.bits / 0x1_0000) as u16, (v4.bits % 0x1_0000) as u16];
    let tail = seq!['f', 'f', 'f', 'f'] + seq![':'] + ipv4_text(v4);
    lemma_mapped_tail(v4);
    let none = Seq::<Seq<char>>::empty();
    let no_groups = Seq::<u16>::empty();
    assert(show_groups(none, no_groups));
    law_two_colons_are_zeros(none, no_groups, tail, last);
    lemma_mapped_text(ipv4_text(v4), tail);
    let found = ipv6_of(ipv6_text(addr));
    assert(found is Some && found->0.bits == groups_number(
        no_groups + Seq::new(5, |i: int| 0u16) + last,
    ));
    lemma_mapped_groups(addr);
    assert(no_groups + Seq::new(5, |i: int| 0u16) + last =~= groups_in(addr));
    law_groups_make_up_the_address(addr);
}

proof fn lemma_mapped_tail(v4: Ipv4Addr)
    ensures
        is_tail(
            seq!['f', 'f', 'f', 'f'] + seq![':'] + ipv4_text(v4),
            seq![0xffffu16, (v4.bits / 0x1_0000) as u16, (v4.bits % 0x1_0000) as u16],
        ),
{
    let text = ipv4_text(v4);
    let ffff = seq!['f', 'f', 'f', 'f'];
    let parts = seq![ffff];
    let front = seq![0xffffu16];
    lemma_ffff();
    assert(show_groups(parts, front));
    let low = seq![(v4.bits / 0x1_0000) as u16, (v4.bits % 0x1_0000) as u16];
    let last = seq![0xffffu16, (v4.bits / 0x1_0000) as u16, (v4.bits % 0x1_0000) as u16];
    assert(last =~= front + low);
    reveal_with_fuel(glued, 2);
    assert(parts.push(text).drop_last() =~= parts);
    assert(parts.push(text).last() == text);
    assert(glued(parts, ':') == ffff);
    assert(glued(parts.push(text), ':') == ffff + seq![':'] + text);
    assert(is_tail(ffff + seq![':'] + text, last));
}

proof fn lemma_mapped_text(text: Seq<char>, tail: Seq<char>)
    requires
        tail == seq!['f', 'f', 'f', 'f'] + seq![':'] + text,
    ensures
        glued(Seq::<Seq<char>>::empty(), ':') + seq![':', ':'] + tail == "::ffff:"@ + text,
{
    reveal_strlit("::ffff:");
    assert(glued(Seq::<Seq<char>>::empty(), ':') + seq![':', ':'] + tail =~= "::ffff:"@ + text);
}

proof fn lemma_ffff()
    ensures
        is_numeral(seq!['f', 'f', 'f', 'f'], 16),
        worth(seq!['f', 'f', 'f', 'f'], 16) == 0xffff,
{
    let text = seq!['f', 'f', 'f', 'f'];
    reveal_with_fuel(worth, 5);
    assert(text.drop_last() =~= seq!['f', 'f', 'f']);
    assert(text.drop_last().drop_last() =~= seq!['f', 'f']);
    assert(text.drop_last().drop_last().drop_last() =~= seq!['f']);
    assert(text.drop_last().drop_last().drop_last().drop_last() =~= Seq::<char>::empty());
}

/// A row of up to four hexadecimal digits is a number of 16 bits.
proof fn lemma_group_fits(text: Seq<char>)
    requires
        is_numeral(text, 16),
        text.len() <= 4,
    ensures
        worth(text, 16) <= 0xffff,
{
    reveal_with_fuel(worth, 5);
    let t3 = text.drop_last();
    let t2 = t3.drop_last();
    let t1 = t2.drop_last();
    assert(digit_worth(text[text.len() - 1]) < 16);
    assert(text.len() > 1 ==> digit_worth(text[text.len() - 2]) < 16 && t3.last() == text[text.len()
        - 2]);
    assert(text.len() > 2 ==> digit_worth(text[text.len() - 3]) < 16 && t2.last() == text[text.len()
        - 3]);
    assert(text.len() > 3 ==> digit_worth(text[text.len() - 4]) < 16 && t1.last() == text[text.len()
        - 4]);
}

proof fn lemma_groups_show(parts: Seq<Seq<char>>)
    requires
        are_groups(parts),
    ensures
        show_groups(parts, group_values(parts)),
{
    assert forall|i: int| 0 <= i < parts.len() implies is_numeral(#[trigger] parts[i], 16)
        && parts[i].len() <= 4 && worth(parts[i], 16) == group_values(parts)[i] by {
        let part = parts[i];
        assert(is_group(part));
        law_hex_digits_are_read(part);
        assert forall|j: int| 0 <= j < part.len() implies digit_worth(#[trigger] part[j]) < 16 by {
            assert(is_hex_digit(part[j]));
        }
        lemma_group_fits(part);
    }
}

/// What is read as groups is written as such.
proof fn lemma_only_groups(text: Seq<char>, v4_last: bool)
    requires
        groups_of(text, v4_last) is Some,
    ensures
        v4_last ==> is_tail(text, groups_of(text, v4_last)->0),
        !v4_last ==> show_groups(split(text, ':'), groups_of(text, v4_last)->0) && text == glued(
            split(text, ':'),
            ':',
        ),
{
    let parts = split(text, ':');
    let front = parts.drop_last();
    let last = parts.last();
    law_split_parts_make_up_the_text(text, ':');
    lemma_groups_show(front);
    assert(parts =~= front.push(last));
    if v4_last && ipv4_of(last) is Some {
        let v4 = ipv4_of(last)->0;
        law_only_dotted_is_ipv4(last);
        let groups = groups_of(text, v4_last)->0;
        assert(groups =~= group_values(front) + seq![
            (v4.bits / 0x1_0000) as u16,
            (v4.bits % 0x1_0000) as u16,
        ]);
        assert(show_groups(front, group_values(front)));
        assert(text == glued(front.push(ipv4_text(v4)), ':'));
    } else {
        assert(are_groups(parts)) by {
            assert forall|i: int| 0 <= i < parts.len() implies is_group(#[trigger] parts[i]) by {
                if i < front.len() {
                    assert(is_group(front[i]));
                }
            }
        }
        lemma_groups_show(parts);
    }
}

proof fn lemma_gap_is_there(text: Seq<char>, i: int)
    requires
        0 <= i,
        gap_from(text, i) is Some,
    ensures
        i <= gap_from(text, i)->0,
        gap_from(text, i)->0 + 1 < text.len(),
        text[gap_from(text, i)->0] == ':',
        text[gap_from(text, i)->0 + 1] == ':',
    decreases text.len() - i,
{
    if i + 1 < text.len() && !(text[i] == ':' && text[i + 1] == ':') {
        lemma_gap_is_there(text, i + 1);
    }
}

/// Whether the text is made of groups on both sides of two colons.
pub open spec fn has_two_colons(
    text: Seq<char>,
    head: Seq<Seq<char>>,
    first: Seq<u16>,
    tail: Seq<char>,
    last: Seq<u16>,
) -> bool {
    &&& text == glued(head, ':') + seq![':', ':'] + tail
    &&& show_groups(head, first)
    &&& is_tail(tail, last)
    &&& first.len() + last.len() <= 7
}

/// Nothing but eight groups, or fewer on both sides of two colons, is read as an IPv6 address.
#[verifier::rlimit(40)]
pub proof fn law_only_groups_are_ipv6(text: Seq<char>)
    requires
        ipv6_of(text) is Some,
    ensures
        (exists|groups: Seq<u16>| #[trigger] is_tail(text, groups) && groups.len() == 8) || (exists|
            head: Seq<Seq<char>>,
            first: Seq<u16>,
            tail: Seq<char>,
            last: Seq<u16>,
        | #[trigger]
            has_two_colons(text, head, first, tail, last)),
{
    match gap_from(text, 0) {
        None => {
            lemma_only_groups(text, true);
            assert(is_tail(text, groups_of(text, true)->0));
        },
        Some(i) => {
            lemma_gap_is_there(text, 0);
            let before = text.take(i);
            let after = text.skip(i + 2);
            let first = side_of(before, false)->0;
            let last = side_of(after, true)->0;
            assert(text =~= before + seq![':', ':'] + after);
            let head = if before.len() == 0 {
                Seq::<Seq<char>>::empty()
            } else {
                split(before, ':')
            };
            if before.len() == 0 {
                assert(before =~= glued(head, ':'));
                assert(show_groups(head, first));
            } else {
                lemma_only_groups(before, false);
            }
            if after.len() == 0 {
                let none = Seq::<Seq<char>>::empty();
                assert(after =~= glued(none, ':'));
                assert(show_groups(none, last));
                assert(is_tail(after, last));
            } else {
                lemma_only_groups(after, true);
            }
            assert(has_two_colons(text, head, first, after, last));
        },
    }
}

/// An address that stands for an IPv4 address is written as that one behind `::ffff:`.
pub proof fn law_mapped_is_dotted(addr: Ipv6Addr)
    requires
        addr.bits / 0x1_0000_0000 == 0xffff,
    ensures
        ipv6_text(addr) == seq![':', ':', 'f', 'f', 'f', 'f', ':'] + ipv4_text(
            Ipv4Addr { bits: (addr.bits - 0xffff_0000_0000) as u32 },
        ),
{
    reveal_strlit("::ffff:");
    assert("::ffff:"@ =~= seq![':', ':', 'f', 'f', 'f', 'f', ':']);
    assert(addr.bits % 0x1_0000_0000 == addr.bits - 0xffff_0000_0000);
}

} // verus!
