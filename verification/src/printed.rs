//! What the printed line of a packet says of its bytes.

use vstd::prelude::*;

use crate::addr::IpAddr;
use crate::ast::transport_off;
use crate::clock::{date_time_text, delta_text, time_text};
use crate::fields::{big_endian, field, law_reads_are_big_endian, lemma_ports_at, ports_at};
use crate::format::{
    addr_port_text, ascii_dump, flag_text, flags_text, hex_ascii_dump, hex_dump, mac_text,
    port_text, protocol_text,
};
use crate::numerals::{
    is_numeral, law_byte_reads_back, law_decimal_reads_back, law_hex_reads_back,
    law_padded_number_reads_back, law_padding_is_only_filling, worth,
};
use crate::packet::{info_in_place, Packet, PacketInfo, PacketMeta};
use crate::print::{
    ascii_text, ctx_behind, ends_text, hex_text, ip_details, lead_text, len_text, line_text,
    link_text, middle_text, number_text, packet_text, proto_text, stamp_text, tcp_details,
    tcp_start, PktCtx, PrintOptions,
};
use crate::text::{decimal, hex, hex_byte, pad_left};

verus! {

/// Whether the text is the number in decimal, without a superfluous zero.
pub open spec fn is_number(text: Seq<char>, n: int) -> bool {
    is_numeral(text, 10) && worth(text, 10) == n && (text[0] == '0' ==> n == 0 && text.len() == 1)
}

pub proof fn lemma_number(n: nat)
    ensures
        is_number(decimal(n), n as int),
{
    law_decimal_reads_back(n);
}

/// The place of a flag's letter in the order of the letters.
pub open spec fn flag_rank(letter: char) -> int {
    if letter == 'F' {
        0
    } else if letter == 'S' {
        1
    } else if letter == 'R' {
        2
    } else if letter == 'P' {
        3
    } else if letter == '.' {
        4
    } else if letter == 'U' {
        5
    } else {
        6
    }
}

/// Whether the letters are in the order of their bits, none of them above a rank.
#[verifier::opaque]
pub open spec fn letters_in_order(text: Seq<char>, top: int) -> bool {
    &&& forall|i: int, j: int|
        0 <= i < j < text.len() ==> flag_rank(#[trigger] text[i]) < flag_rank(#[trigger] text[j])
    &&& forall|i: int| 0 <= i < text.len() ==> flag_rank(#[trigger] text[i]) <= top
}

/// The letter of each of the six low flags is there just where its bit is set, the letters are in
/// the order of their bits, and a dash stands alone where none of the six is set.
pub proof fn law_flags_show_the_bits(flags: u8)
    ensures
        ({
            let text = flags_text(flags);
            &&& flags % 64 != 0 ==> {
                &&& letters_in_order(text, 5)
                &&& text.contains('F') == (flags % 2 == 1)
                &&& text.contains('S') == (flags / 2 % 2 == 1)
                &&& text.contains('R') == (flags / 4 % 2 == 1)
                &&& text.contains('P') == (flags / 8 % 2 == 1)
                &&& text.contains('.') == (flags / 16 % 2 == 1)
                &&& text.contains('U') == (flags / 32 % 2 == 1)
            }
            &&& flags % 64 == 0 ==> text == seq!['-']
        }),
{
    assert((flags & 0x01 != 0) == (flags % 2 == 1) && (flags & 0x02 != 0) == (flags / 2 % 2 == 1)
        && (flags & 0x04 != 0) == (flags / 4 % 2 == 1) && (flags & 0x08 != 0) == (flags / 8 % 2
        == 1) && (flags & 0x10 != 0) == (flags / 16 % 2 == 1) && (flags & 0x20 != 0) == (flags / 32
        % 2 == 1)) by (bit_vector);
    let none = Seq::<char>::empty();
    assert(letters_in_order(none, -1)) by {
        reveal(letters_in_order);
    }
    let one = lemma_letter(none, flags, 0x01, 'F');
    let two = lemma_letter(one, flags, 0x02, 'S');
    let three = lemma_letter(two, flags, 0x04, 'R');
    let four = lemma_letter(three, flags, 0x08, 'P');
    let five = lemma_letter(four, flags, 0x10, '.');
    let six = lemma_letter(five, flags, 0x20, 'U');
    assert(none + flag_text(flags, 0x01, 'F') =~= flag_text(flags, 0x01, 'F'));
    if flags % 64 == 0 {
        assert(six.len() == 0);
    } else {
        assert(six.len() > 0);
    }
}

/// One more letter behind letters of lower ranks.
proof fn lemma_letter(front: Seq<char>, flags: u8, bit: u8, letter: char) -> (all: Seq<char>)
    requires
        letters_in_order(front, flag_rank(letter) - 1),
    ensures
        all == front + flag_text(flags, bit, letter),
        letters_in_order(all, flag_rank(letter)),
        forall|c: char|
            #[trigger] all.contains(c) == (front.contains(c) || (c == letter && flags & bit != 0)),
        all.len() == front.len() + (if flags & bit != 0 {
            1int
        } else {
            0
        }),
{
    reveal(letters_in_order);
    let all = front + flag_text(flags, bit, letter);
    assert forall|c: char| #[trigger] all.contains(c) == (front.contains(c) || (c == letter && flags
        & bit != 0)) by {
        if front.contains(c) {
            let i = choose|i: int| 0 <= i < front.len() && front[i] == c;
            assert(all[i] == c);
        }
        if c == letter && flags & bit != 0 {
            assert(all[front.len() as int] == c);
        }
        if all.contains(c) {
            let i = choose|i: int| 0 <= i < all.len() && all[i] == c;
            if i < front.len() {
                assert(front[i] == c);
            }
        }
    }
    all
}

/// Whether the text is that of TCP details: the flags of a byte, and three numbers.
pub open spec fn shows_tcp(text: Seq<char>, flags: u8, seq: int, ack: int, win: int) -> bool {
    exists|s: Seq<char>, a: Seq<char>, w: Seq<char>|
        {
            &&& #[trigger] is_number(s, seq)
            &&& #[trigger] is_number(a, ack)
            &&& #[trigger] is_number(w, win)
            &&& text == seq![' '] + flags_text(flags) + seq![' ', 's', 'e', 'q', ' '] + s + seq![
                ' ',
                'a',
                'c',
                'k',
                ' ',
            ] + a + seq![' ', 'w', 'i', 'n', ' '] + w
        }
}

/// The TCP details of an IPv6 packet are those of the header behind its 54 bytes: the flags of byte
/// 67, the sequence number in the bytes from 58 on, the acknowledgement from 62 on and the window
/// from 68 on. A shorter packet shows none.
pub proof fn law_tcp_details_of_ipv6(data: Seq<u8>, info: PacketInfo)
    requires
        info.ethertype == Some(0x86ddu16),
        info.protocol == Some(6u8),
    ensures
        data.len() >= 74 ==> shows_tcp(
            tcp_details(data, info),
            data[67],
            field(data, 58, 4) as int,
            field(data, 62, 4) as int,
            field(data, 68, 2) as int,
        ),
        data.len() < 74 ==> tcp_details(data, info).len() == 0,
{
    lemma_tcp(data, info, 54);
}

/// The TCP details of an IPv4 packet are those of the header behind the IPv4 header, whose length
/// is four times the low half of its first byte. A packet in which that header does not lie whole
/// shows none.
pub proof fn law_tcp_details_of_ipv4(data: Seq<u8>, info: PacketInfo)
    requires
        info.ethertype == Some(0x0800u16),
        info.protocol == Some(6u8),
        data.len() >= 34,
    ensures
        ({
            let start = 14 + 4 * (data[14] as int % 16);
            &&& data.len() >= start + 20 ==> shows_tcp(
                tcp_details(data, info),
                data[start + 13],
                field(data, start + 4, 4) as int,
                field(data, start + 8, 4) as int,
                field(data, start + 14, 2) as int,
            )
            &&& data.len() < start + 20 ==> tcp_details(data, info).len() == 0
        }),
{
    let first = data[14];
    assert(first & 0x0f == first % 16) by (bit_vector);
    lemma_tcp(data, info, 14 + 4 * (data[14] as int % 16));
}

#[verifier::rlimit(40)]
proof fn lemma_tcp(data: Seq<u8>, info: PacketInfo, start: int)
    requires
        info.protocol == Some(6u8),
        start == tcp_start(data, info),
        data.len() >= 34 || start == 54,
        start >= 14,
    ensures
        data.len() >= start + 20 && data.len() >= 34 ==> shows_tcp(
            tcp_details(data, info),
            data[start + 13],
            field(data, start + 4, 4) as int,
            field(data, start + 8, 4) as int,
            field(data, start + 14, 2) as int,
        ),
        data.len() < start + 20 ==> tcp_details(data, info).len() == 0,
{
    law_reads_are_big_endian(data, start + 4);
    law_reads_are_big_endian(data, start + 8);
    law_reads_are_big_endian(data, start + 14);
    let s = field(data, start + 4, 4);
    let a = field(data, start + 8, 4);
    let w = field(data, start + 14, 2);
    lemma_number(s);
    lemma_number(a);
    lemma_number(w);
    reveal_strlit(" ");
    reveal_strlit(" seq ");
    reveal_strlit(" ack ");
    reveal_strlit(" win ");
    assert(" "@ =~= seq![' ']);
    assert(" seq "@ =~= seq![' ', 's', 'e', 'q', ' ']);
    assert(" ack "@ =~= seq![' ', 'a', 'c', 'k', ' ']);
    assert(" win "@ =~= seq![' ', 'w', 'i', 'n', ' ']);
    if data.len() >= start + 20 && data.len() >= 34 {
        assert(is_number(decimal(s), s as int) && is_number(decimal(a), a as int) && is_number(
            decimal(w),
            w as int,
        ));
    }
}

/// A packet that is not TCP has no TCP details.
pub proof fn law_tcp_details_are_of_tcp(data: Seq<u8>, info: PacketInfo)
    requires
        info.protocol != Some(6u8),
    ensures
        tcp_details(data, info).len() == 0,
{
}

/// TCP details are read where filters look for the ports.
pub proof fn law_tcp_details_stand_behind_the_ports(data: Seq<u8>, info: PacketInfo)
    requires
        data.len() >= 34,
        info.ethertype == Some(field(data, 12, 2) as u16),
        field(data, 12, 2) == 0x0800 || field(data, 12, 2) == 0x86dd,
    ensures
        tcp_start(data, info) == transport_off(data),
        tcp_start(data, info) == (if field(data, 12, 2) == 0x0800 {
            14 + 4 * (data[14] as int % 16)
        } else {
            54
        }),
{
    law_reads_are_big_endian(data, 12);
    let first = data[14];
    assert(first & 0x0f == first % 16) by (bit_vector);
}

/// The details of an IPv4 header are its time to live, its identification, the low 13 bits of its
/// fragment field, and a plus where the bit for more fragments is set.
#[verifier::rlimit(40)]
pub proof fn law_ip_details_of_ipv4(data: Seq<u8>, info: PacketInfo)
    requires
        info.ethertype == Some(0x0800u16),
        data.len() >= 34,
    ensures
        data.len() >= 14 + 4 * (data[14] as int % 16) ==> exists|
            ttl: Seq<char>,
            id: Seq<char>,
            off: Seq<char>,
        |
            {
                &&& #[trigger] is_number(ttl, data[22] as int)
                &&& #[trigger] is_number(id, field(data, 18, 2) as int)
                &&& #[trigger] is_number(off, field(data, 20, 2) as int % 0x2000)
                &&& ip_details(data, info) == seq![' ', 't', 't', 'l', ' '] + ttl + seq![
                    ' ',
                    'i',
                    'd',
                    ' ',
                ] + id + seq![',', 'o', 'f', 'f', 's', 'e', 't', ' '] + off + seq![','] + (if
                field(data, 20, 2) as int / 0x2000 % 2 == 1 {
                    seq!['+']
                } else {
                    seq![]
                })
            },
        data.len() < 14 + 4 * (data[14] as int % 16) ==> ip_details(data, info).len() == 0,
{
    let first = data[14];
    assert(first & 0x0f == first % 16) by (bit_vector);
    law_reads_are_big_endian(data, 18);
    law_reads_are_big_endian(data, 20);
    let frag = crate::vm::half_at(data, 20);
    let high = data[20];
    assert(frag & 0x1fff == frag % 0x2000) by (bit_vector);
    assert((high & 0x20 != 0) == (high / 32 % 2 == 1)) by (bit_vector);
    assert(frag / 0x2000 % 2 == high / 32 % 2);
    let ttl = decimal(data[22] as nat);
    let id = decimal(field(data, 18, 2));
    let off = decimal(field(data, 20, 2) % 0x2000);
    lemma_number(data[22] as nat);
    lemma_number(field(data, 18, 2));
    lemma_number(field(data, 20, 2) % 0x2000);
    reveal_strlit(" ttl ");
    reveal_strlit(" id ");
    reveal_strlit(",offset ");
    reveal_strlit(",");
    reveal_strlit("+");
    assert(" ttl "@ =~= seq![' ', 't', 't', 'l', ' ']);
    assert(" id "@ =~= seq![' ', 'i', 'd', ' ']);
    assert(",offset "@ =~= seq![',', 'o', 'f', 'f', 's', 'e', 't', ' ']);
    assert(","@ =~= seq![',']);
    assert("+"@ =~= seq!['+']);
    assert(is_number(ttl, data[22] as int) && is_number(id, field(data, 18, 2) as int)
        && is_number(off, field(data, 20, 2) as int % 0x2000));
}

/// The detail of an IPv6 header is its hop limit.
pub proof fn law_ip_details_of_ipv6(data: Seq<u8>, info: PacketInfo)
    requires
        info.ethertype == Some(0x86ddu16),
    ensures
        data.len() >= 54 ==> exists|hops: Seq<char>|
            #[trigger] is_number(hops, data[21] as int) && ip_details(data, info) == seq![
                ' ',
                'h',
                'l',
                'i',
                'm',
                ' ',
            ] + hops,
        data.len() < 54 ==> ip_details(data, info).len() == 0,
{
    reveal_strlit(" hlim ");
    assert(" hlim "@ =~= seq![' ', 'h', 'l', 'i', 'm', ' ']);
    if data.len() >= 54 {
        lemma_number(data[21] as nat);
        assert(is_number(decimal(data[21] as nat), data[21] as int));
    }
}

/// A packet that is not IP has no IP details.
pub proof fn law_ip_details_are_of_ip(data: Seq<u8>, info: PacketInfo)
    requires
        info.ethertype != Some(0x0800u16),
        info.ethertype != Some(0x86ddu16),
    ensures
        ip_details(data, info).len() == 0,
{
}

/// Whether the text shows the six bytes of a MAC address, each in two hexadecimal digits, with
/// colons between them.
pub open spec fn shows_mac(text: Seq<char>, mac: Seq<u8>) -> bool {
    &&& text.len() == 17
    &&& forall|i: int|
        0 <= i < 6 ==> is_numeral(text.subrange(3 * i, 3 * i + 2), 16) && worth(
            text.subrange(3 * i, 3 * i + 2),
            16,
        ) == #[trigger] mac[i]
    &&& text[2] == ':' && text[5] == ':' && text[8] == ':' && text[11] == ':' && text[14] == ':'
}

/// A MAC address is printed byte by byte.
pub proof fn law_mac_shows_its_bytes(mac: Seq<u8>)
    requires
        mac.len() >= 6,
    ensures
        shows_mac(mac_text(mac), mac),
{
    let text = mac_text(mac);
    reveal_strlit(":");
    assert forall|i: int| 0 <= i < 6 implies is_numeral(text.subrange(3 * i, 3 * i + 2), 16)
        && worth(text.subrange(3 * i, 3 * i + 2), 16) == #[trigger] mac[i] by {
        law_byte_reads_back(mac[i]);
        let cell = hex_byte(mac[i]);
        assert(text[3 * i] == cell[0] && text[3 * i + 1] == cell[1]) by {
            if i == 0 {
            } else if i == 1 {
            } else if i == 2 {
            } else if i == 3 {
            } else if i == 4 {
            } else {
            }
        }
        assert(text.subrange(3 * i, 3 * i + 2) =~= cell);
    }
}

/// The link-level header is the MAC address of the source, that of the destination, and the
/// EtherType in four hexadecimal digits.
pub proof fn law_link_header_shows_the_frame(data: Seq<u8>, opts: PrintOptions)
    ensures
        opts.link_header && data.len() >= 14 ==> exists|
            src: Seq<char>,
            dst: Seq<char>,
            kind: Seq<char>,
        |
            {
                &&& #[trigger] shows_mac(src, data.subrange(6, 12))
                &&& #[trigger] shows_mac(dst, data.subrange(0, 6))
                &&& #[trigger] is_numeral(kind, 16)
                &&& worth(kind, 16) == field(data, 12, 2)
                &&& kind.len() == 4
                &&& link_text(data, opts) == src + seq![' ', '>', ' '] + dst + seq![
                    ' ',
                    'e',
                    't',
                    'h',
                    'e',
                    'r',
                    't',
                    'y',
                    'p',
                    'e',
                    ' ',
                    '0',
                    'x',
                ] + kind + seq![' ']
            },
        !opts.link_header || data.len() < 14 ==> link_text(data, opts).len() == 0,
{
    if opts.link_header && data.len() >= 14 {
        law_reads_are_big_endian(data, 12);
        law_mac_shows_its_bytes(data.subrange(6, 12));
        law_mac_shows_its_bytes(data.subrange(0, 6));
        let n = field(data, 12, 2);
        let kind = pad_left(hex(n), 4, '0');
        law_padded_number_reads_back(n, 4);
        law_hex_reads_back(n);
        law_padding_is_only_filling(hex(n), 4, '0');
        reveal_strlit(" > ");
        reveal_strlit(" ");
        reveal_strlit(" ethertype 0x");
        assert(" > "@ =~= seq![' ', '>', ' ']);
        assert(" "@ =~= seq![' ']);
        assert(" ethertype 0x"@ =~= seq![
            ' ',
            'e',
            't',
            'h',
            'e',
            'r',
            't',
            'y',
            'p',
            'e',
            ' ',
            '0',
            'x',
        ]);
        let src = mac_text(data.subrange(6, 12));
        let dst = mac_text(data.subrange(0, 6));
        assert(shows_mac(src, data.subrange(6, 12)) && shows_mac(dst, data.subrange(0, 6))
            && is_numeral(kind, 16));
    }
}

/// The length at the end of a line is that of the captured packet.
pub proof fn law_length_ends_the_line(meta: PacketMeta)
    ensures
        exists|n: Seq<char>|
            #[trigger] is_number(n, meta.cap_len as int) && len_text(meta) == seq![
                ' ',
                'l',
                'e',
                'n',
                '=',
            ] + n,
{
    lemma_number(meta.cap_len as nat);
    reveal_strlit(" len=");
    assert(" len="@ =~= seq![' ', 'l', 'e', 'n', '=']);
    assert(is_number(decimal(meta.cap_len as nat), meta.cap_len as int));
}

/// An address is printed with its port behind a colon, or with the name of the port behind a dot.
pub proof fn law_ports_follow_addresses(ip: IpAddr, port: u16)
    ensures
        exists|n: Seq<char>|
            #[trigger] is_number(n, port as int) && addr_port_text(Some(ip), Some(port), true)
                == crate::addr_text::ip_text(ip) + seq![':'] + n,
        addr_port_text(Some(ip), Some(port), false) == crate::addr_text::ip_text(ip) + seq!['.']
            + port_text(port),
        addr_port_text(Some(ip), None, true) == crate::addr_text::ip_text(ip),
        addr_port_text(Some(ip), None, false) == crate::addr_text::ip_text(ip),
        addr_port_text(None, Some(port), true) == seq!['?'],
        addr_port_text(None, Some(port), false) == seq!['?'],
{
    lemma_number(port as nat);
    reveal_strlit(":");
    reveal_strlit(".");
    reveal_strlit("?");
    assert(":"@ =~= seq![':']);
    assert("."@ =~= seq!['.']);
    assert("?"@ =~= seq!['?']);
    assert(is_number(decimal(port as nat), port as int));
}

/// A port that has no name is printed as its number.
pub proof fn law_other_ports_are_numbers(port: u16)
    requires
        !seq![20u16, 21, 22, 23, 25, 53, 80, 110, 143, 443, 993, 995, 8080].contains(port),
    ensures
        is_number(port_text(port), port as int),
{
    lemma_number(port as nat);
    let named = seq![20u16, 21, 22, 23, 25, 53, 80, 110, 143, 443, 993, 995, 8080];
    assert(named[0] == 20 && named[1] == 21 && named[2] == 22 && named[3] == 23 && named[4] == 25
        && named[5] == 53 && named[6] == 80 && named[7] == 110 && named[8] == 143 && named[9] == 443
        && named[10] == 993 && named[11] == 995 && named[12] == 8080);
}

/// Two ports are never printed alike.
#[verifier::rlimit(40)]
pub proof fn law_ports_are_told_apart(one: u16, other: u16)
    requires
        port_text(one) == port_text(other),
    ensures
        one == other,
{
    lemma_number(one as nat);
    lemma_number(other as nat);
    reveal_strlit("ftp-data");
    reveal_strlit("ftp");
    reveal_strlit("ssh");
    reveal_strlit("telnet");
    reveal_strlit("smtp");
    reveal_strlit("domain");
    reveal_strlit("http");
    reveal_strlit("pop3");
    reveal_strlit("imap");
    reveal_strlit("https");
    reveal_strlit("imaps");
    reveal_strlit("pop3s");
    reveal_strlit("http-alt");
    let a = port_text(one);
    let b = port_text(other);
    assert(crate::numerals::digit_worth(a[0]) < 10 ==> is_number(a, one as int));
    assert(crate::numerals::digit_worth(b[0]) < 10 ==> is_number(b, other as int));
    assert(a[0] == b[0] && a.len() == b.len());
    if crate::numerals::digit_worth(a[0]) >= 10 {
        assert(a[1] == b[1] && a[2] == b[2]);
        assert(a.last() == b.last());
    } else {
        assert(worth(a, 10) == one);
        assert(worth(b, 10) == other);
    }
}

/// A protocol that has no name is printed as its number, and one that has a name is so too where
/// only numbers are asked for.
pub proof fn law_other_protocols_are_numbers(proto: u8, info: PacketInfo, opts: PrintOptions)
    requires
        info.protocol == Some(proto),
    ensures
        proto != 1 && proto != 6 && proto != 17 && proto != 58 ==> is_number(
            protocol_text(proto),
            proto as int,
        ),
        opts.no_resolve >= 2 ==> is_number(proto_text(info, opts), proto as int),
        opts.no_resolve < 2 ==> proto_text(info, opts) == protocol_text(proto),
{
    lemma_number(proto as nat);
}

/// The source stands before the destination, and ports are numbers where numbers are asked for.
pub proof fn law_source_comes_first(info: PacketInfo, opts: PrintOptions)
    ensures
        ends_text(info, opts) == addr_port_text(info.src_ip, info.src_port, opts.no_resolve > 0)
            + seq![' ', '>', ' '] + addr_port_text(
            info.dst_ip,
            info.dst_port,
            opts.no_resolve > 0,
        ),
{
    reveal_strlit(" > ");
    assert(" > "@ =~= seq![' ', '>', ' ']);
}

/// The timestamp is what its format asks for: none, the seconds as a number, the time since the
/// packet before or since the first one, the date with the time, or the time of day.
pub proof fn law_stamp_by_format(format: u8, meta: PacketMeta, ctx: PktCtx)
    requires
        meta.ts_sec <= i64::MAX,
        meta.ts_usec <= i64::MAX,
        ctx.prev_ts.1 <= i64::MAX,
        ctx.first_ts.1 <= i64::MAX,
    ensures
        format == 1 ==> stamp_text(format, meta, ctx).len() == 0,
        format == 2 ==> is_number(stamp_text(format, meta, ctx), meta.ts_sec as int),
        format == 3 ==> stamp_text(format, meta, ctx) == delta_text(
            meta.ts_sec * 1_000_000 + meta.ts_usec - (ctx.prev_ts.0 * 1_000_000 + ctx.prev_ts.1),
        ),
        format == 4 ==> stamp_text(format, meta, ctx) == date_time_text(meta.ts_sec, meta.ts_usec),
        format == 5 ==> stamp_text(format, meta, ctx) == delta_text(
            meta.ts_sec * 1_000_000 + meta.ts_usec - (ctx.first_ts.0 * 1_000_000 + ctx.first_ts.1),
        ),
        format == 0 || format > 5 ==> stamp_text(format, meta, ctx) == time_text(
            meta.ts_sec,
            meta.ts_usec,
        ),
{
    lemma_number(meta.ts_sec as nat);
}

/// Behind a printed packet its timestamp is the one before, and the first one and the number stay.
pub proof fn law_next_packet_counts_from_this_one(
    meta: PacketMeta,
    next: PacketMeta,
    ctx: PktCtx,
)
    requires
        meta.ts_sec <= i64::MAX,
        meta.ts_usec <= i64::MAX,
        next.ts_sec <= i64::MAX,
        next.ts_usec <= i64::MAX,
    ensures
        stamp_text(3, next, ctx_behind(ctx, meta)) == delta_text(
            next.ts_sec * 1_000_000 + next.ts_usec - (meta.ts_sec * 1_000_000 + meta.ts_usec),
        ),
        stamp_text(5, next, ctx_behind(ctx, meta)) == stamp_text(5, next, ctx),
        ctx_behind(ctx, meta).num == ctx.num,
        ctx_behind(ctx, meta).first_ts == ctx.first_ts,
{
}

/// The packet number takes four columns at least, with blanks before it and two behind it.
pub proof fn law_packet_number_is_flush_right(opts: PrintOptions, ctx: PktCtx)
    ensures
        opts.packet_number ==> exists|n: Seq<char>, blanks: Seq<char>|
            {
                &&& #[trigger] is_number(n, ctx.num as int)
                &&& number_text(opts, ctx) == #[trigger] (blanks + n) + seq![' ', ' ']
                &&& forall|i: int| 0 <= i < blanks.len() ==> #[trigger] blanks[i] == ' '
                &&& blanks.len() + n.len() == 4 || (blanks.len() == 0 && n.len() > 4)
            },
        !opts.packet_number ==> number_text(opts, ctx).len() == 0,
{
    if opts.packet_number {
        let n = decimal(ctx.num as nat);
        lemma_number(ctx.num as nat);
        let blanks = crate::text::repeat(' ', 4 - n.len());
        reveal_strlit("  ");
        assert("  "@ =~= seq![' ', ' ']);
        assert(is_number(n, ctx.num as int));
        assert(number_text(opts, ctx) == (blanks + n) + seq![' ', ' ']);
    }
}

/// A line starts with the number and the timestamp; without a timestamp with the number alone and
/// one blank, and with nothing where neither is asked for.
pub proof fn law_line_starts_with_the_stamp(meta: PacketMeta, opts: PrintOptions, ctx: PktCtx)
    ensures
        ({
            let stamp = stamp_text(opts.timestamp_format, meta, ctx);
            &&& stamp.len() > 0 ==> lead_text(meta, opts, ctx) == number_text(opts, ctx) + stamp
                + seq![' ']
            &&& stamp.len() == 0 && opts.packet_number ==> exists|n: Seq<char>|
                #[trigger] is_number(n, ctx.num as int) && lead_text(meta, opts, ctx) == n + seq![
                    ' ',
                ]
            &&& stamp.len() == 0 && !opts.packet_number ==> lead_text(meta, opts, ctx).len() == 0
        }),
{
    lemma_number(ctx.num as nat);
    reveal_strlit(" ");
    assert(" "@ =~= seq![' ']);
    assert(is_number(decimal(ctx.num as nat), ctx.num as int));
}

/// Whether the text is a line that starts with `front`, says what is known of the packet, and ends
/// with the length.
pub open spec fn is_line(text: Seq<char>, front: Seq<char>, known: Seq<char>, len: int) -> bool {
    exists|n: Seq<char>|
        #[trigger] is_number(n, len) && text == front + known + seq![' ', 'l', 'e', 'n', '='] + n
            + seq!['\n']
}

/// In quiet mode a packet is one line: the number and the timestamp, the protocol, the two ends and
/// the length.
#[verifier::rlimit(40)]
pub proof fn law_quiet_line(
    packet: Packet,
    info: PacketInfo,
    opts: PrintOptions,
    ctx: PktCtx,
    width: int,
)
    requires
        opts.quiet,
    ensures
        ({
            let stamp = stamp_text(opts.timestamp_format, packet.meta, ctx);
            is_line(
                packet_text(packet, Some(info), opts, ctx, width),
                number_text(opts, ctx) + stamp + (if stamp.len() > 0 {
                    seq![' ']
                } else {
                    seq![]
                }),
                proto_text(info, opts) + seq![' '] + ends_text(info, opts),
                packet.meta.cap_len as int,
            )
        }),
{
    let stamp = stamp_text(opts.timestamp_format, packet.meta, ctx);
    let number = number_text(opts, ctx);
    let gap = if stamp.len() > 0 {
        seq![' ']
    } else {
        Seq::<char>::empty()
    };
    let proto = proto_text(info, opts);
    let ends = ends_text(info, opts);
    let n = decimal(packet.meta.cap_len as nat);
    lemma_number(packet.meta.cap_len as nat);
    reveal_strlit(" ");
    reveal_strlit(" len=");
    reveal_strlit("\n");
    assert(" "@ =~= seq![' ']);
    assert(" len="@ =~= seq![' ', 'l', 'e', 'n', '=']);
    assert("\n"@ =~= seq!['\n']);
    let text = packet_text(packet, Some(info), opts, ctx, width);
    assert(text == number + stamp + (gap + proto + " "@ + ends) + (" len="@ + n) + "\n"@);
    lemma_regroup(number + stamp, gap, proto, ends, n);
    assert(is_number(n, packet.meta.cap_len as int));
}

proof fn lemma_regroup(
    front: Seq<char>,
    gap: Seq<char>,
    proto: Seq<char>,
    ends: Seq<char>,
    n: Seq<char>,
)
    ensures
        front + (gap + proto + " "@ + ends) + (" len="@ + n) + "\n"@ == (front + gap) + (proto + " "@
            + ends) + " len="@ + n + "\n"@,
{
    assert(front + (gap + proto + " "@ + ends) + (" len="@ + n) + "\n"@ =~= (front + gap) + (proto
        + " "@ + ends) + " len="@ + n + "\n"@);
}

/// A packet starts with its line: the number and the timestamp, the link-level header, the two ends
/// and the protocol, the details where they are asked for, and the length. The dumps follow it.
#[verifier::rlimit(40)]
pub proof fn law_packet_line(
    packet: Packet,
    info: PacketInfo,
    opts: PrintOptions,
    ctx: PktCtx,
    width: int,
)
    requires
        !opts.quiet,
    ensures
        ({
            let details = if opts.verbose > 0 && packet.data@.len() >= 14 {
                ip_details(packet.data@, info) + tcp_details(packet.data@, info)
            } else {
                seq![]
            };
            let front = lead_text(packet.meta, opts, ctx) + link_text(packet.data@, opts);
            let known = ends_text(info, opts) + seq![' '] + proto_text(info, opts) + details;
            exists|n: Seq<char>|
                #[trigger] is_number(n, packet.meta.cap_len as int) && packet_text(
                    packet,
                    Some(info),
                    opts,
                    ctx,
                    width,
                ) == (front + known + seq![' ', 'l', 'e', 'n', '='] + n + seq!['\n']) + hex_text(
                    packet.data@,
                    opts,
                    width,
                ) + ascii_text(packet.data@, opts, width)
        }),
{
    let n = decimal(packet.meta.cap_len as nat);
    lemma_number(packet.meta.cap_len as nat);
    reveal_strlit(" ");
    reveal_strlit(" len=");
    reveal_strlit("\n");
    assert(" "@ =~= seq![' ']);
    assert(" len="@ =~= seq![' ', 'l', 'e', 'n', '=']);
    assert("\n"@ =~= seq!['\n']);
    let front = lead_text(packet.meta, opts, ctx) + link_text(packet.data@, opts);
    let known = middle_text(packet.data@, Some(info), opts);
    let line = line_text(packet, Some(info), opts, ctx) + "\n"@;
    assert(line == front + known + (" len="@ + n) + "\n"@);
    assert(front + known + (" len="@ + n) + "\n"@ =~= front + known + " len="@ + n + "\n"@);
    assert(is_number(n, packet.meta.cap_len as int));
    let details = if opts.verbose > 0 && packet.data@.len() >= 14 {
        ip_details(packet.data@, info) + tcp_details(packet.data@, info)
    } else {
        seq![]
    };
    assert(known == ends_text(info, opts) + seq![' '] + proto_text(info, opts) + details);
    assert(packet_text(packet, Some(info), opts, ctx, width) == line + hex_text(
        packet.data@,
        opts,
        width,
    ) + ascii_text(packet.data@, opts, width));
}

/// A line of a packet of which nothing is known but its length.
pub open spec fn unknown_line(front: Seq<char>, n: Seq<char>, rest: Seq<char>) -> Seq<char> {
    front + seq!['[', 'u', 'n', 'k', 'n', 'o', 'w', 'n', ']', ' ', 'l', 'e', 'n', '='] + n + seq![
        '\n',
    ] + rest
}

/// A packet whose headers are not known says so in its line, in the place of what is known of
/// others.
#[verifier::rlimit(40)]
pub proof fn law_unknown_packets_say_so(
    packet: Packet,
    opts: PrintOptions,
    ctx: PktCtx,
    width: int,
)
    ensures
        exists|n: Seq<char>|
            {
                &&& #[trigger] is_number(n, packet.meta.cap_len as int)
                &&& opts.quiet ==> packet_text(packet, None, opts, ctx, width) == unknown_line(
                    number_text(opts, ctx) + stamp_text(opts.timestamp_format, packet.meta, ctx)
                        + seq![' '],
                    n,
                    seq![],
                )
                &&& !opts.quiet ==> packet_text(packet, None, opts, ctx, width) == unknown_line(
                    lead_text(packet.meta, opts, ctx) + link_text(packet.data@, opts),
                    n,
                    hex_text(packet.data@, opts, width) + ascii_text(packet.data@, opts, width),
                )
            },
{
    let n = decimal(packet.meta.cap_len as nat);
    lemma_number(packet.meta.cap_len as nat);
    reveal_strlit(" [unknown]");
    reveal_strlit("[unknown]");
    reveal_strlit(" len=");
    reveal_strlit("\n");
    let text = packet_text(packet, None, opts, ctx, width);
    assert(is_number(n, packet.meta.cap_len as int));
    let word = seq!['[', 'u', 'n', 'k', 'n', 'o', 'w', 'n', ']', ' ', 'l', 'e', 'n', '='];
    assert("\n"@ =~= seq!['\n']);
    assert("[unknown]"@ + " len="@ =~= word);
    assert(" [unknown]"@ + " len="@ =~= seq![' '] + word);
    if opts.quiet {
        let stamp = stamp_text(opts.timestamp_format, packet.meta, ctx);
        let front = number_text(opts, ctx) + stamp;
        lemma_tail(front, " [unknown]"@, n, Seq::empty());
        assert(front + (seq![' '] + word) =~= (front + seq![' ']) + word);
        assert(text =~= front + " [unknown]"@ + (" len="@ + n) + "\n"@ + Seq::empty());
        assert(text == unknown_line(front + seq![' '], n, Seq::<char>::empty()));
    } else {
        let front = lead_text(packet.meta, opts, ctx) + link_text(packet.data@, opts);
        let dumps = hex_text(packet.data@, opts, width) + ascii_text(packet.data@, opts, width);
        lemma_tail(front, "[unknown]"@, n, dumps);
        assert(text =~= front + "[unknown]"@ + (" len="@ + n) + "\n"@ + dumps);
        assert(text == unknown_line(front, n, dumps));
    }
}

proof fn lemma_tail(front: Seq<char>, word: Seq<char>, n: Seq<char>, rest: Seq<char>)
    ensures
        front + word + (" len="@ + n) + "\n"@ + rest == front + (word + " len="@) + n + "\n"@ + rest,
{
    assert(front + word + (" len="@ + n) =~= front + (word + " len="@) + n);
}

/// A dump leaves the 14 bytes of the link-level header out, unless an option for it is given twice:
/// it is the dump that is asked for twice of the bytes behind that header.
pub proof fn law_dumps_leave_out_the_link_header(data: Seq<u8>, opts: PrintOptions, width: int)
    requires
        opts.hex < 2,
        opts.hex_ascii < 2,
        data.len() >= 14,
    ensures
        opts.hex == 1 && opts.hex_ascii == 0 ==> hex_text(data, opts, width) == hex_text(
            data.skip(14),
            PrintOptions { hex: 2, ..opts },
            width,
        ),
        opts.hex_ascii == 1 ==> hex_text(data, opts, width) == hex_text(
            data.skip(14),
            PrintOptions { hex_ascii: 2, ..opts },
            width,
        ),
        opts.hex == 0 && opts.hex_ascii == 0 ==> hex_text(data, opts, width).len() == 0,
{
}

/// The dumps of a whole packet: the one in hexadecimal, behind it the one with characters.
pub proof fn law_whole_dumps(data: Seq<u8>, opts: PrintOptions, width: int)
    ensures
        opts.hex >= 2 && opts.hex_ascii == 0 ==> hex_text(data, opts, width) == hex_dump(
            data,
            crate::format::hex_bytes(width),
        ),
        opts.hex == 0 && opts.hex_ascii >= 2 ==> hex_text(data, opts, width) == hex_ascii_dump(
            data,
            crate::format::hex_bytes(width),
        ),
        (opts.hex >= 2 && opts.hex_ascii > 0) || (opts.hex > 0 && opts.hex_ascii >= 2) ==> hex_text(
            data,
            opts,
            width,
        ) == hex_dump(data, crate::format::hex_bytes(width)) + hex_ascii_dump(
            data,
            crate::format::hex_bytes(width),
        ),
        opts.hex < 2 && opts.hex_ascii < 2 && data.len() < 14 ==> hex_text(data, opts, width).len()
            == 0,
        opts.ascii && opts.hex_ascii == 0 && data.len() > 14 ==> ascii_text(data, opts, width)
            == ascii_dump(data.skip(14), crate::format::ascii_bytes(width)) + seq!['\n'],
        !opts.ascii || opts.hex_ascii > 0 || data.len() <= 14 ==> ascii_text(
            data,
            opts,
            width,
        ).len() == 0,
{
    reveal_strlit("\n");
    assert("\n"@ =~= seq!['\n']);
    let a = hex_dump(data, crate::format::hex_bytes(width));
    let b = hex_ascii_dump(data, crate::format::hex_bytes(width));
    assert(a + Seq::<char>::empty() =~= a);
    assert(Seq::<char>::empty() + b =~= b);
}

/// The addresses that are taken out of a packet are the numbers in their bytes.
pub proof fn law_addresses_are_big_endian(octets: Seq<u8>)
    ensures
        octets.len() == 4 ==> crate::packet::ipv4_from_octets(octets).bits == big_endian(octets),
        octets.len() == 16 ==> crate::packet::ipv6_from_octets(octets).bits == big_endian(octets),
{
    assert(octets.subrange(0, octets.len() as int) =~= octets);
    if octets.len() == 4 {
        law_reads_are_big_endian(octets, 0);
    } else if octets.len() == 16 {
        crate::fields::lemma_sixteen(octets, 0);
    }
}

/// The ports that have names.
pub proof fn law_named_ports(port: u16)
    ensures
        port == 20 ==> port_text(port) == seq!['f', 't', 'p', '-', 'd', 'a', 't', 'a'],
        port == 21 ==> port_text(port) == seq!['f', 't', 'p'],
        port == 22 ==> port_text(port) == seq!['s', 's', 'h'],
        port == 23 ==> port_text(port) == seq!['t', 'e', 'l', 'n', 'e', 't'],
        port == 25 ==> port_text(port) == seq!['s', 'm', 't', 'p'],
        port == 53 ==> port_text(port) == seq!['d', 'o', 'm', 'a', 'i', 'n'],
        port == 80 ==> port_text(port) == seq!['h', 't', 't', 'p'],
        port == 110 ==> port_text(port) == seq!['p', 'o', 'p', '3'],
        port == 143 ==> port_text(port) == seq!['i', 'm', 'a', 'p'],
        port == 443 ==> port_text(port) == seq!['h', 't', 't', 'p', 's'],
        port == 993 ==> port_text(port) == seq!['i', 'm', 'a', 'p', 's'],
        port == 995 ==> port_text(port) == seq!['p', 'o', 'p', '3', 's'],
        port == 8080 ==> port_text(port) == seq!['h', 't', 't', 'p', '-', 'a', 'l', 't'],
{
    reveal_strlit("ftp-data");
    reveal_strlit("ftp");
    reveal_strlit("ssh");
    reveal_strlit("telnet");
    reveal_strlit("smtp");
    reveal_strlit("domain");
    reveal_strlit("http");
    reveal_strlit("pop3");
    reveal_strlit("imap");
    reveal_strlit("https");
    reveal_strlit("imaps");
    reveal_strlit("pop3s");
    reveal_strlit("http-alt");
}

/// The protocols that have names; a packet without one is shown with the number zero.
pub proof fn law_named_protocols(info: PacketInfo, opts: PrintOptions)
    ensures
        protocol_text(1) == seq!['i', 'c', 'm', 'p'],
        protocol_text(6) == seq!['t', 'c', 'p'],
        protocol_text(17) == seq!['u', 'd', 'p'],
        protocol_text(58) == seq!['i', 'c', 'm', 'p', '6'],
        info.protocol is None ==> proto_text(info, opts) == seq!['0'],
{
    reveal_strlit("icmp");
    reveal_strlit("tcp");
    reveal_strlit("udp");
    reveal_strlit("icmp6");
    assert(decimal(0) =~= seq!['0']);
}

/// The fields of an IP packet that stands directly in the frame are the numbers at their places: the
/// protocol, the addresses, and the ports where there are some.
pub proof fn law_fields_by_bytes(packet: Seq<u8>, info: PacketInfo)
    requires
        info_in_place(packet, info),
    ensures
        packet.len() >= 14,
        info.ethertype == Some(field(packet, 12, 2) as u16),
        field(packet, 12, 2) == 0x0800 ==> {
            &&& packet.len() >= 34
            &&& info.protocol == Some(packet[23])
            &&& info.src_ip matches Some(IpAddr::V4(a)) && a.bits == field(packet, 26, 4)
            &&& info.dst_ip matches Some(IpAddr::V4(a)) && a.bits == field(packet, 30, 4)
        },
        field(packet, 12, 2) == 0x86dd ==> {
            &&& packet.len() >= 54
            &&& info.protocol == Some(packet[20])
            &&& info.src_ip matches Some(IpAddr::V6(a)) && a.bits == field(packet, 22, 16)
            &&& info.dst_ip matches Some(IpAddr::V6(a)) && a.bits == field(packet, 38, 16)
        },
        info.src_port is Some == info.dst_port is Some,
        info.src_port matches Some(port) ==> (ports_at(packet) matches Some(at) ==> port == field(
            packet,
            at,
            2,
        )),
        info.dst_port matches Some(port) ==> (ports_at(packet) matches Some(at) ==> port == field(
            packet,
            at + 2,
            2,
        )),
{
    law_reads_are_big_endian(packet, 12);
    lemma_ports_at(packet);
    if field(packet, 12, 2) == 0x0800 {
        law_addresses_are_big_endian(packet.subrange(26, 30));
        law_addresses_are_big_endian(packet.subrange(30, 34));
    } else if field(packet, 12, 2) == 0x86dd {
        law_addresses_are_big_endian(packet.subrange(22, 38));
        law_addresses_are_big_endian(packet.subrange(38, 54));
    }
}

/// A TCP packet over IPv6 that stands directly in a frame is printed with the flags, the numbers and
/// the window of its own header.
pub proof fn law_parsed_tcp_of_ipv6(data: Seq<u8>, info: PacketInfo)
    requires
        info_in_place(data, info),
        field(data, 12, 2) == 0x86dd,
        data[20] == 6,
        data.len() >= 74,
    ensures
        shows_tcp(
            tcp_details(data, info),
            data[67],
            field(data, 58, 4) as int,
            field(data, 62, 4) as int,
            field(data, 68, 2) as int,
        ),
{
    law_fields_by_bytes(data, info);
    law_tcp_details_of_ipv6(data, info);
}

/// A TCP packet over IPv4 that stands directly in a frame is printed with the flags, the numbers and
/// the window of the header behind its IPv4 header.
pub proof fn law_parsed_tcp_of_ipv4(data: Seq<u8>, info: PacketInfo)
    requires
        info_in_place(data, info),
        field(data, 12, 2) == 0x0800,
        data[23] == 6,
        data.len() >= 34 + 4 * (data[14] as int % 16),
    ensures
        ({
            let start = 14 + 4 * (data[14] as int % 16);
            shows_tcp(
                tcp_details(data, info),
                data[start + 13],
                field(data, start + 4, 4) as int,
                field(data, start + 8, 4) as int,
                field(data, start + 14, 2) as int,
            )
        }),
{
    law_fields_by_bytes(data, info);
    law_tcp_details_of_ipv4(data, info);
}

} // verus!
