//! Text forms of packets and of what they hold.

use vstd::prelude::*;

use crate::addr::IpAddr;
use crate::addr_text::{ip_text, push_ip};
use crate::text::{
    decimal, hex, hex_byte, pad_left, push_decimal, push_hex, push_hex_byte, push_padded,
    push_text, repeat,
};

verus! {

/// What stands behind the byte at index `j` of a line of `bpl` bytes: two spaces in the middle,
/// none at the end.
pub open spec fn gap_behind(j: int, bpl: int) -> Seq<char> {
    if j == bpl / 2 - 1 {
        "  "@
    } else if j < bpl - 1 {
        " "@
    } else {
        Seq::<char>::empty()
    }
}

/// The first `n` bytes from index `from` on in hexadecimal.
pub open spec fn hex_cells(data: Seq<u8>, from: int, n: int, bpl: int) -> Seq<char>
    decreases n,
{
    if n <= 0 {
        Seq::<char>::empty()
    } else {
        hex_cells(data, from, n - 1, bpl) + hex_byte(data[from + n - 1]) + gap_behind(n - 1, bpl)
    }
}

/// What fills a line of a hex dump that has only `n` bytes: three columns for each byte that is
/// missing, and two more for the gap in the middle where that gap is behind.
pub open spec fn hex_filler(n: int, bpl: int) -> Seq<char> {
    if n < bpl {
        repeat(' ', 3 * (bpl - n) + (if n > bpl / 2 {
            2int
        } else {
            0
        }))
    } else {
        Seq::<char>::empty()
    }
}

/// What fills a line that has only `n` bytes, so that it is as long as a line of `bpl`: three
/// columns for each byte that is missing, one of which the gap in the middle has taken already
/// where that gap is there.
pub open spec fn column_filler(n: int, bpl: int) -> Seq<char> {
    if n < bpl {
        repeat(' ', 3 * (bpl - n) - (if n >= bpl / 2 {
            1int
        } else {
            0
        }))
    } else {
        Seq::<char>::empty()
    }
}

/// The number of bytes in the line that starts at index `at`.
pub open spec fn line_len(data: Seq<u8>, at: int, bpl: int) -> int {
    if data.len() - at < bpl {
        data.len() - at
    } else {
        bpl
    }
}

/// The offset and the bytes of the line that starts at index `at`.
pub open spec fn hex_part(data: Seq<u8>, at: int, bpl: int) -> Seq<char> {
    "    "@ + pad_left(hex(at as nat), 4, '0') + ": "@ + hex_cells(
        data,
        at,
        line_len(data, at, bpl),
        bpl,
    )
}

/// The line of a hex dump that starts at index `at`.
pub open spec fn hex_line(data: Seq<u8>, at: int, bpl: int) -> Seq<char> {
    hex_part(data, at, bpl) + hex_filler(line_len(data, at, bpl), bpl)
}

/// The lines of a hex dump from index `at` on.
pub open spec fn hex_dump_from(data: Seq<u8>, at: int, bpl: int) -> Seq<char>
    decreases data.len() - at,
{
    if 0 <= at < data.len() && bpl > 0 {
        hex_line(data, at, bpl) + "\n"@ + hex_dump_from(
            data,
            at + line_len(data, at, bpl),
            bpl,
        )
    } else {
        Seq::<char>::empty()
    }
}

/// A hex dump with `bpl` bytes per line.
pub open spec fn hex_dump(data: Seq<u8>, bpl: int) -> Seq<char> {
    hex_dump_from(data, 0, bpl)
}

/// The character that a byte is shown as.
pub open spec fn shown(b: u8) -> char {
    if 0x20 <= b <= 0x7e {
        b as char
    } else {
        '.'
    }
}

/// The characters of the `n` bytes from index `from` on.
pub open spec fn shown_all(data: Seq<u8>, from: int, n: int) -> Seq<char> {
    Seq::new(n as nat, |i: int| shown(data[from + i]))
}

/// The line of a hex dump that starts at index `at`, with its bytes as characters beside it.
pub open spec fn hex_ascii_line(data: Seq<u8>, at: int, bpl: int) -> Seq<char> {
    let n = line_len(data, at, bpl);
    hex_part(data, at, bpl) + column_filler(n, bpl) + "  "@ + shown_all(data, at, n)
}

/// The lines of a hex dump with the bytes as characters beside it, from index `at` on.
pub open spec fn hex_ascii_dump_from(data: Seq<u8>, at: int, bpl: int) -> Seq<char>
    decreases data.len() - at,
{
    if 0 <= at < data.len() && bpl > 0 {
        hex_ascii_line(data, at, bpl) + "\n"@ + hex_ascii_dump_from(
            data,
            at + line_len(data, at, bpl),
            bpl,
        )
    } else {
        Seq::<char>::empty()
    }
}

/// A hex dump with the bytes as characters beside it.
pub open spec fn hex_ascii_dump(data: Seq<u8>, bpl: int) -> Seq<char> {
    hex_ascii_dump_from(data, 0, bpl)
}

/// The bytes of a line take three columns each, with one more for the gap in the middle and one
/// less for the missing gap at the end.
proof fn lemma_cells_len(data: Seq<u8>, from: int, n: int, bpl: int)
    requires
        2 <= bpl,
        0 <= n <= bpl,
    ensures
        hex_cells(data, from, n, bpl).len() == 3 * n + (if n >= bpl / 2 {
            1int
        } else {
            0
        }) - (if n == bpl {
            1int
        } else {
            0
        }),
    decreases n,
{
    reveal_strlit("  ");
    reveal_strlit(" ");
    if n > 0 {
        lemma_cells_len(data, from, n - 1, bpl);
    }
}

/// An offset below 0x10000 takes four columns.
proof fn lemma_offset_len(at: nat)
    requires
        at <= 0xffff,
    ensures
        pad_left(hex(at), 4, '0').len() == 4,
{
    reveal_with_fuel(hex, 4);
}

/// In all lines of a hex dump with characters, a short last line among them, the characters start
/// in the same column, as long as the offsets have four digits.
pub proof fn law_characters_align(data: Seq<u8>, at: int, bpl: int)
    requires
        2 <= bpl,
        0 <= at < data.len(),
        at <= 0xffff,
    ensures
        hex_ascii_line(data, at, bpl).skip(12 + 3 * bpl) == shown_all(
            data,
            at,
            line_len(data, at, bpl),
        ),
{
    let n = line_len(data, at, bpl);
    reveal_strlit("    ");
    reveal_strlit("  ");
    reveal_strlit(": ");
    lemma_cells_len(data, at, n, bpl);
    lemma_offset_len(at as nat);
    assert((hex_part(data, at, bpl) + column_filler(n, bpl)).len() == 10 + 3 * bpl);
    assert(hex_ascii_line(data, at, bpl).skip(12 + 3 * bpl) =~= shown_all(data, at, n));
}

/// The lines of a text dump from index `at` on, with line breaks between them.
pub open spec fn ascii_dump_from(data: Seq<u8>, at: int, bpl: int) -> Seq<char>
    decreases data.len() - at,
{
    if 0 <= at < data.len() && bpl > 0 {
        let n = line_len(data, at, bpl);
        if at + n < data.len() {
            shown_all(data, at, n) + "\n"@ + ascii_dump_from(data, at + n, bpl)
        } else {
            shown_all(data, at, n)
        }
    } else {
        Seq::<char>::empty()
    }
}

/// The bytes as characters, `bpl` in a line.
pub open spec fn ascii_dump(data: Seq<u8>, bpl: int) -> Seq<char> {
    ascii_dump_from(data, 0, bpl)
}

fn push_hex_part(out: &mut String, data: &[u8], at: usize, n: usize, bpl: usize)
    requires
        bpl >= 2,
        at < data@.len(),
        n == line_len(data@, at as int, bpl as int),
    ensures
        final(out)@ == old(out)@ + hex_part(data@, at as int, bpl as int),
{
    push_text(out, "    ");
    let mut number: String = String::new();
    push_hex(&mut number, at as u64);
    assert(number@ =~= hex(at as nat));
    push_padded(out, number.as_str(), 4, '0');
    push_text(out, ": ");
    let ghost head = out@;
    let half: usize = bpl / 2;
    let total: usize = data.len();
    let mut j: usize = 0;
    while j < n
        invariant
            0 <= j <= n,
            total == data@.len(),
            bpl >= 2,
            half == bpl / 2,
            at < data@.len(),
            n == line_len(data@, at as int, bpl as int),
            out@ == head + hex_cells(data@, at as int, j as int, bpl as int),
        decreases n - j,
    {
        push_hex_byte(out, data[at + j]);
        if j == half - 1 {
            push_text(out, "  ");
        } else if j < bpl - 1 {
            push_text(out, " ");
        }
        j = j + 1;
        assert(out@ =~= head + hex_cells(data@, at as int, j as int, bpl as int));
    }
    assert(out@ =~= old(out)@ + hex_part(data@, at as int, bpl as int));
}

fn push_hex_filler(out: &mut String, n: usize, bpl: usize)
    requires
        n <= bpl,
    ensures
        final(out)@ == old(out)@ + hex_filler(n as int, bpl as int),
{
    proof {
        reveal_strlit("  ");
    }
    push_triples(out, bpl - n);
    if n < bpl && n > bpl / 2 {
        push_text(out, "  ");
    }
    assert(out@ =~= old(out)@ + hex_filler(n as int, bpl as int));
}

fn push_column_filler(out: &mut String, n: usize, bpl: usize)
    requires
        n <= bpl,
    ensures
        final(out)@ == old(out)@ + column_filler(n as int, bpl as int),
{
    proof {
        reveal_strlit("  ");
        reveal_strlit("   ");
    }
    if n < bpl {
        push_triples(out, bpl - n - 1);
        push_text(
            out,
            if n >= bpl / 2 {
                "  "
            } else {
                "   "
            },
        );
    }
    assert(out@ =~= old(out)@ + column_filler(n as int, bpl as int));
}

/// Append the room of `n` bytes.
fn push_triples(out: &mut String, n: usize)
    ensures
        final(out)@ == old(out)@ + repeat(' ', 3 * n),
{
    let mut i: usize = 0;
    proof {
        reveal_strlit("   ");
    }
    while i < n
        invariant
            0 <= i <= n,
            "   "@ == seq![' ', ' ', ' '],
            out@ == old(out)@ + repeat(' ', 3 * i),
        decreases n - i,
    {
        push_text(out, "   ");
        i = i + 1;
        assert(old(out)@ + repeat(' ', 3 * i) =~= old(out)@ + repeat(' ', 3 * (i - 1)) + seq![
            ' ',
            ' ',
            ' ',
        ]);
    }
}

/// The character that a byte is shown as.
fn shown_char(b: u8) -> (c: char)
    ensures
        c == shown(b),
{
    if 0x20 <= b && b <= 0x7e {
        b as char
    } else {
        '.'
    }
}

fn push_shown(out: &mut String, data: &[u8], at: usize, n: usize)
    requires
        at + n <= data@.len(),
    ensures
        final(out)@ == old(out)@ + shown_all(data@, at as int, n as int),
{
    let total: usize = data.len();
    let mut i: usize = 0;
    while i < n
        invariant
            0 <= i <= n,
            total == data@.len(),
            at + n <= data@.len(),
            out@ == old(out)@ + shown_all(data@, at as int, i as int),
        decreases n - i,
    {
        out.push(shown_char(data[at + i]));
        i = i + 1;
        assert(old(out)@ + shown_all(data@, at as int, i as int) =~= (old(out)@ + shown_all(
            data@,
            at as int,
            i - 1,
        )).push(shown(data@[at + i - 1])));
    }
}

/// Hex dump output, with `bpl` bytes per line.
pub fn format_hex(data: &[u8], bpl: usize) -> (text: String)
    requires
        bpl >= 2 || (bpl == 1 && data@.len() == 0),
    ensures
        text@ == hex_dump(data@, bpl as int),
{
    let mut out: String = String::new();
    let mut at: usize = 0;
    while at < data.len()
        invariant
            bpl >= 2 || data@.len() == 0,
            0 <= at <= data@.len(),
            hex_dump(data@, bpl as int) == out@ + hex_dump_from(data@, at as int, bpl as int),
        decreases data@.len() - at,
    {
        let ghost before = out@;
        let left: usize = data.len() - at;
        let n: usize = if left < bpl {
            left
        } else {
            bpl
        };
        push_hex_part(&mut out, data, at, n, bpl);
        push_hex_filler(&mut out, n, bpl);
        push_text(&mut out, "\n");
        proof {
            let rest = hex_dump_from(data@, at + n, bpl as int);
            assert(out@ + rest =~= before + (hex_line(data@, at as int, bpl as int) + "\n"@ + rest));
        }
        at = at + n;
    }
    assert(out@ + Seq::<char>::empty() =~= out@);
    out
}

/// Hex dump with ASCII side-by-side, with `bpl` bytes per line.
pub fn format_hex_ascii(data: &[u8], bpl: usize) -> (text: String)
    requires
        bpl >= 2 || (bpl == 1 && data@.len() == 0),
    ensures
        text@ == hex_ascii_dump(data@, bpl as int),
{
    let mut out: String = String::new();
    let mut at: usize = 0;
    while at < data.len()
        invariant
            bpl >= 2 || data@.len() == 0,
            0 <= at <= data@.len(),
            hex_ascii_dump(data@, bpl as int) == out@ + hex_ascii_dump_from(
                data@,
                at as int,
                bpl as int,
            ),
        decreases data@.len() - at,
    {
        let ghost before = out@;
        let left: usize = data.len() - at;
        let n: usize = if left < bpl {
            left
        } else {
            bpl
        };
        push_hex_part(&mut out, data, at, n, bpl);
        push_column_filler(&mut out, n, bpl);
        push_text(&mut out, "  ");
        push_shown(&mut out, data, at, n);
        push_text(&mut out, "\n");
        proof {
            let rest = hex_ascii_dump_from(data@, at + n, bpl as int);
            assert(out@ + rest =~= before + (hex_ascii_line(data@, at as int, bpl as int) + "\n"@
                + rest));
        }
        at = at + n;
    }
    assert(out@ + Seq::<char>::empty() =~= out@);
    out
}

/// The bytes as characters, `bpl` in a line.
pub fn format_ascii(payload: &[u8], bpl: usize) -> (text: String)
    requires
        bpl > 0,
    ensures
        text@ == ascii_dump(payload@, bpl as int),
{
    let mut out: String = String::new();
    let mut at: usize = 0;
    while at < payload.len()
        invariant
            bpl > 0,
            0 <= at <= payload@.len(),
            ascii_dump(payload@, bpl as int) == out@ + ascii_dump_from(
                payload@,
                at as int,
                bpl as int,
            ),
        decreases payload@.len() - at,
    {
        let ghost before = out@;
        let left: usize = payload.len() - at;
        let n: usize = if left < bpl {
            left
        } else {
            bpl
        };
        push_shown(&mut out, payload, at, n);
        if n < left {
            push_text(&mut out, "\n");
        }
        proof {
            let rest = ascii_dump_from(payload@, at + n, bpl as int);
            let line = shown_all(payload@, at as int, n as int);
            if n < left {
                assert(out@ + rest =~= before + (line + "\n"@ + rest));
            } else {
                assert(out@ + rest =~= before + line);
            }
        }
        at = at + n;
    }
    assert(out@ + Seq::<char>::empty() =~= out@);
    out
}

/// 85 percent of a terminal's width.
pub open spec fn usable_width(term_width: int) -> int {
    term_width * 85 / 100
}

fn usable(term_width: usize) -> (width: usize)
    ensures
        width == usable_width(term_width as int),
{
    term_width / 100 * 85 + term_width % 100 * 85 / 100
}

/// The number of bytes in a line of a hex dump on a terminal of the given width: a multiple of 16
/// from 16 to 64, of which each byte takes up three columns behind the twelve of the offset.
pub open spec fn hex_bytes(term_width: int) -> int {
    let target = usable_width(term_width);
    let fitting = if target > 12 {
        (target - 12) / 3
    } else {
        16
    };
    let n = fitting / 16 * 16;
    if n < 16 {
        16
    } else if n > 64 {
        64
    } else {
        n
    }
}

/// Calculate optimal hex bytes-per-line based on terminal width.
/// Uses a minimum of 16 for terminals <= 80 cols, and at wider ones 32, 48, 64.
pub fn hex_bytes_per_line(term_width: usize) -> (bpl: usize)
    ensures
        bpl == hex_bytes(term_width as int),
        bpl == 16 || bpl == 32 || bpl == 48 || bpl == 64,
{
    let target: usize = usable(term_width);
    let max_n: usize = if target > 12 {
        (target - 12) / 3
    } else {
        16
    };
    let n: usize = max_n / 16 * 16;
    if n < 16 {
        16
    } else if n > 64 {
        64
    } else {
        n
    }
}

/// The number of bytes in a line of a text dump on a terminal of the given width.
pub open spec fn ascii_bytes(term_width: int) -> int {
    let target = usable_width(term_width);
    if target < 64 {
        64
    } else if target > 512 {
        512
    } else {
        target
    }
}

/// Calculate the characters per line of a text dump based on terminal width.
pub fn ascii_bytes_per_line(term_width: usize) -> (bpl: usize)
    ensures
        bpl == ascii_bytes(term_width as int),
        64 <= bpl <= 512,
{
    let target: usize = usable(term_width);
    if target < 64 {
        64
    } else if target > 512 {
        512
    } else {
        target
    }
}

/// The text of a MAC address.
pub open spec fn mac_text(mac: Seq<u8>) -> Seq<char> {
    hex_byte(mac[0]) + ":"@ + hex_byte(mac[1]) + ":"@ + hex_byte(mac[2]) + ":"@ + hex_byte(mac[3])
        + ":"@ + hex_byte(mac[4]) + ":"@ + hex_byte(mac[5])
}

/// A MAC address in hexadecimal.
pub fn format_mac(mac: &[u8]) -> (text: String)
    requires
        mac@.len() >= 6,
    ensures
        text@ == mac_text(mac@),
{
    let mut out: String = String::new();
    push_hex_byte(&mut out, mac[0]);
    push_text(&mut out, ":");
    push_hex_byte(&mut out, mac[1]);
    push_text(&mut out, ":");
    push_hex_byte(&mut out, mac[2]);
    push_text(&mut out, ":");
    push_hex_byte(&mut out, mac[3]);
    push_text(&mut out, ":");
    push_hex_byte(&mut out, mac[4]);
    push_text(&mut out, ":");
    push_hex_byte(&mut out, mac[5]);
    assert(out@ =~= mac_text(mac@));
    out
}

/// The name of a port; one without a name is shown as a number.
pub open spec fn port_text(port: u16) -> Seq<char> {
    if port == 20 {
        "ftp-data"@
    } else if port == 21 {
        "ftp"@
    } else if port == 22 {
        "ssh"@
    } else if port == 23 {
        "telnet"@
    } else if port == 25 {
        "smtp"@
    } else if port == 53 {
        "domain"@
    } else if port == 80 {
        "http"@
    } else if port == 110 {
        "pop3"@
    } else if port == 143 {
        "imap"@
    } else if port == 443 {
        "https"@
    } else if port == 993 {
        "imaps"@
    } else if port == 995 {
        "pop3s"@
    } else if port == 8080 {
        "http-alt"@
    } else {
        decimal(port as nat)
    }
}

/// The name of a well-known port, or its number.
pub fn port_name(port: u16) -> (text: String)
    ensures
        text@ == port_text(port),
{
    let name: &str = match port {
        20 => "ftp-data",
        21 => "ftp",
        22 => "ssh",
        23 => "telnet",
        25 => "smtp",
        53 => "domain",
        80 => "http",
        110 => "pop3",
        143 => "imap",
        443 => "https",
        993 => "imaps",
        995 => "pop3s",
        8080 => "http-alt",
        _ => {
            let mut number: String = String::new();
            push_decimal(&mut number, port as u128);
            assert(number@ =~= decimal(port as nat));
            return number;
        },
    };
    name.to_owned()
}

/// The name of an IP protocol; one without a name is shown as a number.
pub open spec fn protocol_text(proto: u8) -> Seq<char> {
    if proto == 1 {
        "icmp"@
    } else if proto == 6 {
        "tcp"@
    } else if proto == 17 {
        "udp"@
    } else if proto == 58 {
        "icmp6"@
    } else {
        decimal(proto as nat)
    }
}

/// The name of a well-known protocol, or its number.
pub fn protocol_name(proto: u8) -> (text: String)
    ensures
        text@ == protocol_text(proto),
{
    let name: &str = match proto {
        1 => "icmp",
        6 => "tcp",
        17 => "udp",
        58 => "icmp6",
        _ => {
            let mut number: String = String::new();
            push_decimal(&mut number, proto as u128);
            assert(number@ =~= decimal(proto as nat));
            return number;
        },
    };
    name.to_owned()
}

/// The text of an address with its port; the port is shown as a number behind a colon, or by its
/// name behind a dot.
pub open spec fn addr_port_text(
    ip: Option<IpAddr>,
    port: Option<u16>,
    numeric: bool,
) -> Seq<char> {
    match (ip, port) {
        (Some(ip), Some(port)) => if numeric {
            ip_text(ip) + ":"@ + decimal(port as nat)
        } else {
            ip_text(ip) + "."@ + port_text(port)
        },
        (Some(ip), None) => ip_text(ip),
        _ => "?"@,
    }
}

/// An address with its port, which is named unless numbers are asked for.
pub fn format_addr(ip: &Option<IpAddr>, port: Option<u16>, numeric: bool) -> (text: String)
    ensures
        text@ == addr_port_text(*ip, port, numeric),
{
    let mut out: String = String::new();
    match (ip, port) {
        (Some(ip), Some(port)) => {
            push_ip(&mut out, *ip);
            if numeric {
                push_text(&mut out, ":");
                push_decimal(&mut out, port as u128);
            } else {
                push_text(&mut out, ".");
                let name: String = port_name(port);
                push_text(&mut out, name.as_str());
            }
        },
        (Some(ip), None) => {
            push_ip(&mut out, *ip);
        },
        _ => {
            push_text(&mut out, "?");
        },
    }
    assert(out@ =~= addr_port_text(*ip, port, numeric));
    out
}

/// The letter of a TCP flag, where it is set.
pub open spec fn flag_text(flags: u8, bit: u8, letter: char) -> Seq<char> {
    if flags & bit != 0 {
        seq![letter]
    } else {
        Seq::<char>::empty()
    }
}

/// The letters of the TCP flags that are set; a dash where none is.
pub open spec fn flags_text(flags: u8) -> Seq<char> {
    let letters = flag_text(flags, 0x01, 'F') + flag_text(flags, 0x02, 'S') + flag_text(
        flags,
        0x04,
        'R',
    ) + flag_text(flags, 0x08, 'P') + flag_text(flags, 0x10, '.') + flag_text(flags, 0x20, 'U');
    if letters.len() == 0 {
        seq!['-']
    } else {
        letters
    }
}

fn push_flag(out: &mut String, flags: u8, bit: u8, letter: char) -> (set: bool)
    ensures
        final(out)@ == old(out)@ + flag_text(flags, bit, letter),
        set == (flags & bit != 0),
{
    if flags & bit != 0 {
        out.push(letter);
        assert(out@ =~= old(out)@ + flag_text(flags, bit, letter));
        true
    } else {
        assert(out@ =~= old(out)@ + flag_text(flags, bit, letter));
        false
    }
}

/// The letters of the TCP flags that are set.
pub fn format_tcp_flags(flags: u8) -> (text: String)
    ensures
        text@ == flags_text(flags),
{
    let mut out: String = String::new();
    let fin: bool = push_flag(&mut out, flags, 0x01, 'F');
    let syn: bool = push_flag(&mut out, flags, 0x02, 'S');
    let rst: bool = push_flag(&mut out, flags, 0x04, 'R');
    let psh: bool = push_flag(&mut out, flags, 0x08, 'P');
    let ack: bool = push_flag(&mut out, flags, 0x10, '.');
    let urg: bool = push_flag(&mut out, flags, 0x20, 'U');
    let ghost letters = flag_text(flags, 0x01, 'F') + flag_text(flags, 0x02, 'S') + flag_text(
        flags,
        0x04,
        'R',
    ) + flag_text(flags, 0x08, 'P') + flag_text(flags, 0x10, '.') + flag_text(flags, 0x20, 'U');
    assert(out@ =~= letters);
    if !(fin || syn || rst || psh || ack || urg) {
        assert(letters.len() == 0);
        out.push('-');
        assert(out@ =~= seq!['-']);
    } else {
        assert(letters.len() > 0);
    }
    out
}

} // verus!
