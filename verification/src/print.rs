//! The printed form of a packet.

use vstd::prelude::*;
use vstd::slice::slice_subrange;

use crate::clock::{
    date_time_text, delta, delta_text, push_date_time, push_delta, push_time, time_text,
};
use crate::format::{
    addr_port_text, ascii_bytes, ascii_bytes_per_line, ascii_dump, flags_text, format_addr,
    format_ascii, format_hex, format_hex_ascii, format_mac, format_tcp_flags, hex_ascii_dump,
    hex_bytes, hex_bytes_per_line, hex_dump, mac_text, protocol_name, protocol_text,
};
use crate::packet::{
    info_of, parse_packet, sliced_headers, Packet, PacketInfo, PacketMeta, ETHERTYPE_IP,
    ETHERTYPE_IPV6, IPPROTO_TCP,
};
use crate::text::{
    decimal, hex, pad_left, push_decimal, push_hex, push_padded, push_text,
};
use crate::vm::{half_at, read_u16, read_u32, word_at};

verus! {

/// How packets are printed.
#[derive(Debug, Clone, Copy, PartialEq, Eq, Structural)]
pub struct PrintOptions {
    /// 1 for none, 2 for Unix seconds, 3 for the time since the previous packet, 4 for the date,
    /// 5 for the time since the first packet, and else the time of day.
    pub timestamp_format: u8,
    /// Print a packet number at the beginning of the line.
    pub packet_number: bool,
    /// Quick (quiet) output.
    pub quiet: bool,
    /// Print the link-level header on each line.
    pub link_header: bool,
    /// 1 for ports as numbers, 2 for protocols as numbers too.
    pub no_resolve: u8,
    /// Verbose output.
    pub verbose: u8,
    /// Print each packet in hex; from 2 on with the link-level header.
    pub hex: u8,
    /// Print each packet in hex and ASCII; from 2 on with the link-level header.
    pub hex_ascii: u8,
    /// Print each packet in ASCII.
    pub ascii: bool,
}

/// Packet printing context: sequence number, previous timestamp, first timestamp.
#[derive(Debug, Clone, Copy, PartialEq, Eq)]
pub struct PktCtx {
    pub num: usize,
    pub prev_ts: (i64, u64),
    pub first_ts: (i64, u64),
}

/// The timestamp of a packet as the printing context keeps it.
pub open spec fn stamp_of(meta: PacketMeta) -> (i64, u64) {
    (meta.ts_sec as i64, meta.ts_usec)
}

/// The printed timestamp.
pub open spec fn stamp_text(format: u8, meta: PacketMeta, ctx: PktCtx) -> Seq<char> {
    if format == 1 {
        Seq::<char>::empty()
    } else if format == 2 {
        decimal(meta.ts_sec as nat)
    } else if format == 3 {
        delta_text(delta(meta.ts_sec, meta.ts_usec, ctx.prev_ts))
    } else if format == 4 {
        date_time_text(meta.ts_sec, meta.ts_usec)
    } else if format == 5 {
        delta_text(delta(meta.ts_sec, meta.ts_usec, ctx.first_ts))
    } else {
        time_text(meta.ts_sec, meta.ts_usec)
    }
}

fn push_stamp(out: &mut String, format: u8, meta: &PacketMeta, ctx: &PktCtx)
    ensures
        final(out)@ == old(out)@ + stamp_text(format, *meta, *ctx),
{
    match format {
        1 => {},
        2 => push_decimal(out, meta.ts_sec as u128),
        3 => push_delta(out, meta.ts_sec, meta.ts_usec, ctx.prev_ts),
        4 => push_date_time(out, meta.ts_sec, meta.ts_usec),
        5 => push_delta(out, meta.ts_sec, meta.ts_usec, ctx.first_ts),
        _ => push_time(out, meta.ts_sec, meta.ts_usec),
    }
    assert(out@ =~= old(out)@ + stamp_text(format, *meta, *ctx));
}

/// The packet number, flush right in four columns.
pub open spec fn number_text(opts: PrintOptions, ctx: PktCtx) -> Seq<char> {
    if opts.packet_number {
        pad_left(decimal(ctx.num as nat), 4, ' ') + "  "@
    } else {
        Seq::<char>::empty()
    }
}

fn push_number(out: &mut String, opts: &PrintOptions, ctx: &PktCtx)
    ensures
        final(out)@ == old(out)@ + number_text(*opts, *ctx),
{
    if opts.packet_number {
        let mut digits: String = String::new();
        push_decimal(&mut digits, ctx.num as u128);
        assert(digits@ =~= decimal(ctx.num as nat));
        push_padded(out, digits.as_str(), 4, ' ');
        push_text(out, "  ");
    }
    assert(out@ =~= old(out)@ + number_text(*opts, *ctx));
}

/// The protocol of a packet, by name or as a number.
pub open spec fn proto_text(info: PacketInfo, opts: PrintOptions) -> Seq<char> {
    let number = match info.protocol {
        Some(number) => number,
        None => 0,
    };
    if opts.no_resolve >= 2 {
        decimal(number as nat)
    } else {
        protocol_text(number)
    }
}

fn push_proto(out: &mut String, info: &PacketInfo, opts: &PrintOptions)
    ensures
        final(out)@ == old(out)@ + proto_text(*info, *opts),
{
    let number: u8 = match info.protocol {
        Some(number) => number,
        None => 0,
    };
    if opts.no_resolve >= 2 {
        push_decimal(out, number as u128);
    } else {
        let name: String = protocol_name(number);
        push_text(out, name.as_str());
    }
}

/// The two ends of a packet.
pub open spec fn ends_text(info: PacketInfo, opts: PrintOptions) -> Seq<char> {
    addr_port_text(info.src_ip, info.src_port, opts.no_resolve >= 1) + " > "@ + addr_port_text(
        info.dst_ip,
        info.dst_port,
        opts.no_resolve >= 1,
    )
}

fn push_ends(out: &mut String, info: &PacketInfo, opts: &PrintOptions)
    ensures
        final(out)@ == old(out)@ + ends_text(*info, *opts),
{
    let src: String = format_addr(&info.src_ip, info.src_port, opts.no_resolve >= 1);
    let dst: String = format_addr(&info.dst_ip, info.dst_port, opts.no_resolve >= 1);
    push_text(out, src.as_str());
    push_text(out, " > ");
    push_text(out, dst.as_str());
    assert(out@ =~= old(out)@ + ends_text(*info, *opts));
}

/// The length of a packet, at the end of its line.
pub open spec fn len_text(meta: PacketMeta) -> Seq<char> {
    " len="@ + decimal(meta.cap_len as nat)
}

fn push_len(out: &mut String, meta: &PacketMeta)
    ensures
        final(out)@ == old(out)@ + len_text(*meta),
{
    push_text(out, " len=");
    push_decimal(out, meta.cap_len as u128);
    assert(out@ =~= old(out)@ + len_text(*meta));
}

/// The protocol and the two ends of a packet, as in quiet mode.
pub open spec fn quiet_middle(
    info: Option<PacketInfo>,
    stamped: bool,
    opts: PrintOptions,
) -> Seq<char> {
    match info {
        Some(info) => (if stamped {
            " "@
        } else {
            Seq::<char>::empty()
        }) + proto_text(info, opts) + " "@ + ends_text(info, opts),
        None => " [unknown]"@,
    }
}

fn push_quiet_middle(
    out: &mut String,
    info: &Option<PacketInfo>,
    stamped: bool,
    opts: &PrintOptions,
)
    ensures
        final(out)@ == old(out)@ + quiet_middle(*info, stamped, *opts),
{
    match info {
        Some(info) => {
            if stamped {
                push_text(out, " ");
            }
            push_proto(out, info, opts);
            push_text(out, " ");
            push_ends(out, info, opts);
        },
        None => {
            push_text(out, " [unknown]");
        },
    }
    assert(out@ =~= old(out)@ + quiet_middle(*info, stamped, *opts));
}

/// The line of a packet in quiet mode.
pub open spec fn quiet_text(
    meta: PacketMeta,
    info: Option<PacketInfo>,
    opts: PrintOptions,
    ctx: PktCtx,
) -> Seq<char> {
    let stamp = stamp_text(opts.timestamp_format, meta, ctx);
    number_text(opts, ctx) + stamp + quiet_middle(info, stamp.len() > 0, opts) + len_text(meta)
}

fn push_quiet(
    out: &mut String,
    meta: &PacketMeta,
    info: &Option<PacketInfo>,
    opts: &PrintOptions,
    ctx: &PktCtx,
)
    ensures
        final(out)@ == old(out)@ + quiet_text(*meta, *info, *opts, *ctx),
{
    let mut stamp: String = String::new();
    push_stamp(&mut stamp, opts.timestamp_format, meta, ctx);
    assert(stamp@ =~= stamp_text(opts.timestamp_format, *meta, *ctx));
    let stamped: bool = stamp.as_str().unicode_len() > 0;
    push_number(out, opts, ctx);
    push_text(out, stamp.as_str());
    push_quiet_middle(out, info, stamped, opts);
    push_len(out, meta);
    proof {
        lemma_four(
            old(out)@,
            number_text(*opts, *ctx),
            stamp@,
            quiet_middle(*info, stamped, *opts),
            len_text(*meta),
        );
    }
}

/// Four pieces behind a text, one after the other or as one.
proof fn lemma_four(text: Seq<char>, a: Seq<char>, b: Seq<char>, c: Seq<char>, d: Seq<char>)
    ensures
        text + a + b + c + d == text + (a + b + c + d),
{
    assert(text + a + b + c + d =~= text + (a + b + c + d));
}

/// What stands at the beginning of a line, with a space behind it.
pub open spec fn lead_text(meta: PacketMeta, opts: PrintOptions, ctx: PktCtx) -> Seq<char> {
    let stamp = stamp_text(opts.timestamp_format, meta, ctx);
    if stamp.len() > 0 {
        number_text(opts, ctx) + stamp + " "@
    } else if opts.packet_number {
        decimal(ctx.num as nat) + " "@
    } else {
        Seq::<char>::empty()
    }
}

fn push_lead(out: &mut String, meta: &PacketMeta, opts: &PrintOptions, ctx: &PktCtx)
    ensures
        final(out)@ == old(out)@ + lead_text(*meta, *opts, *ctx),
{
    let mut stamp: String = String::new();
    push_stamp(&mut stamp, opts.timestamp_format, meta, ctx);
    assert(stamp@ =~= stamp_text(opts.timestamp_format, *meta, *ctx));
    if stamp.as_str().unicode_len() > 0 {
        push_number(out, opts, ctx);
        push_text(out, stamp.as_str());
        push_text(out, " ");
    } else if opts.packet_number {
        push_decimal(out, ctx.num as u128);
        push_text(out, " ");
    }
    assert(out@ =~= old(out)@ + lead_text(*meta, *opts, *ctx));
}

/// The link-level header, with a space behind it.
pub open spec fn link_text(data: Seq<u8>, opts: PrintOptions) -> Seq<char> {
    if opts.link_header && data.len() >= 14 {
        mac_text(data.subrange(6, 12)) + " > "@ + mac_text(data.subrange(0, 6)) + " ethertype 0x"@
            + pad_left(hex(half_at(data, 12) as nat), 4, '0') + " "@
    } else {
        Seq::<char>::empty()
    }
}

fn push_link(out: &mut String, data: &[u8], opts: &PrintOptions)
    ensures
        final(out)@ == old(out)@ + link_text(data@, *opts),
{
    if opts.link_header && data.len() >= 14 {
        let src: String = format_mac(slice_subrange(data, 6, 12));
        let dst: String = format_mac(slice_subrange(data, 0, 6));
        let ethertype: u16 = read_u16(data, 12);
        push_text(out, src.as_str());
        push_text(out, " > ");
        push_text(out, dst.as_str());
        push_text(out, " ethertype 0x");
        let mut digits: String = String::new();
        push_hex(&mut digits, ethertype as u64);
        assert(digits@ =~= hex(ethertype as nat));
        push_padded(out, digits.as_str(), 4, '0');
        push_text(out, " ");
    }
    assert(out@ =~= old(out)@ + link_text(data@, *opts));
}

/// The length of an IPv4 header in bytes, as its first byte says.
pub open spec fn ihl(data: Seq<u8>) -> int {
    4 * (data[14] & 0x0f)
}

fn read_ihl(data: &[u8]) -> (len: usize)
    requires
        data@.len() > 14,
    ensures
        len == ihl(data@),
        len <= 60,
{
    let first: u8 = data[14];
    assert(first & 0x0f <= 15) by (bit_vector);
    (first & 0x0f) as usize * 4
}

/// Details of the IP header, each with a space before it.
pub open spec fn ip_details(data: Seq<u8>, info: PacketInfo) -> Seq<char> {
    if info.ethertype == Some(ETHERTYPE_IP) && data.len() >= 34 && data.len() >= 14 + ihl(data) {
        " ttl "@ + decimal(data[22] as nat) + " id "@ + decimal(half_at(data, 18) as nat)
            + ",offset "@ + decimal((half_at(data, 20) & 0x1fff) as nat) + ","@ + (if data[20] & 0x20
            != 0 {
            "+"@
        } else {
            Seq::<char>::empty()
        })
    } else if info.ethertype == Some(ETHERTYPE_IPV6) && data.len() >= 54 {
        " hlim "@ + decimal(data[21] as nat)
    } else {
        Seq::<char>::empty()
    }
}

fn push_ip_details(out: &mut String, data: &[u8], info: &PacketInfo)
    ensures
        final(out)@ == old(out)@ + ip_details(data@, *info),
{
    match info.ethertype {
        Some(0x0800) => {
            if data.len() >= 34 && data.len() >= 14 + read_ihl(data) {
                push_text(out, " ttl ");
                push_decimal(out, data[22] as u128);
                push_text(out, " id ");
                push_decimal(out, read_u16(data, 18) as u128);
                push_text(out, ",offset ");
                push_decimal(out, (read_u16(data, 20) & 0x1fff) as u128);
                push_text(out, ",");
                if data[20] & 0x20 != 0 {
                    push_text(out, "+");
                }
            }
        },
        Some(0x86dd) => {
            if data.len() >= 54 {
                push_text(out, " hlim ");
                push_decimal(out, data[21] as u128);
            }
        },
        _ => {},
    }
    assert(out@ =~= old(out)@ + ip_details(data@, *info));
}

/// Where the TCP header starts.
pub open spec fn tcp_start(data: Seq<u8>, info: PacketInfo) -> int {
    if info.ethertype == Some(ETHERTYPE_IP) {
        14 + ihl(data)
    } else {
        54
    }
}

/// Details of the TCP header, each with a space before it.
pub open spec fn tcp_details(data: Seq<u8>, info: PacketInfo) -> Seq<char> {
    let start = tcp_start(data, info);
    if info.protocol == Some(IPPROTO_TCP) && data.len() >= 34 && data.len() >= start + 20 {
        " "@ + flags_text(data[start + 13]) + " seq "@ + decimal(word_at(data, start + 4) as nat)
            + " ack "@ + decimal(word_at(data, start + 8) as nat) + " win "@ + decimal(
            half_at(data, start + 14) as nat,
        )
    } else {
        Seq::<char>::empty()
    }
}

fn push_tcp_details(out: &mut String, data: &[u8], info: &PacketInfo)
    ensures
        final(out)@ == old(out)@ + tcp_details(data@, *info),
{
    let is_tcp: bool = match info.protocol {
        Some(protocol) => protocol == IPPROTO_TCP,
        None => false,
    };
    if is_tcp && data.len() >= 34 {
        let is_v4: bool = match info.ethertype {
            Some(ethertype) => ethertype == ETHERTYPE_IP,
            None => false,
        };
        let start: usize = if is_v4 {
            14 + read_ihl(data)
        } else {
            54
        };
        if data.len() >= start + 20 {
            let flags: String = format_tcp_flags(data[start + 13]);
            push_text(out, " ");
            push_text(out, flags.as_str());
            push_text(out, " seq ");
            push_decimal(out, read_u32(data, start as u64 + 4) as u128);
            push_text(out, " ack ");
            push_decimal(out, read_u32(data, start as u64 + 8) as u128);
            push_text(out, " win ");
            push_decimal(out, read_u16(data, start as u64 + 14) as u128);
        }
    }
    assert(out@ =~= old(out)@ + tcp_details(data@, *info));
}

/// What is known of a packet.
pub open spec fn middle_text(
    data: Seq<u8>,
    info: Option<PacketInfo>,
    opts: PrintOptions,
) -> Seq<char> {
    match info {
        Some(info) => ends_text(info, opts) + " "@ + proto_text(info, opts) + (if opts.verbose > 0
            && data.len() >= 14 {
            ip_details(data, info) + tcp_details(data, info)
        } else {
            Seq::<char>::empty()
        }),
        None => "[unknown]"@,
    }
}

fn push_middle(out: &mut String, data: &[u8], info: &Option<PacketInfo>, opts: &PrintOptions)
    ensures
        final(out)@ == old(out)@ + middle_text(data@, *info, *opts),
{
    match info {
        Some(info) => {
            push_ends(out, info, opts);
            push_text(out, " ");
            push_proto(out, info, opts);
            let ghost known = out@;
            let ghost details = if opts.verbose > 0 && data@.len() >= 14 {
                ip_details(data@, *info) + tcp_details(data@, *info)
            } else {
                Seq::<char>::empty()
            };
            if opts.verbose > 0 && data.len() >= 14 {
                push_ip_details(out, data, info);
                push_tcp_details(out, data, info);
            }
            proof {
                let end = Seq::<char>::empty();
                if opts.verbose > 0 && data@.len() >= 14 {
                    lemma_four(
                        known,
                        ip_details(data@, *info),
                        tcp_details(data@, *info),
                        end,
                        end,
                    );
                }
                assert(out@ =~= known + details);
                lemma_four(
                    old(out)@,
                    ends_text(*info, *opts),
                    " "@,
                    proto_text(*info, *opts),
                    details,
                );
            }
        },
        None => {
            push_text(out, "[unknown]");
        },
    }
}

/// The line of a packet.
pub open spec fn line_text(
    packet: Packet,
    info: Option<PacketInfo>,
    opts: PrintOptions,
    ctx: PktCtx,
) -> Seq<char> {
    lead_text(packet.meta, opts, ctx) + link_text(packet.data@, opts) + middle_text(
        packet.data@,
        info,
        opts,
    ) + len_text(packet.meta)
}

fn push_line(
    out: &mut String,
    packet: &Packet,
    info: &Option<PacketInfo>,
    opts: &PrintOptions,
    ctx: &PktCtx,
)
    ensures
        final(out)@ == old(out)@ + line_text(*packet, *info, *opts, *ctx),
{
    let data: &[u8] = packet.data.as_slice();
    push_lead(out, &packet.meta, opts, ctx);
    push_link(out, data, opts);
    push_middle(out, data, info, opts);
    push_len(out, &packet.meta);
    proof {
        lemma_four(
            old(out)@,
            lead_text(packet.meta, *opts, *ctx),
            link_text(data@, *opts),
            middle_text(data@, *info, *opts),
            len_text(packet.meta),
        );
    }
}

/// The dumps of the bytes that the options ask for.
pub open spec fn hex_part(bytes: Seq<u8>, opts: PrintOptions, term_width: int) -> Seq<char> {
    (if opts.hex > 0 {
        hex_dump(bytes, hex_bytes(term_width))
    } else {
        Seq::<char>::empty()
    }) + (if opts.hex_ascii > 0 {
        hex_ascii_dump(bytes, hex_bytes(term_width))
    } else {
        Seq::<char>::empty()
    })
}

/// The hex dumps of a packet, without the link-level header unless that is asked for.
pub open spec fn hex_text(data: Seq<u8>, opts: PrintOptions, term_width: int) -> Seq<char> {
    if opts.hex >= 2 || opts.hex_ascii >= 2 {
        hex_part(data, opts, term_width)
    } else if data.len() >= 14 {
        hex_part(data.skip(14), opts, term_width)
    } else {
        Seq::<char>::empty()
    }
}

fn push_hex_part(out: &mut String, bytes: &[u8], opts: &PrintOptions, term_width: usize)
    ensures
        final(out)@ == old(out)@ + hex_part(bytes@, *opts, term_width as int),
{
    let bpl: usize = hex_bytes_per_line(term_width);
    if opts.hex > 0 {
        let dump: String = format_hex(bytes, bpl);
        push_text(out, dump.as_str());
    }
    if opts.hex_ascii > 0 {
        let dump: String = format_hex_ascii(bytes, bpl);
        push_text(out, dump.as_str());
    }
    assert(out@ =~= old(out)@ + hex_part(bytes@, *opts, term_width as int));
}

fn push_dumps(out: &mut String, data: &[u8], opts: &PrintOptions, term_width: usize)
    ensures
        final(out)@ == old(out)@ + hex_text(data@, *opts, term_width as int) + ascii_text(
            data@,
            *opts,
            term_width as int,
        ),
{
    let ghost before = out@;
    if opts.hex >= 2 || opts.hex_ascii >= 2 {
        push_hex_part(out, data, opts, term_width);
    } else if data.len() >= 14 {
        let payload: &[u8] = slice_subrange(data, 14, data.len());
        assert(payload@ =~= data@.skip(14));
        push_hex_part(out, payload, opts, term_width);
    }
    assert(out@ =~= before + hex_text(data@, *opts, term_width as int));
    let ghost after_hex = out@;
    if opts.ascii && opts.hex_ascii == 0 && data.len() > 14 {
        let payload: &[u8] = slice_subrange(data, 14, data.len());
        assert(payload@ =~= data@.skip(14));
        let dump: String = format_ascii(payload, ascii_bytes_per_line(term_width));
        push_text(out, dump.as_str());
        push_text(out, "\n");
    }
    assert(out@ =~= after_hex + ascii_text(data@, *opts, term_width as int));
}

/// The payload of a packet as characters, where no dump shows them already.
pub open spec fn ascii_text(data: Seq<u8>, opts: PrintOptions, term_width: int) -> Seq<char> {
    if opts.ascii && opts.hex_ascii == 0 && data.len() > 14 {
        ascii_dump(data.skip(14), ascii_bytes(term_width)) + "\n"@
    } else {
        Seq::<char>::empty()
    }
}

/// All that is printed for a packet with the given header fields.
pub open spec fn packet_text(
    packet: Packet,
    info: Option<PacketInfo>,
    opts: PrintOptions,
    ctx: PktCtx,
    term_width: int,
) -> Seq<char> {
    if opts.quiet {
        quiet_text(packet.meta, info, opts, ctx) + "\n"@
    } else {
        line_text(packet, info, opts, ctx) + "\n"@ + hex_text(packet.data@, opts, term_width)
            + ascii_text(packet.data@, opts, term_width)
    }
}

/// The context behind a printed packet.
pub open spec fn ctx_behind(ctx: PktCtx, meta: PacketMeta) -> PktCtx {
    PktCtx { prev_ts: stamp_of(meta), ..ctx }
}

/// Format a packet with the given header fields.
pub fn format_packet(
    packet: &Packet,
    info: &Option<PacketInfo>,
    opts: &PrintOptions,
    ctx: &mut PktCtx,
    term_width: usize,
) -> (text: String)
    ensures
        text@ == packet_text(*packet, *info, *opts, *old(ctx), term_width as int),
        *final(ctx) == ctx_behind(*old(ctx), packet.meta),
{
    let mut out: String = String::new();
    if opts.quiet {
        push_quiet(&mut out, &packet.meta, info, opts, ctx);
        push_text(&mut out, "\n");
    } else {
        push_line(&mut out, packet, info, opts, ctx);
        push_text(&mut out, "\n");
        push_dumps(&mut out, packet.data.as_slice(), opts, term_width);
    }
    assert(out@ =~= packet_text(*packet, *info, *opts, *ctx, term_width as int));
    ctx.prev_ts = (packet.meta.ts_sec as i64, packet.meta.ts_usec);
    out
}

/// Parse and format a packet.
pub fn print_packet(packet: &Packet, opts: &PrintOptions, ctx: &mut PktCtx, term_width: usize) -> (
    text: String)
    ensures
        text@ == packet_text(
            *packet,
            info_of(packet.data@, sliced_headers(packet.data@)),
            *opts,
            *old(ctx),
            term_width as int,
        ),
        *final(ctx) == ctx_behind(*old(ctx), packet.meta),
{
    let info: Option<PacketInfo> = parse_packet(packet.data.as_slice());
    format_packet(packet, &info, opts, ctx, term_width)
}

} // verus!
