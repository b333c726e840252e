//! What a run of the tool decides: which filter it uses, which packets it takes, and what it does
//! with them.

use vstd::prelude::*;
use vstd::slice::slice_subrange;

use crate::ast::{holds, Expr, FilterAst};
use crate::capture::{
    raw_program, OpenOptions, RawBpfInsn, DEFAULT_BLOCK_SIZE, DEFAULT_SNAPLEN,
};
use crate::compiler::{code_of, compilable, compile, is_compilable, program_of};
use crate::meaning::law_compiled_filter_decides;
use crate::packet::{info_of, parse_packet, sliced_headers, NetdumpError, Packet, PacketInfo, PacketMeta};
use crate::parser::{expr_of, parse};
use crate::print::{
    ctx_behind, format_packet, packet_text, stamp_of, PktCtx, PrintOptions,
};
use crate::text::{chars_of, decimal, push_chars, push_decimal, push_text};
use crate::types::Instruction;
use crate::vm::{accepts, Vm};

verus! {

/// Whether the character is white space.
pub open spec fn is_white(c: char) -> bool {
    let n = c as u32;
    ||| 0x09 <= n <= 0x0d
    ||| n == 0x20
    ||| n == 0x85
    ||| n == 0xa0
    ||| n == 0x1680
    ||| 0x2000 <= n <= 0x200a
    ||| n == 0x2028
    ||| n == 0x2029
    ||| n == 0x202f
    ||| n == 0x205f
    ||| n == 0x3000
}

fn is_white_char(c: char) -> (yes: bool)
    ensures
        yes == is_white(c),
{
    let n: u32 = c as u32;
    (0x09 <= n && n <= 0x0d) || n == 0x20 || n == 0x85 || n == 0xa0 || n == 0x1680 || (0x2000 <= n
        && n <= 0x200a) || n == 0x2028 || n == 0x2029 || n == 0x202f || n == 0x205f || n == 0x3000
}

/// The text without white space at its beginning.
pub open spec fn trim_start(text: Seq<char>) -> Seq<char>
    decreases text.len(),
{
    if text.len() > 0 && is_white(text[0]) {
        trim_start(text.skip(1))
    } else {
        text
    }
}

/// The text without white space at its end.
pub open spec fn trim_end(text: Seq<char>) -> Seq<char>
    decreases text.len(),
{
    if text.len() > 0 && is_white(text.last()) {
        trim_end(text.drop_last())
    } else {
        text
    }
}

/// The text without white space at either end.
pub open spec fn trimmed(text: Seq<char>) -> Seq<char> {
    trim_end(trim_start(text))
}

/// The text without white space at either end.
pub fn trim(text: &str) -> (result: String)
    ensures
        result@ == trimmed(text@),
{
    let chars: Vec<char> = chars_of(text);
    let mut start: usize = 0;
    assert(chars@.skip(0) =~= chars@);
    while start < chars.len() && is_white_char(chars[start])
        invariant
            0 <= start <= chars@.len(),
            trim_start(chars@) == trim_start(chars@.skip(start as int)),
        decreases chars@.len() - start,
    {
        assert(chars@.skip(start as int).skip(1) =~= chars@.skip(start + 1));
        start = start + 1;
    }
    let mut end: usize = chars.len();
    assert(chars@.subrange(start as int, end as int) =~= chars@.skip(start as int));
    assert(trim_start(chars@) == chars@.skip(start as int));
    while end > start && is_white_char(chars[end - 1])
        invariant
            start <= end <= chars@.len(),
            trimmed(chars@) == trim_end(chars@.subrange(start as int, end as int)),
        decreases end,
    {
        assert(chars@.subrange(start as int, end as int).drop_last() =~= chars@.subrange(
            start as int,
            end - 1,
        ));
        end = end - 1;
    }
    let mut result: String = String::new();
    push_chars(&mut result, slice_subrange(chars.as_slice(), start, end));
    assert(result@ =~= trimmed(text@));
    result
}

/// The words with spaces between them.
pub open spec fn joined(words: Seq<String>) -> Seq<char>
    decreases words.len(),
{
    if words.len() == 0 {
        Seq::<char>::empty()
    } else if words.len() == 1 {
        words[0]@
    } else {
        joined(words.drop_last()) + " "@ + words.last()@
    }
}

/// The words with spaces between them.
pub fn join(words: &[String]) -> (result: String)
    ensures
        result@ == joined(words@),
{
    let mut result: String = String::new();
    let mut i: usize = 0;
    assert(words@.take(0) =~= Seq::<String>::empty());
    while i < words.len()
        invariant
            0 <= i <= words@.len(),
            result@ == joined(words@.take(i as int)),
        decreases words@.len() - i,
    {
        if i > 0 {
            push_text(&mut result, " ");
        }
        push_text(&mut result, words[i].as_str());
        i = i + 1;
        assert(words@.take(i as int).drop_last() =~= words@.take(i - 1));
        assert(result@ =~= joined(words@.take(i as int)));
    }
    assert(words@.take(i as int) =~= words@);
    result
}

/// The filter expression of a run: the text of the filter file, which must not be blank, or the
/// words of the command line. `None` stands for an error.
pub open spec fn filter_text(file: Option<Seq<char>>, words: Seq<String>) -> Option<
    Option<Seq<char>>,
> {
    match file {
        Some(text) => if trimmed(text).len() == 0 {
            None
        } else {
            Some(Some(trimmed(text)))
        },
        None => if trimmed(joined(words)).len() == 0 {
            Some(None)
        } else {
            Some(Some(trimmed(joined(words))))
        },
    }
}

/// Choose the filter expression of a run.
pub fn choose_filter(file: Option<&str>, words: &[String]) -> (filter: Result<
    Option<String>,
    NetdumpError,
>)
    ensures
        match (
            filter,
            filter_text(
                match file {
                    Some(text) => Some(text@),
                    None => None,
                },
                words@,
            ),
        ) {
            (Ok(Some(found)), Some(Some(text))) => found@ == text,
            (Ok(None), Some(None)) => true,
            (Err(error), None) => error.text() == "parse error: "@ + "empty filter file"@,
            _ => false,
        },
{
    match file {
        Some(text) => {
            let text: String = trim(text);
            if text.as_str().unicode_len() == 0 {
                Err(NetdumpError::Parse("empty filter file".to_owned()))
            } else {
                Ok(Some(text))
            }
        },
        None => {
            let words: String = join(words);
            let text: String = trim(words.as_str());
            if text.as_str().unicode_len() == 0 {
                Ok(None)
            } else {
                Ok(Some(text))
            }
        },
    }
}

/// An instruction in full.
pub open spec fn instruction_text(inst: Instruction) -> Seq<char> {
    "Instruction { code: "@ + decimal(inst.code as nat) + ", jt: "@ + decimal(inst.jt as nat)
        + ", jf: "@ + decimal(inst.jf as nat) + ", k: "@ + decimal(inst.k as nat) + " }"@
}

/// A listing of the first `n` instructions of a program.
pub open spec fn listing(program: Seq<Instruction>, n: int) -> Seq<char>
    decreases n,
{
    if n <= 0 {
        Seq::<char>::empty()
    } else {
        listing(program, n - 1) + "  "@ + decimal((n - 1) as nat) + ": "@ + instruction_text(
            program[n - 1],
        ) + "\n"@
    }
}

/// A listing of a program.
pub open spec fn program_text(program: Seq<Instruction>) -> Seq<char> {
    "CBPF program ("@ + decimal(program.len()) + " instructions):\n"@ + listing(
        program,
        program.len() as int,
    )
}

fn push_instruction(out: &mut String, inst: &Instruction)
    ensures
        final(out)@ == old(out)@ + instruction_text(*inst),
{
    push_text(out, "Instruction { code: ");
    push_decimal(out, inst.code as u128);
    push_text(out, ", jt: ");
    push_decimal(out, inst.jt as u128);
    push_text(out, ", jf: ");
    push_decimal(out, inst.jf as u128);
    push_text(out, ", k: ");
    push_decimal(out, inst.k as u128);
    push_text(out, " }");
    assert(out@ =~= old(out)@ + instruction_text(*inst));
}

/// List a program.
pub fn format_program(program: &[Instruction]) -> (text: String)
    ensures
        text@ == program_text(program@),
{
    let mut out: String = String::new();
    push_text(&mut out, "CBPF program (");
    push_decimal(&mut out, program.len() as u128);
    push_text(&mut out, " instructions):\n");
    let ghost head = out@;
    let mut i: usize = 0;
    while i < program.len()
        invariant
            0 <= i <= program@.len(),
            out@ == head + listing(program@, i as int),
        decreases program@.len() - i,
    {
        push_text(&mut out, "  ");
        push_decimal(&mut out, i as u128);
        push_text(&mut out, ": ");
        push_instruction(&mut out, &program[i]);
        push_text(&mut out, "\n");
        i = i + 1;
        assert(out@ =~= head + listing(program@, i as int));
    }
    assert(out@ =~= program_text(program@));
    out
}

/// What comes of the filter expression of a run.
pub enum Prepared {
    /// The listing of its program, which was asked for.
    Listing(String),
    /// The program that selects packets; none where there is no filter.
    Program(Option<Vec<Instruction>>),
}

/// Whether preparing the filter came to what it should.
pub open spec fn is_prepared(
    filter: Option<Seq<char>>,
    dump: bool,
    result: Result<Prepared, NetdumpError>,
) -> bool {
    match filter {
        None => if dump {
            result matches Err(error) && error.text() == "parse error: "@
                + "no filter expression to dump"@
        } else {
            result matches Ok(Prepared::Program(None))
        },
        Some(text) => match expr_of(text) {
            Err(message) => result matches Err(error) && error.text() == "parse error: "@ + message,
            Ok(expr) => if !compilable(expr) {
                result matches Err(error) && error.text() == "unsupported: "@
                    + "filter expression too long"@
            } else if dump {
                result matches Ok(Prepared::Listing(listing)) && listing@ == program_text(
                    program_of(code_of(expr)),
                )
            } else {
                result matches Ok(Prepared::Program(Some(program))) && program@ == program_of(
                    code_of(expr),
                )
            },
        },
    }
}

/// Compile the filter expression of a run, or list its program. An expression has no program where
/// one of its jumps would be too far.
pub fn prepare(filter: Option<&str>, dump: bool) -> (result: Result<Prepared, NetdumpError>)
    ensures
        is_prepared(
            match filter {
                Some(text) => Some(text@),
                None => None,
            },
            dump,
            result,
        ),
{
    let text: &str = match filter {
        Some(text) => text,
        None => {
            return if dump {
                Err(NetdumpError::Parse("no filter expression to dump".to_owned()))
            } else {
                Ok(Prepared::Program(None))
            };
        },
    };
    let ast: FilterAst = match parse(text) {
        Ok(ast) => ast,
        Err(e) => return Err(NetdumpError::Parse(e.message())),
    };
    if !is_compilable(&ast) {
        return Err(NetdumpError::Unsupported("filter expression too long".to_owned()));
    }
    let program: Vec<Instruction> = compile(&ast);
    if dump {
        Ok(Prepared::Listing(format_program(program.as_slice())))
    } else {
        Ok(Prepared::Program(Some(program)))
    }
}

/// The capture options of the command line.
#[derive(Debug, Clone, Copy, PartialEq, Eq)]
pub struct CaptureArgs {
    /// Snap length; 0 means no limit.
    pub snaplen: u32,
    pub no_promiscuous: bool,
    /// Capture buffer size (KiB).
    pub buffer_size: Option<u32>,
    /// Ring block size (KiB).
    pub block_size_kib: u32,
    pub block_nr: u32,
    pub frame_size: u32,
    pub retire_tov_ms: u32,
}

/// The size of a block in bytes; the default where it cannot be counted.
pub open spec fn block_size_of(kib: u32) -> int {
    if kib * 1024 <= usize::MAX {
        kib * 1024
    } else {
        DEFAULT_BLOCK_SIZE as int
    }
}

/// The socket options that the command line asks for.
pub fn capture_options(args: &CaptureArgs) -> (options: OpenOptions)
    ensures
        options == (OpenOptions {
            snaplen: if args.snaplen == 0 {
                DEFAULT_SNAPLEN
            } else {
                args.snaplen as usize
            },
            promiscuous: !args.no_promiscuous,
            block_size: block_size_of(args.block_size_kib) as usize,
            block_nr: args.block_nr as usize,
            buffer_size: args.buffer_size,
            frame_size: Some(args.frame_size as usize),
            retire_tov_ms: Some(args.retire_tov_ms),
        }),
        args.snaplen == 0 ==> options.snaplen == 65535,
        args.block_size_kib * 1024 <= usize::MAX ==> options.block_size == args.block_size_kib
            * 1024,
{
    let snaplen: usize = if args.snaplen == 0 {
        DEFAULT_SNAPLEN
    } else {
        args.snaplen as usize
    };
    let block_size: usize = match (args.block_size_kib as usize).checked_mul(1024) {
        Some(size) => size,
        None => DEFAULT_BLOCK_SIZE,
    };
    OpenOptions {
        snaplen,
        promiscuous: !args.no_promiscuous,
        block_size,
        block_nr: args.block_nr as usize,
        buffer_size: args.buffer_size,
        frame_size: Some(args.frame_size as usize),
        retire_tov_ms: Some(args.retire_tov_ms),
    }
}

/// The program to be attached to the socket: none where packets are filtered in user space.
pub fn kernel_program(program: &Option<Vec<Instruction>>, userspace: bool) -> (insns: Option<
    Vec<RawBpfInsn>,
>)
    ensures
        insns is Some == (program is Some && !userspace),
        insns matches Some(insns) ==> {
            &&& insns@.len() == program->0@.len()
            &&& forall|i: int|
                0 <= i < insns@.len() ==> #[trigger] insns@[i] == (RawBpfInsn {
                    code: program->0@[i].code,
                    jt: program->0@[i].jt,
                    jf: program->0@[i].jf,
                    k: program->0@[i].k,
                })
        },
{
    match program {
        Some(program) => {
            if userspace {
                None
            } else {
                Some(raw_program(program.as_slice()))
            }
        },
        None => None,
    }
}

/// The header of a record in a capture file.
#[derive(Debug, Clone, Copy, PartialEq, Eq, Structural)]
pub struct Record {
    pub sec: u64,
    pub nanos: u32,
    pub orig_len: u32,
}

/// The header under which a packet is saved.
pub open spec fn record_of(meta: PacketMeta) -> Record {
    Record {
        sec: meta.ts_sec,
        nanos: (meta.ts_usec * 1000) as u32,
        orig_len: meta.orig_len as u32,
    }
}

/// The metadata of a packet of `len` bytes that was saved under the header; times in a file are
/// read in microseconds.
pub open spec fn saved_meta(record: Record, ifindex: i32, len: nat) -> PacketMeta {
    PacketMeta {
        ts_sec: record.sec,
        ts_usec: (record.nanos / 1000) as u64,
        ifindex,
        cap_len: len as usize,
        orig_len: record.orig_len as usize,
    }
}

/// The header under which a packet is saved.
pub fn packet_record(meta: &PacketMeta) -> (record: Record)
    requires
        meta.ts_usec * 1000 <= u64::MAX,
    ensures
        record == record_of(*meta),
{
    let nanos: u64 = meta.ts_usec * 1000;
    Record { sec: meta.ts_sec, nanos: nanos as u32, orig_len: meta.orig_len as u32 }
}

/// A packet of a record in a capture file.
pub fn record_packet(record: &Record, ifindex: i32, data: Vec<u8>) -> (packet: Packet)
    ensures
        packet.data@ == data@,
        packet.meta == saved_meta(*record, ifindex, data@.len()),
{
    let meta: PacketMeta = PacketMeta::new(
        record.sec,
        (record.nanos / 1000) as u64,
        ifindex,
        data.len(),
        record.orig_len as usize,
    );
    Packet::new(meta, data)
}

/// A packet that is saved and read again has its time and its lengths back.
pub proof fn law_saved_packet_reads_back(meta: PacketMeta, ifindex: i32)
    requires
        meta.ts_usec < 1_000_000,
        meta.orig_len <= u32::MAX,
    ensures
        saved_meta(record_of(meta), ifindex, meta.cap_len as nat) == (PacketMeta {
            ifindex,
            ..meta
        }),
        record_of(meta).nanos < 1_000_000_000,
{
}

/// Which packets a run takes.
pub struct Selection {
    /// The program of the filter.
    pub program: Option<Vec<Instruction>>,
    /// Whether the kernel runs the program already.
    pub kernel_filtered: bool,
    /// The direction that packets must have: `in`, `out`, or another word for either.
    pub direction: Option<String>,
    /// The MAC address of the interface.
    pub mac: Option<[u8; 6]>,
}

/// Whether the frame comes from the MAC address.
pub open spec fn comes_from(data: Seq<u8>, mac: Seq<u8>) -> bool {
    data.subrange(6, 12) == mac
}

/// Whether the packet has the direction.
pub open spec fn has_direction(
    direction: Option<String>,
    mac: Option<[u8; 6]>,
    data: Seq<u8>,
) -> bool {
    match (direction, mac) {
        (Some(direction), Some(mac)) => if data.len() >= 14 {
            &&& direction@ == "in"@ ==> !comes_from(data, mac@)
            &&& direction@ == "out"@ ==> comes_from(data, mac@)
        } else {
            true
        },
        _ => true,
    }
}

impl Selection {
    /// Whether the filter passes the packet.
    pub open spec fn filter_passes(&self, data: Seq<u8>) -> bool {
        match self.program {
            Some(program) => self.kernel_filtered || accepts(program@, data),
            None => true,
        }
    }

    /// Whether the packet is one to be taken.
    pub open spec fn selects(&self, data: Seq<u8>) -> bool {
        self.filter_passes(data) && has_direction(self.direction, self.mac, data)
    }

    /// Decide whether the packet is one to be taken.
    pub fn wants(&self, data: &[u8]) -> (yes: bool)
        ensures
            yes == self.selects(data@),
    {
        let matched: bool = self.kernel_filtered || match &self.program {
            Some(program) => Vm::exec(program.as_slice(), data),
            None => true,
        };
        matched && check_direction(&self.direction, &self.mac, data)
    }
}

fn is_text(found: &String, text: &str) -> (yes: bool)
    ensures
        yes == (found@ == text@),
{
    let text: String = text.to_owned();
    *found == text
}

fn check_direction(direction: &Option<String>, mac: &Option<[u8; 6]>, data: &[u8]) -> (yes: bool)
    ensures
        yes == has_direction(*direction, *mac, data@),
{
    proof {
        reveal_strlit("in");
        reveal_strlit("out");
    }
    match (direction, mac) {
        (Some(direction), Some(mac)) => {
            if data.len() < 14 {
                return true;
            }
            let outgoing: bool = data[6] == mac[0] && data[7] == mac[1] && data[8] == mac[2]
                && data[9] == mac[3] && data[10] == mac[4] && data[11] == mac[5];
            proof {
                let src = data@.subrange(6, 12);
                assert(src[0] == data@[6] && src[1] == data@[7] && src[2] == data@[8]);
                assert(src[3] == data@[9] && src[4] == data@[10] && src[5] == data@[11]);
                if outgoing {
                    assert(src =~= mac@);
                }
                assert(outgoing == comes_from(data@, mac@));
                assert("in"@.len() != "out"@.len());
            }
            if is_text(direction, "in") {
                !outgoing
            } else if is_text(direction, "out") {
                outgoing
            } else {
                true
            }
        },
        _ => true,
    }
}

/// A filter expression selects, of the packets that have the direction, those for which it holds.
pub proof fn law_selection_follows_filter(selection: Selection, expr: Expr, data: Seq<u8>)
    requires
        compilable(expr),
        selection.program matches Some(program) && program@ == program_of(code_of(expr)),
        !selection.kernel_filtered,
    ensures
        selection.selects(data) == (holds(expr, data) && has_direction(
            selection.direction,
            selection.mac,
            data,
        )),
{
    law_compiled_filter_decides(expr, data);
}

/// A whole frame either comes in or goes out, and either way it passes under any other word for
/// a direction, such as `inout`.
pub proof fn law_directions_are_opposite(
    incoming: String,
    outgoing: String,
    other: String,
    mac: [u8; 6],
    data: Seq<u8>,
)
    requires
        incoming@ == "in"@,
        outgoing@ == "out"@,
        other@ != "in"@,
        other@ != "out"@,
        data.len() >= 14,
    ensures
        has_direction(Some(incoming), Some(mac), data) != has_direction(
            Some(outgoing),
            Some(mac),
            data,
        ),
        has_direction(Some(other), Some(mac), data),
{
    reveal_strlit("in");
    reveal_strlit("out");
    assert("in"@.len() != "out"@.len());
}

/// Where the packets of a run go.
#[derive(Debug, Clone, Copy, PartialEq, Eq, Structural)]
pub struct OutputArgs {
    /// They are written to a file.
    pub write: bool,
    /// They are printed even so.
    pub print: bool,
    /// How they are printed.
    pub options: PrintOptions,
}

impl OutputArgs {
    /// Whether packets are printed.
    pub open spec fn prints(&self) -> bool {
        !self.write || self.print
    }
}

/// The state of a run: how many packets it has taken, and the printing context.
pub struct Session {
    pub captured: usize,
    pub ctx: PktCtx,
}

impl Session {
    /// A run that has taken no packets.
    pub fn new() -> (session: Self)
        ensures
            session.wf(),
            session.captured == 0,
            session.ctx == (PktCtx { num: 0, prev_ts: (0, 0), first_ts: (0, 0) }),
    {
        Session { captured: 0, ctx: PktCtx { num: 0, prev_ts: (0, 0), first_ts: (0, 0) } }
    }

    /// Packets are numbered from one on.
    pub open spec fn wf(&self) -> bool {
        self.ctx.num == self.captured
    }

    /// Whether the run has taken as many packets as it should.
    pub fn is_done(&self, count: Option<usize>) -> (yes: bool)
        ensures
            yes == (count matches Some(max) && self.captured >= max),
    {
        match count {
            Some(max) => self.captured >= max,
            None => false,
        }
    }

    /// The context in which a packet is printed that is the next one of the run.
    pub open spec fn next_ctx(&self, meta: PacketMeta) -> PktCtx {
        PktCtx {
            num: (self.ctx.num + 1) as usize,
            prev_ts: self.ctx.prev_ts,
            first_ts: if self.ctx.num == 0 {
                stamp_of(meta)
            } else {
                self.ctx.first_ts
            },
        }
    }

    /// The run behind a packet that it takes.
    pub open spec fn behind(&self, meta: PacketMeta, output: OutputArgs) -> Session {
        Session {
            captured: (self.captured + 1) as usize,
            ctx: if output.prints() {
                ctx_behind(self.next_ctx(meta), meta)
            } else {
                PktCtx { num: (self.ctx.num + 1) as usize, ..self.ctx }
            },
        }
    }

    /// Take a packet with the given header fields; gives back what is printed for it.
    pub fn take_parsed(
        &mut self,
        packet: &Packet,
        info: &Option<PacketInfo>,
        output: &OutputArgs,
        term_width: usize,
    ) -> (text: Option<String>)
        requires
            old(self).wf(),
            old(self).captured < usize::MAX,
        ensures
            final(self).wf(),
            *final(self) == old(self).behind(packet.meta, *output),
            text is Some == output.prints(),
            text matches Some(text) ==> text@ == packet_text(
                *packet,
                *info,
                output.options,
                old(self).next_ctx(packet.meta),
                term_width as int,
            ),
    {
        self.captured = self.captured + 1;
        self.ctx.num = self.ctx.num + 1;
        if output.write && !output.print {
            return None;
        }
        if self.ctx.num == 1 {
            self.ctx.first_ts = (packet.meta.ts_sec as i64, packet.meta.ts_usec);
        }
        Some(format_packet(packet, info, &output.options, &mut self.ctx, term_width))
    }

    /// Take a packet; gives back what is printed for it.
    pub fn take(&mut self, packet: &Packet, output: &OutputArgs, term_width: usize) -> (text:
        Option<String>)
        requires
            old(self).wf(),
            old(self).captured < usize::MAX,
        ensures
            final(self).wf(),
            *final(self) == old(self).behind(packet.meta, *output),
            text is Some == output.prints(),
            text matches Some(text) ==> text@ == packet_text(
                *packet,
                info_of(packet.data@, sliced_headers(packet.data@)),
                output.options,
                old(self).next_ctx(packet.meta),
                term_width as int,
            ),
    {
        let info: Option<PacketInfo> = parse_packet(packet.data.as_slice());
        self.take_parsed(packet, &info, output, term_width)
    }

    /// Take a packet if it is one to be taken; gives back what is printed for it then.
    pub fn offer(
        &mut self,
        selection: &Selection,
        packet: &Packet,
        output: &OutputArgs,
        term_width: usize,
    ) -> (text: Option<Option<String>>)
        requires
            old(self).wf(),
            old(self).captured < usize::MAX,
        ensures
            final(self).wf(),
            text is None == !selection.selects(packet.data@),
            text is None ==> *final(self) == *old(self),
            text matches Some(text) ==> {
                &&& *final(self) == old(self).behind(packet.meta, *output)
                &&& text is Some == output.prints()
                &&& text matches Some(text) ==> text@ == packet_text(
                    *packet,
                    info_of(packet.data@, sliced_headers(packet.data@)),
                    output.options,
                    old(self).next_ctx(packet.meta),
                    term_width as int,
                )
            },
    {
        if selection.wants(packet.data.as_slice()) {
            Some(self.take(packet, output, term_width))
        } else {
            None
        }
    }
}

/// A run that is not done takes a packet more, and never more packets than it should.
pub proof fn law_count_is_kept(session: Session, meta: PacketMeta, output: OutputArgs, max: usize)
    requires
        session.wf(),
        session.captured < max,
    ensures
        session.behind(meta, output).captured == session.captured + 1,
        session.behind(meta, output).captured <= max,
        session.behind(meta, output).wf(),
{
}

/// Times since the first packet are measured from the first one of the run, however many follow,
/// and times since the previous packet from the last one that was printed.
pub proof fn law_times_are_measured_from(session: Session, meta: PacketMeta, output: OutputArgs)
    requires
        output.prints(),
        session.captured < usize::MAX,
    ensures
        session.ctx.num == 0 ==> session.behind(meta, output).ctx.first_ts == stamp_of(meta),
        session.ctx.num > 0 ==> session.behind(meta, output).ctx.first_ts == session.ctx.first_ts,
        session.behind(meta, output).ctx.prev_ts == stamp_of(meta),
{
}

/// What is said at the end of a run.
pub open spec fn summary_text(captured: usize) -> Seq<char> {
    "captured "@ + decimal(captured as nat) + " packets"@
}

/// Say how many packets were captured.
pub fn format_summary(captured: usize) -> (text: String)
    ensures
        text@ == summary_text(captured),
{
    let mut out: String = String::new();
    push_text(&mut out, "captured ");
    push_decimal(&mut out, captured as u128);
    push_text(&mut out, " packets");
    assert(out@ =~= summary_text(captured));
    out
}

} // verus!
