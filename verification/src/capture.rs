//! The ring buffer of a capture socket: its layout, and the order in which it is read.

use vstd::arithmetic::div_mod::{
    lemma_div_multiples_vanish, lemma_div_pos_is_pos, lemma_fundamental_div_mod,
    lemma_mod_multiples_basic, lemma_mod_self_0, lemma_small_mod,
};
use vstd::arithmetic::power2::{
    lemma2_to64, lemma_pow2_adds, lemma_pow2_pos, lemma_pow2_unfold, pow2,
};
use vstd::prelude::*;

use crate::packet::{NetdumpError, Packet, PacketMeta};
use crate::types::Instruction;

verus! {

/// The capture length where none is given.
pub const DEFAULT_SNAPLEN: usize = 65535;

// Default ring buffer configuration.
pub const DEFAULT_BLOCK_SIZE: usize = 0x10_0000;

pub const DEFAULT_BLOCK_NR: usize = 64;

pub const DEFAULT_FRAME_SIZE: usize = 2048;

pub const DEFAULT_RETIRE_TOV_MS: u32 = 100;

/// The length of an interface name with its terminator.
pub const IFNAMSIZ: usize = 16;

/// AF_PACKET socket open options.
#[derive(Debug, Clone, PartialEq, Eq)]
pub struct OpenOptions {
    /// Maximum capture length, 0 means default.
    pub snaplen: usize,
    /// Whether to enable promiscuous mode.
    pub promiscuous: bool,
    /// Ring buffer block size (bytes).
    pub block_size: usize,
    /// Number of ring buffer blocks.
    pub block_nr: usize,
    /// Kernel socket receive buffer size (KiB), None uses system default.
    pub buffer_size: Option<u32>,
    /// Frame size (bytes), None derives from snaplen automatically.
    pub frame_size: Option<usize>,
    /// Block retire timeout (milliseconds), None uses default.
    pub retire_tov_ms: Option<u32>,
}

impl Default for OpenOptions {
    fn default() -> (options: Self)
        ensures
            options == (OpenOptions {
                snaplen: DEFAULT_SNAPLEN,
                promiscuous: true,
                block_size: DEFAULT_BLOCK_SIZE,
                block_nr: DEFAULT_BLOCK_NR,
                buffer_size: None,
                frame_size: None,
                retire_tov_ms: None,
            }),
    {
        OpenOptions {
            snaplen: DEFAULT_SNAPLEN,
            promiscuous: true,
            block_size: DEFAULT_BLOCK_SIZE,
            block_nr: DEFAULT_BLOCK_NR,
            buffer_size: None,
            frame_size: None,
            retire_tov_ms: None,
        }
    }
}

/// Whether `n` is a power of two.
pub open spec fn is_power_of_two(n: int) -> bool {
    exists|e: nat| n == #[trigger] pow2(e)
}

/// Whether `p` is the smallest power of two that is at least `n`.
pub open spec fn is_next_power(p: int, n: int) -> bool {
    &&& is_power_of_two(p)
    &&& n <= p
    &&& p == 1 || p / 2 < n
}

/// There is one smallest power of two that is at least `n`.
proof fn lemma_next_power(p: int, q: int, n: int)
    requires
        is_next_power(p, n),
        is_next_power(q, n),
    ensures
        p == q,
{
    let a = choose|e: nat| p == #[trigger] pow2(e);
    let b = choose|e: nat| q == #[trigger] pow2(e);
    lemma_pow2_pos(a);
    lemma_pow2_pos(b);
    if a < b {
        lemma_pow2_grows(a, (b - 1) as nat);
        lemma_pow2_unfold(b);
    } else if b < a {
        lemma_pow2_grows(b, (a - 1) as nat);
        lemma_pow2_unfold(a);
    }
}

proof fn lemma_pow2_grows(a: nat, b: nat)
    requires
        a <= b,
    ensures
        pow2(a) <= pow2(b),
    decreases b - a,
{
    if a < b {
        lemma_pow2_grows(a, (b - 1) as nat);
        lemma_pow2_unfold(b);
    }
}

/// There is a smallest power of two that is at least `n`.
pub proof fn lemma_next_power_exists(n: int, e: nat)
    requires
        e == 0 || pow2(e) as int / 2 < n,
    ensures
        is_next_power(next_power(n), n),
    decreases (if (pow2(e) as int) < n {
        n - pow2(e)
    } else {
        0
    }),
{
    lemma_pow2_pos(e);
    if pow2(e) >= n {
        lemma2_to64();
        assert(is_next_power(pow2(e) as int, n));
    } else {
        lemma_pow2_unfold(e + 1);
        lemma_next_power_exists(n, e + 1);
    }
}

/// The smallest power of two that is at least `n`.
pub open spec fn next_power(n: int) -> int {
    choose|p: int| is_next_power(p, n)
}

/// The smallest power of two that is at least `n`, if there is one that fits.
pub fn next_power_of_two(n: usize) -> (power: Option<usize>)
    ensures
        match power {
            Some(p) => p == next_power(n as int) && is_next_power(p as int, n as int),
            None => next_power(n as int) > usize::MAX && is_next_power(
                next_power(n as int),
                n as int,
            ),
        },
{
    let mut p: usize = 1;
    let ghost mut e: nat = 0;
    proof {
        lemma2_to64();
        assert(p == pow2(0));
    }
    while p < n
        invariant
            1 <= p,
            p == pow2(e),
            p == 1 || p / 2 < n,
        decreases (if p < n {
            n - p
        } else {
            0
        }),
    {
        proof {
            lemma_pow2_unfold(e + 1);
            lemma_pow2_pos(e);
            e = e + 1;
        }
        match p.checked_mul(2) {
            Some(doubled) => {
                p = doubled;
            },
            None => {
                proof {
                    let q = pow2(e) as int;
                    assert(is_next_power(q, n as int));
                    lemma_next_power(q, next_power(n as int), n as int);
                }
                return None;
            },
        }
    }
    proof {
        assert(is_next_power(p as int, n as int));
        lemma_next_power(p as int, next_power(n as int), n as int);
    }
    Some(p)
}

/// The smallest multiple of `align` that is at least `value`.
pub open spec fn aligned(value: int, align: int) -> int {
    if value % align == 0 {
        value
    } else {
        value + align - value % align
    }
}

/// Round `value` up to a multiple of `align`, a power of two.
pub fn align_to(value: usize, align: usize) -> (result: usize)
    requires
        is_power_of_two(align as int),
        value + align - 1 <= usize::MAX,
    ensures
        result == aligned(value as int, align as int),
        value <= result < value + align,
        result % align == 0,
{
    proof {
        let e = choose|e: nat| align as int == #[trigger] pow2(e);
        lemma_pow2_pos(e);
    }
    let rest: usize = value % align;
    if rest == 0 {
        value
    } else {
        let result: usize = value + (align - rest);
        proof {
            lemma_round_up(value as int, align as int);
        }
        result
    }
}

/// A power of two is a multiple of each one that is not greater.
proof fn lemma_powers_divide(small: int, large: int)
    requires
        is_power_of_two(small),
        is_power_of_two(large),
        small <= large,
    ensures
        small > 0,
        large % small == 0,
{
    let a = choose|e: nat| small == #[trigger] pow2(e);
    let b = choose|e: nat| large == #[trigger] pow2(e);
    lemma_pow2_pos(a);
    if b < a {
        lemma_pow2_pos(b);
        lemma_pow2_grows(b, (a - 1) as nat);
        lemma_pow2_unfold(a);
    }
    lemma_pow2_adds(a, (b - a) as nat);
    lemma_mod_multiples_basic(pow2((b - a) as nat) as int, small);
    assert(large == pow2((b - a) as nat) * small) by (nonlinear_arith)
        requires
            large == pow2(a) * pow2((b - a) as nat),
            small == pow2(a),
    ;
}

/// A multiple of a multiple.
proof fn lemma_multiple(value: int, large: int, small: int)
    requires
        0 < small,
        0 < large,
        value % large == 0,
        large % small == 0,
    ensures
        value % small == 0,
{
    lemma_fundamental_div_mod(value, large);
    lemma_fundamental_div_mod(large, small);
    let q = value / large;
    let r = large / small;
    assert(value == (r * q) * small) by (nonlinear_arith)
        requires
            value == large * q,
            large == small * r,
    ;
    lemma_mod_multiples_basic(r * q, small);
}

pub proof fn lemma_round_up(value: int, align: int)
    requires
        0 < align,
        0 <= value,
        value % align != 0,
    ensures
        (value + align - value % align) % align == 0,
        0 < value % align < align,
{
    lemma_fundamental_div_mod(value, align);
    let q = value / align;
    assert(value + align - value % align == align * q + align);
    assert(align * q + align == align * (q + 1)) by (nonlinear_arith);
    lemma_mod_multiples_basic(q + 1, align);
    assert(align * (q + 1) == (q + 1) * align) by (nonlinear_arith);
}

/// The layout of a ring buffer.
#[derive(Debug, Clone, Copy, PartialEq, Eq, Structural)]
pub struct RingGeometry {
    pub frame_size: usize,
    pub block_size: usize,
    pub block_nr: usize,
    pub ring_size: usize,
    pub frame_nr: usize,
    pub retire_tov_ms: u32,
}

/// The maximum capture length.
pub open spec fn snaplen_of(options: OpenOptions) -> usize {
    if options.snaplen == 0 {
        DEFAULT_SNAPLEN
    } else {
        options.snaplen
    }
}

/// The size of a frame that is asked for.
pub open spec fn asked_frame(options: OpenOptions) -> usize {
    match options.frame_size {
        Some(size) => size,
        None => DEFAULT_FRAME_SIZE,
    }
}

/// The size that a frame needs at least.
pub open spec fn wanted_frame(options: OpenOptions) -> int {
    if asked_frame(options) < snaplen_of(options) + 256 {
        snaplen_of(options) + 256
    } else {
        asked_frame(options) as int
    }
}

/// The size of a frame: a power of two.
pub open spec fn frame_bytes(options: OpenOptions) -> int {
    next_power(wanted_frame(options))
}

/// The size that a block needs at least.
pub open spec fn wanted_block(options: OpenOptions) -> int {
    if options.block_size < frame_bytes(options) {
        frame_bytes(options)
    } else {
        options.block_size as int
    }
}

/// What the size of a block is a multiple of: the larger one of the page size and the size of a
/// frame. As both are powers of two, it is a multiple of either, and frames fill a block.
pub open spec fn block_unit(options: OpenOptions, page_size: int) -> int {
    if frame_bytes(options) < page_size {
        page_size
    } else {
        frame_bytes(options)
    }
}

/// The size of a block.
pub open spec fn block_bytes(options: OpenOptions, page_size: int) -> int {
    aligned(wanted_block(options), block_unit(options, page_size))
}

/// Whether the sizes of the ring buffer can be counted.
pub open spec fn has_geometry(options: OpenOptions, page_size: int) -> bool {
    &&& is_power_of_two(page_size)
    &&& wanted_frame(options) <= usize::MAX
    &&& frame_bytes(options) <= usize::MAX
    &&& wanted_block(options) + block_unit(options, page_size) - 1 <= usize::MAX
    &&& block_bytes(options, page_size) * options.block_nr <= usize::MAX
}

/// The layout of the ring buffer that the options ask for.
pub open spec fn geometry_of(options: OpenOptions, page_size: int) -> RingGeometry {
    let ring = block_bytes(options, page_size) * options.block_nr;
    RingGeometry {
        frame_size: frame_bytes(options) as usize,
        block_size: block_bytes(options, page_size) as usize,
        block_nr: options.block_nr,
        ring_size: ring as usize,
        frame_nr: (ring / frame_bytes(options)) as usize,
        retire_tov_ms: match options.retire_tov_ms {
            Some(ms) => ms,
            None => DEFAULT_RETIRE_TOV_MS,
        },
    }
}

/// Lay out a ring buffer; nothing where its sizes cannot be counted.
pub fn ring_geometry(options: &OpenOptions, page_size: usize) -> (geometry: Option<RingGeometry>)
    requires
        is_power_of_two(page_size as int),
    ensures
        geometry == (if has_geometry(*options, page_size as int) {
            Some(geometry_of(*options, page_size as int))
        } else {
            None
        }),
{
    proof {
        let e = choose|e: nat| page_size as int == #[trigger] pow2(e);
        lemma_pow2_pos(e);
    }
    let asked: usize = match options.frame_size {
        Some(size) => size,
        None => DEFAULT_FRAME_SIZE,
    };
    let snaplen: usize = if options.snaplen == 0 {
        DEFAULT_SNAPLEN
    } else {
        options.snaplen
    };
    let least: usize = match snaplen.checked_add(256) {
        Some(least) => least,
        None => return None,
    };
    let wanted: usize = if asked < least {
        least
    } else {
        asked
    };
    // The kernel takes frames whose size is a power of two.
    let frame_size: usize = match next_power_of_two(wanted) {
        Some(size) => size,
        None => return None,
    };
    let block: usize = if options.block_size < frame_size {
        frame_size
    } else {
        options.block_size
    };
    // It also wants frames to fill a block.
    let unit: usize = if frame_size < page_size {
        page_size
    } else {
        frame_size
    };
    if block.checked_add(unit - 1).is_none() {
        return None;
    }
    let block_size: usize = align_to(block, unit);
    let ring_size: usize = match block_size.checked_mul(options.block_nr) {
        Some(size) => size,
        None => return None,
    };
    Some(
        RingGeometry {
            frame_size,
            block_size,
            block_nr: options.block_nr,
            ring_size,
            frame_nr: ring_size / frame_size,
            retire_tov_ms: match options.retire_tov_ms {
                Some(ms) => ms,
                None => DEFAULT_RETIRE_TOV_MS,
            },
        },
    )
}

/// A frame holds a packet of the capture length, frames fill a block and pages do too, and the
/// frames of the ring are those of its blocks.
pub proof fn law_ring_holds_its_frames(options: OpenOptions, page_size: int)
    requires
        has_geometry(options, page_size),
        page_size > 0,
    ensures
        ({
            let g = geometry_of(options, page_size);
            &&& snaplen_of(options) + 256 <= g.frame_size
            &&& asked_frame(options) <= g.frame_size
            &&& is_power_of_two(g.frame_size as int)
            &&& options.block_size <= g.block_size
            &&& g.frame_size <= g.block_size
            &&& g.block_size as int % page_size == 0
            &&& g.block_size as int % g.frame_size as int == 0
            &&& g.ring_size == g.block_size * g.block_nr
            &&& g.frame_nr == g.block_size / g.frame_size * g.block_nr
            &&& g.frame_nr * g.frame_size == g.ring_size
        }),
{
    let g = geometry_of(options, page_size);
    lemma_next_power_exists(wanted_frame(options), 0);
    let e = choose|e: nat| frame_bytes(options) == #[trigger] pow2(e);
    lemma_pow2_pos(e);
    let frame = frame_bytes(options);
    let unit = block_unit(options, page_size);
    let block = block_bytes(options, page_size);
    let count = options.block_nr as int;
    if wanted_block(options) % unit != 0 {
        lemma_round_up(wanted_block(options), unit);
    }
    lemma_powers_divide(page_size, unit);
    lemma_powers_divide(frame, unit);
    lemma_multiple(block, unit, page_size);
    lemma_multiple(block, unit, frame);
    lemma_fundamental_div_mod(block, frame);
    let each = block / frame;
    assert(block * count == (each * count) * frame) by (nonlinear_arith)
        requires
            block == frame * each,
    ;
    lemma_div_multiples_vanish(each * count, frame);
    assert(frame * (each * count) == (each * count) * frame) by (nonlinear_arith);
    lemma_div_pos_is_pos(block, frame);
    assert(0 <= each * count <= (each * count) * frame) by (nonlinear_arith)
        requires
            0 <= each,
            0 <= count,
            1 <= frame,
    ;
    assert(block <= usize::MAX);
    assert(g.frame_nr == each * count);
    assert(g.block_size / g.frame_size == each);
}

/// The size of a receive buffer in bytes: 1024 times the number of KiB, taken as a signed number
/// of 32 bits, or the greatest number of 32 bits where the product does not fit.
pub open spec fn buffer_of(kib: u32) -> int {
    let bytes = (kib as i32) * 1024;
    if i32::MIN <= bytes <= i32::MAX {
        bytes
    } else {
        i32::MAX as int
    }
}

/// The size of a receive buffer in bytes.
pub fn buffer_bytes(kib: u32) -> (bytes: i32)
    ensures
        bytes == buffer_of(kib),
{
    match (kib as i32).checked_mul(1024) {
        Some(bytes) => bytes,
        None => i32::MAX,
    }
}

/// What opening a capture socket takes.
#[derive(Debug, Clone, Copy, PartialEq, Eq)]
pub struct OpenPlan {
    /// Listen on all interfaces.
    pub any: bool,
    /// Put the interface into promiscuous mode.
    pub promiscuous: bool,
    /// Set the receive buffer to this size.
    pub buffer: Option<i32>,
    /// The ring buffer, where its sizes can be counted.
    pub ring: Option<RingGeometry>,
}

/// What opening a capture socket on the interface takes. The name `any` stands for all
/// interfaces, which are not put into promiscuous mode.
pub open spec fn plan_of(ifname: Seq<char>, options: OpenOptions, page_size: int) -> OpenPlan {
    let any = ifname == "any"@;
    OpenPlan {
        any,
        promiscuous: options.promiscuous && !any,
        buffer: match options.buffer_size {
            Some(kib) => Some(buffer_of(kib) as i32),
            None => None,
        },
        ring: if has_geometry(options, page_size) {
            Some(geometry_of(options, page_size))
        } else {
            None
        },
    }
}

/// Work out what opening a capture socket on the interface takes.
pub fn open_plan(ifname: &str, options: &OpenOptions, page_size: usize) -> (plan: OpenPlan)
    requires
        is_power_of_two(page_size as int),
    ensures
        plan == plan_of(ifname@, *options, page_size as int),
{
    let any: bool = is_any(ifname);
    OpenPlan {
        any,
        promiscuous: options.promiscuous && !any,
        buffer: match options.buffer_size {
            Some(kib) => Some(buffer_bytes(kib)),
            None => None,
        },
        ring: ring_geometry(options, page_size),
    }
}

fn is_any(ifname: &str) -> (yes: bool)
    ensures
        yes == (ifname@ == "any"@),
{
    proof {
        reveal_strlit("any");
    }
    let yes: bool = ifname.unicode_len() == 3 && ifname.get_char(0) == 'a' && ifname.get_char(1)
        == 'n' && ifname.get_char(2) == 'y';
    proof {
        if yes {
            assert(ifname@ =~= "any"@);
        }
    }
    yes
}

/// Check that the name of an interface that is put into promiscuous mode has room in a request.
pub fn check_ifname(ifname: &str) -> (result: Result<(), NetdumpError>)
    ensures
        match result {
            Ok(()) => ifname.len() < IFNAMSIZ,
            Err(error) => ifname.len() >= IFNAMSIZ && error.text() == "io error: "@
                + "interface name too long"@,
        },
{
    if ifname.len() >= IFNAMSIZ {
        Err(NetdumpError::Io("interface name too long".to_owned()))
    } else {
        Ok(())
    }
}

/// A raw BPF instruction, laid out as the kernel takes it.
#[derive(Debug, Clone, Copy, PartialEq, Eq, Structural)]
pub struct RawBpfInsn {
    pub code: u16,
    pub jt: u8,
    pub jf: u8,
    pub k: u32,
}

impl vstd::std_specs::convert::FromSpecImpl<Instruction> for RawBpfInsn {
    open spec fn obeys_from_spec() -> bool {
        true
    }

    open spec fn from_spec(i: Instruction) -> RawBpfInsn {
        RawBpfInsn { code: i.code, jt: i.jt, jf: i.jf, k: i.k }
    }
}

impl From<Instruction> for RawBpfInsn {
    fn from(i: Instruction) -> (insn: Self) {
        RawBpfInsn { code: i.code, jt: i.jt, jf: i.jf, k: i.k }
    }
}

/// The instructions of a program as the kernel takes them.
pub fn raw_program(program: &[Instruction]) -> (insns: Vec<RawBpfInsn>)
    ensures
        insns@.len() == program@.len(),
        forall|i: int|
            0 <= i < program@.len() ==> #[trigger] insns@[i] == (RawBpfInsn {
                code: program@[i].code,
                jt: program@[i].jt,
                jf: program@[i].jf,
                k: program@[i].k,
            }),
{
    let mut insns: Vec<RawBpfInsn> = Vec::new();
    let mut i: usize = 0;
    while i < program.len()
        invariant
            0 <= i <= program@.len(),
            insns@.len() == i,
            forall|j: int|
                0 <= j < i ==> #[trigger] insns@[j] == (RawBpfInsn {
                    code: program@[j].code,
                    jt: program@[j].jt,
                    jf: program@[j].jf,
                    k: program@[j].k,
                }),
        decreases program@.len() - i,
    {
        insns.push(RawBpfInsn::from(program[i]));
        i = i + 1;
    }
    insns
}

/// Kernel statistics: number of received and dropped packets.
#[derive(Debug, Clone, Copy, PartialEq, Eq, Structural)]
pub struct PacketStats {
    pub packets: u32,
    pub drops: u32,
}

/// A packet of the bytes that the kernel handed over, whose time is given in nanoseconds, and of
/// which there were `wire_len` on the wire.
pub fn build_packet(data: &[u8], sec: u64, nsec: u64, ifindex: i32, wire_len: u32) -> (packet:
    Packet)
    ensures
        packet.data@ == data@,
        packet.meta == (PacketMeta {
            ts_sec: sec,
            ts_usec: nsec / 1000,
            ifindex,
            cap_len: data@.len() as usize,
            orig_len: wire_len as usize,
        }),
        packet.meta.ts_usec * 1000 <= nsec < packet.meta.ts_usec * 1000 + 1000,
        packet.meta.cap_len == packet.data@.len(),
{
    let usec: u64 = nsec / 1000;
    let meta: PacketMeta = PacketMeta::new(sec, usec, ifindex, data.len(), wire_len as usize);
    Packet::new(meta, vstd::slice::slice_to_vec(data))
}

/// Where in its block the next packet stands.
#[derive(Debug, Clone, Copy, PartialEq, Eq, Structural)]
pub struct BlockCursor {
    pub num_pkts: u32,
    pub seen: u32,
    pub next_offset: u32,
}

/// The position behind a frame that says how far off the next one stands.
pub open spec fn behind_frame(cursor: BlockCursor, next: u32) -> BlockCursor {
    BlockCursor {
        num_pkts: cursor.num_pkts,
        seen: (cursor.seen + 1) as u32,
        next_offset: (cursor.next_offset + next) as u32,
    }
}

/// What is to be done next to read the ring buffer.
#[derive(Debug, Clone, Copy, PartialEq, Eq, Structural)]
pub enum RingStep {
    /// Read the frame at this offset of the block.
    ReadFrame { block: usize, offset: u32 },
    /// Give the block back to the kernel.
    ReleaseBlock { block: usize },
    /// Wait until the kernel hands over the block.
    AwaitBlock { block: usize },
}

/// The position in a ring buffer.
#[derive(Debug, Clone, Copy, PartialEq, Eq)]
pub struct RingCursor {
    block_nr: usize,
    current_block: usize,
    cursor: Option<BlockCursor>,
}

impl RingCursor {
    /// The number of blocks in the ring.
    pub closed spec fn block_nr(&self) -> usize {
        self.block_nr
    }

    /// The block whose turn it is.
    pub closed spec fn block(&self) -> usize {
        self.current_block
    }

    /// The position in the block, while it belongs to the reader.
    pub closed spec fn cursor(&self) -> Option<BlockCursor> {
        self.cursor
    }

    /// The block is one of the ring, and no more packets were read than it has.
    pub open spec fn wf(&self) -> bool {
        &&& self.block() < self.block_nr()
        &&& self.cursor() matches Some(cursor) ==> cursor.seen <= cursor.num_pkts
    }

    /// The start of a ring of `block_nr` blocks.
    pub fn new(block_nr: usize) -> (ring: Self)
        requires
            block_nr > 0,
        ensures
            ring.wf(),
            ring.block_nr() == block_nr,
            ring.block() == 0,
            ring.cursor() is None,
    {
        RingCursor { block_nr, current_block: 0, cursor: None }
    }

    /// What is to be done next.
    pub open spec fn step(&self) -> RingStep {
        match self.cursor() {
            Some(cursor) => if cursor.seen < cursor.num_pkts {
                RingStep::ReadFrame { block: self.block(), offset: cursor.next_offset }
            } else {
                RingStep::ReleaseBlock { block: self.block() }
            },
            None => RingStep::AwaitBlock { block: self.block() },
        }
    }

    /// Decide what is to be done next.
    pub fn next_step(&self) -> (step: RingStep)
        ensures
            step == self.step(),
    {
        match self.cursor {
            Some(cursor) => {
                if cursor.seen < cursor.num_pkts {
                    RingStep::ReadFrame { block: self.current_block, offset: cursor.next_offset }
                } else {
                    RingStep::ReleaseBlock { block: self.current_block }
                }
            },
            None => RingStep::AwaitBlock { block: self.current_block },
        }
    }

    /// Go on behind a frame that was read.
    pub fn frame_read(&mut self, tp_next_offset: u32)
        requires
            old(self).wf(),
            old(self).step() is ReadFrame,
            old(self).cursor()->0.next_offset + tp_next_offset <= u32::MAX,
        ensures
            final(self).wf(),
            final(self).block_nr() == old(self).block_nr(),
            final(self).block() == old(self).block(),
            final(self).cursor() == Some(behind_frame(old(self).cursor()->0, tp_next_offset)),
            final(self).cursor()->0.seen == old(self).cursor()->0.seen + 1,
            final(self).cursor()->0.next_offset == old(self).cursor()->0.next_offset
                + tp_next_offset,
    {
        if let Some(cursor) = self.cursor {
            self.cursor = Some(
                BlockCursor {
                    num_pkts: cursor.num_pkts,
                    seen: cursor.seen + 1,
                    next_offset: cursor.next_offset + tp_next_offset,
                },
            );
        }
    }

    /// Go on to the next block, behind one that was given back.
    pub fn block_released(&mut self)
        requires
            old(self).wf(),
            old(self).step() is ReleaseBlock,
        ensures
            final(self).wf(),
            final(self).block_nr() == old(self).block_nr(),
            final(self).block() == (old(self).block() + 1) % (old(self).block_nr() as int),
            old(self).block() + 1 < old(self).block_nr() ==> final(self).block() == old(
                self,
            ).block() + 1,
            old(self).block() + 1 == old(self).block_nr() ==> final(self).block() == 0,
            final(self).cursor() is None,
    {
        self.cursor = None;
        self.current_block = if self.current_block + 1 == self.block_nr {
            0
        } else {
            self.current_block + 1
        };
        proof {
            let next = old(self).block() + 1;
            let count = old(self).block_nr() as int;
            if next < count {
                lemma_small_mod(next as nat, count as nat);
            } else {
                lemma_mod_self_0(count);
            }
        }
    }

    /// Go on with a block that the kernel handed over.
    pub fn block_ready(&mut self, num_pkts: u32, offset_to_first_pkt: u32)
        requires
            old(self).wf(),
            old(self).step() is AwaitBlock,
        ensures
            final(self).wf(),
            final(self).block_nr() == old(self).block_nr(),
            final(self).block() == old(self).block(),
            final(self).cursor() == Some(
                BlockCursor { num_pkts, seen: 0, next_offset: offset_to_first_pkt },
            ),
    {
        self.cursor = Some(BlockCursor { num_pkts, seen: 0, next_offset: offset_to_first_pkt });
    }
}

/// A block goes back to the kernel when all of its packets were read, and not before.
pub proof fn law_block_is_read_out(ring: RingCursor, cursor: BlockCursor)
    requires
        ring.wf(),
        ring.cursor() == Some(cursor),
    ensures
        ring.step() == (RingStep::ReleaseBlock { block: ring.block() }) <==> cursor.seen
            == cursor.num_pkts,
{
}

/// The position behind several frames, each of which says how far off the next one stands.
pub open spec fn behind_frames(cursor: BlockCursor, nexts: Seq<u32>) -> BlockCursor
    decreases nexts.len(),
{
    if nexts.len() == 0 {
        cursor
    } else {
        behind_frame(behind_frames(cursor, nexts.drop_last()), nexts.last())
    }
}

/// The sum of the distances between frames.
pub open spec fn distance(nexts: Seq<u32>) -> int
    decreases nexts.len(),
{
    if nexts.len() == 0 {
        0
    } else {
        distance(nexts.drop_last()) + nexts.last()
    }
}

/// The frames of a block are read once each, one behind the other: behind any number of them,
/// that many packets were seen, and the next frame stands at the sum of their distances.
pub proof fn law_frames_are_read_in_turn(first: u32, num_pkts: u32, nexts: Seq<u32>)
    requires
        nexts.len() <= num_pkts,
        first + distance(nexts) <= u32::MAX,
    ensures
        behind_frames(BlockCursor { num_pkts, seen: 0, next_offset: first }, nexts) == (
        BlockCursor {
            num_pkts,
            seen: nexts.len() as u32,
            next_offset: (first + distance(nexts)) as u32,
        }),
        distance(nexts) >= 0,
    decreases nexts.len(),
{
    if nexts.len() > 0 {
        lemma_distance(nexts.drop_last());
        law_frames_are_read_in_turn(first, num_pkts, nexts.drop_last());
    }
}

proof fn lemma_distance(nexts: Seq<u32>)
    ensures
        distance(nexts) >= 0,
    decreases nexts.len(),
{
    if nexts.len() > 0 {
        lemma_distance(nexts.drop_last());
    }
}

} // verus!
