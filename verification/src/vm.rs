//! CBPF virtual machine interpreter.

use vstd::prelude::*;

use crate::types::{
    Instruction, BPF_ABS, BPF_ADD, BPF_ALU, BPF_AND, BPF_B, BPF_DIV, BPF_H, BPF_IMM, BPF_IND,
    BPF_JA, BPF_JEQ, BPF_JGE, BPF_JGT, BPF_JMP, BPF_JSET, BPF_K, BPF_LD, BPF_LDX, BPF_LEN, BPF_LSH,
    BPF_MEM, BPF_MISC, BPF_MOD, BPF_MSH, BPF_MUL, BPF_NEG, BPF_OR, BPF_RET, BPF_RSH, BPF_ST,
    BPF_STX, BPF_SUB, BPF_TAX, BPF_TXA, BPF_W, BPF_XOR,
};

verus! {

/// The byte at `off`; zero beyond the end of the packet.
pub open spec fn byte_at(packet: Seq<u8>, off: int) -> u8 {
    if 0 <= off < packet.len() {
        packet[off]
    } else {
        0
    }
}

/// The big-endian 16-bit word at `off`; zero where it does not lie in the packet.
pub open spec fn half_at(packet: Seq<u8>, off: int) -> u16 {
    if 0 <= off && off + 2 <= packet.len() {
        (packet[off] * 0x100 + packet[off + 1]) as u16
    } else {
        0
    }
}

/// The big-endian 32-bit word at `off`; zero where it does not lie in the packet.
pub open spec fn word_at(packet: Seq<u8>, off: int) -> u32 {
    if 0 <= off && off + 4 <= packet.len() {
        (packet[off] * 0x100_0000 + packet[off + 1] * 0x1_0000 + packet[off + 2] * 0x100 + packet[off
            + 3]) as u32
    } else {
        0
    }
}

/// What a machine holds between two instructions.
pub struct Machine {
    /// Index of the next instruction.
    pub pc: int,
    /// The accumulator.
    pub a: u32,
    /// The index register.
    pub x: u32,
    /// Sixteen words of scratch memory.
    pub mem: Seq<u32>,
}

/// The effect of one instruction.
pub enum Effect {
    /// Execution goes on from this machine.
    Next(Machine),
    /// The program ends and the packet matches, or does not.
    Halt(bool),
}

/// The machine before the first instruction.
pub open spec fn initial_machine() -> Machine {
    Machine { pc: 0, a: 0, x: 0, mem: Seq::new(16, |i: int| 0u32) }
}

/// Continues with `a` in the accumulator; a load or an operation that has no value ends the
/// program without a match.
pub open spec fn set_a(m: Machine, a: Option<u32>) -> Effect {
    match a {
        Some(a) => Effect::Next(Machine { pc: m.pc + 1, a, ..m }),
        None => Effect::Halt(false),
    }
}

/// Continues with `x` in the index register.
pub open spec fn set_x(m: Machine, x: Option<u32>) -> Effect {
    match x {
        Some(x) => Effect::Next(Machine { pc: m.pc + 1, x, ..m }),
        None => Effect::Halt(false),
    }
}

/// Stores `value` in the scratch word that `k` selects.
pub open spec fn store(m: Machine, k: u32, value: u32) -> Effect {
    Effect::Next(Machine { pc: m.pc + 1, mem: m.mem.update((k % 16) as int, value), ..m })
}

/// Skips `offset` instructions after the present one.
pub open spec fn skip(m: Machine, offset: int) -> Effect {
    Effect::Next(Machine { pc: m.pc + 1 + offset, ..m })
}

/// The value of the given width at `off`.
pub open spec fn sized_at(packet: Seq<u8>, size: u16, off: int) -> Option<u32> {
    if size == BPF_B {
        Some(byte_at(packet, off) as u32)
    } else if size == BPF_H {
        Some(half_at(packet, off) as u32)
    } else if size == BPF_W {
        Some(word_at(packet, off))
    } else {
        None
    }
}

/// What a load puts in the accumulator.
pub open spec fn loaded_a(inst: Instruction, packet: Seq<u8>, m: Machine) -> Option<u32> {
    let size = inst.code & 0x18;
    let mode = inst.code & 0xe0;
    if mode == BPF_IMM {
        Some(inst.k)
    } else if mode == BPF_ABS {
        sized_at(packet, size, inst.k as int)
    } else if mode == BPF_IND {
        sized_at(packet, size, m.x + inst.k)
    } else if mode == BPF_MEM {
        Some(m.mem[(inst.k % 16) as int])
    } else if mode == BPF_LEN {
        Some(packet.len() as u32)
    } else {
        None
    }
}

/// What a load puts in the index register.
pub open spec fn loaded_x(inst: Instruction, packet: Seq<u8>, m: Machine) -> Option<u32> {
    let mode = inst.code & 0xe0;
    if mode == BPF_IMM {
        Some(inst.k)
    } else if mode == BPF_MSH {
        Some((4 * (byte_at(packet, inst.k as int) & 0x0f)) as u32)
    } else if mode == BPF_MEM {
        Some(m.mem[(inst.k % 16) as int])
    } else {
        None
    }
}

/// The result of an arithmetic operation on the accumulator; division by zero has none.
pub open spec fn alu(op: u16, a: u32, k: u32) -> Option<u32> {
    if op == BPF_ADD {
        Some(a.wrapping_add(k))
    } else if op == BPF_SUB {
        Some(a.wrapping_sub(k))
    } else if op == BPF_MUL {
        Some(a.wrapping_mul(k))
    } else if op == BPF_DIV {
        if k == 0 {
            None
        } else {
            Some(a / k)
        }
    } else if op == BPF_OR {
        Some(a | k)
    } else if op == BPF_AND {
        Some(a & k)
    } else if op == BPF_LSH {
        Some(a.wrapping_shl(k))
    } else if op == BPF_RSH {
        Some(a.wrapping_shr(k))
    } else if op == BPF_MOD {
        if k == 0 {
            None
        } else {
            Some(a % k)
        }
    } else if op == BPF_XOR {
        Some(a ^ k)
    } else if op == BPF_NEG {
        Some(0u32.wrapping_sub(a))
    } else {
        None
    }
}

/// Whether a conditional jump is taken; `None` for an operation that is no conditional jump.
pub open spec fn condition(op: u16, a: u32, k: u32) -> Option<bool> {
    if op == BPF_JEQ {
        Some(a == k)
    } else if op == BPF_JGT {
        Some(a > k)
    } else if op == BPF_JGE {
        Some(a >= k)
    } else if op == BPF_JSET {
        Some((a & k) != 0)
    } else {
        None
    }
}

/// The effect of `inst` on the machine `m` that looks at `packet`.
pub open spec fn step(inst: Instruction, packet: Seq<u8>, m: Machine) -> Effect {
    let class = inst.code & 0x07;
    let op = inst.code & 0xf0;
    if class == BPF_LD {
        set_a(m, loaded_a(inst, packet, m))
    } else if class == BPF_LDX {
        set_x(m, loaded_x(inst, packet, m))
    } else if class == BPF_ST {
        store(m, inst.k, m.a)
    } else if class == BPF_STX {
        store(m, inst.k, m.x)
    } else if class == BPF_ALU {
        set_a(m, alu(op, m.a, inst.k))
    } else if class == BPF_JMP {
        if op == BPF_JA {
            skip(m, inst.k as int)
        } else {
            match condition(op, m.a, inst.k) {
                Some(true) => skip(m, inst.jt as int),
                Some(false) => skip(m, inst.jf as int),
                None => Effect::Halt(false),
            }
        }
    } else if class == BPF_MISC {
        if op == BPF_TAX {
            set_x(m, Some(m.a))
        } else if op == BPF_TXA {
            set_a(m, Some(m.x))
        } else {
            Effect::Halt(false)
        }
    } else if class == BPF_RET {
        Effect::Halt((if inst.code & 0x08 == BPF_K { inst.k } else { m.x }) != 0)
    } else {
        Effect::Halt(false)
    }
}

/// Whether the program, resumed from the machine `m`, ends with a match. A program that runs
/// off its end does not match.
pub open spec fn run(program: Seq<Instruction>, packet: Seq<u8>, m: Machine) -> bool
    decreases
            if m.pc < program.len() {
                program.len() - m.pc
            } else {
                0
            },
{
    if 0 <= m.pc < program.len() {
        match step(program[m.pc], packet, m) {
            Effect::Next(next) => run(program, packet, next),
            Effect::Halt(matched) => matched,
        }
    } else {
        false
    }
}

/// Whether the program matches the packet.
pub open spec fn accepts(program: Seq<Instruction>, packet: Seq<u8>) -> bool {
    run(program, packet, initial_machine())
}

/// CBPF virtual machine.
pub struct Vm;

impl Vm {
    /// Execute a CBPF program on a raw packet, returning whether it matched.
    pub fn exec(program: &[Instruction], packet: &[u8]) -> (matched: bool)
        ensures
            matched == accepts(program@, packet@),
    {
        let mut pc: usize = 0;
        let mut a: u32 = 0;
        let mut x: u32 = 0;
        let mut mem: [u32; 16] = [0u32; 16];
        assert(mem@ =~= initial_machine().mem);

        while pc < program.len()
            invariant
                accepts(program@, packet@) == run(
                    program@,
                    packet@,
                    (Machine { pc: pc as int, a, x, mem: mem@ }),
                ),
            decreases (if pc < program.len() { program.len() - pc } else { 0 }),
        {
            let inst: Instruction = program[pc];
            let ghost m = Machine { pc: pc as int, a, x, mem: mem@ };
            pc = pc + 1;

            let class: u16 = inst.code & 0x07;
            let op: u16 = inst.code & 0xf0;
            let slot: usize = (inst.k % 16) as usize;
            if class == BPF_LD {
                let size: u16 = inst.code & 0x18;
                let mode: u16 = inst.code & 0xe0;
                if mode == BPF_IMM {
                    a = inst.k;
                } else if mode == BPF_ABS {
                    a = match read_sized(packet, size, inst.k as u64) {
                        Some(value) => value,
                        None => return false,
                    };
                } else if mode == BPF_IND {
                    a = match read_sized(packet, size, x as u64 + inst.k as u64) {
                        Some(value) => value,
                        None => return false,
                    };
                } else if mode == BPF_MEM {
                    a = mem[slot];
                } else if mode == BPF_LEN {
                    a = packet.len() as u32;
                } else {
                    return false;
                }
            } else if class == BPF_LDX {
                let mode: u16 = inst.code & 0xe0;
                if mode == BPF_IMM {
                    x = inst.k;
                } else if mode == BPF_MSH {
                    let low: u8 = read_u8(packet, inst.k as u64) & 0x0f;
                    x = low as u32 * 4;
                } else if mode == BPF_MEM {
                    x = mem[slot];
                } else {
                    return false;
                }
            } else if class == BPF_ST {
                mem[slot] = a;
            } else if class == BPF_STX {
                mem[slot] = x;
            } else if class == BPF_ALU {
                a = match compute(op, a, inst.k) {
                    Some(value) => value,
                    None => return false,
                };
            } else if class == BPF_JMP {
                let offset: u32 = if op == BPF_JA {
                    inst.k
                } else {
                    let taken: bool = if op == BPF_JEQ {
                        a == inst.k
                    } else if op == BPF_JGT {
                        a > inst.k
                    } else if op == BPF_JGE {
                        a >= inst.k
                    } else if op == BPF_JSET {
                        (a & inst.k) != 0
                    } else {
                        return false;
                    };
                    if taken {
                        inst.jt as u32
                    } else {
                        inst.jf as u32
                    }
                };
                // Offsets are relative to the following instruction.
                pc = match pc.checked_add(offset as usize) {
                    Some(target) => target,
                    None => {
                        assert(!run(program@, packet@, Machine { pc: pc + offset, ..m }));
                        return false;
                    },
                };
            } else if class == BPF_MISC {
                if op == BPF_TAX {
                    x = a;
                } else if op == BPF_TXA {
                    a = x;
                } else {
                    return false;
                }
            } else if class == BPF_RET {
                let value: u32 = if inst.code & 0x08 == BPF_K {
                    inst.k
                } else {
                    x
                };
                return value != 0;
            } else {
                return false;
            }
        }
        false
    }
}

/// The result of an arithmetic operation on the accumulator.
fn compute(op: u16, a: u32, k: u32) -> (result: Option<u32>)
    ensures
        result == alu(op, a, k),
{
    if op == BPF_ADD {
        Some(a.wrapping_add(k))
    } else if op == BPF_SUB {
        Some(a.wrapping_sub(k))
    } else if op == BPF_MUL {
        Some(a.wrapping_mul(k))
    } else if op == BPF_DIV {
        if k == 0 {
            None
        } else {
            Some(a / k)
        }
    } else if op == BPF_OR {
        Some(a | k)
    } else if op == BPF_AND {
        Some(a & k)
    } else if op == BPF_LSH {
        Some(a.wrapping_shl(k))
    } else if op == BPF_RSH {
        Some(a.wrapping_shr(k))
    } else if op == BPF_MOD {
        if k == 0 {
            None
        } else {
            Some(a % k)
        }
    } else if op == BPF_XOR {
        Some(a ^ k)
    } else if op == BPF_NEG {
        Some(0u32.wrapping_sub(a))
    } else {
        None
    }
}

/// The value of the given width at `offset`; `None` for an unknown width.
fn read_sized(packet: &[u8], size: u16, offset: u64) -> (value: Option<u32>)
    ensures
        value == sized_at(packet@, size, offset as int),
{
    if size == BPF_B {
        Some(read_u8(packet, offset) as u32)
    } else if size == BPF_H {
        Some(read_u16(packet, offset) as u32)
    } else if size == BPF_W {
        Some(read_u32(packet, offset))
    } else {
        None
    }
}

/// Read a byte; 0 beyond the packet.
pub fn read_u8(packet: &[u8], offset: u64) -> (value: u8)
    ensures
        value == byte_at(packet@, offset as int),
{
    if offset < packet.len() as u64 {
        packet[offset as usize]
    } else {
        0
    }
}

/// Read two bytes, the first of them the most significant; 0 beyond the packet.
pub fn read_u16(packet: &[u8], offset: u64) -> (value: u16)
    ensures
        value == half_at(packet@, offset as int),
{
    let len: u64 = packet.len() as u64;
    if len < 2 || offset > len - 2 {
        return 0;
    }
    let at: usize = offset as usize;
    packet[at] as u16 * 0x100 + packet[at + 1] as u16
}

/// Read four bytes, the first of them the most significant; 0 beyond the packet.
pub fn read_u32(packet: &[u8], offset: u64) -> (value: u32)
    ensures
        value == word_at(packet@, offset as int),
{
    let len: u64 = packet.len() as u64;
    if len < 4 || offset > len - 4 {
        return 0;
    }
    let at: usize = offset as usize;
    packet[at] as u32 * 0x100_0000 + packet[at + 1] as u32 * 0x1_0000 + packet[at + 2] as u32
        * 0x100 + packet[at + 3] as u32
}

} // verus!
