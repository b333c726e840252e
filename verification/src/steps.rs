//! What the instructions of a program do, by the numbers in their codes.

use vstd::arithmetic::power2::{lemma2_to64, lemma_pow2_unfold, pow2};
use vstd::bits::lemma_u32_shr_is_div;
use vstd::prelude::*;

use crate::assembler::{reaches, Assembler};
use crate::ast::Expr;
use crate::compiler::{and_k, code_of, compilable, ld_len, program_of};
use crate::fields::{field, law_reads_are_big_endian};
use crate::shape::law_program_has_two_returns;
use crate::types::{
    jeq, jge, jgt, ld_abs_b, ld_abs_h, ld_abs_w, ld_ind_h, ldx_msh_b, ret_k, Instruction, BPF_ABS,
    BPF_ALU, BPF_AND, BPF_B, BPF_H, BPF_IND, BPF_JEQ, BPF_JGE, BPF_JGT, BPF_JMP, BPF_K, BPF_LD,
    BPF_LDX, BPF_LEN, BPF_MSH, BPF_RET, BPF_W,
};
use crate::vm::{accepts, byte_at, initial_machine, run, step, Effect, Machine};

verus! {

/// Whether the machine goes on with the next instruction and a value in the accumulator, all else
/// being as it was.
pub open spec fn puts_a(effect: Effect, m: Machine, a: int) -> bool {
    effect matches Effect::Next(n) && n.pc == m.pc + 1 && n.a == a && n.x == m.x && n.mem == m.mem
}

/// Whether the machine goes on with the next instruction and a value in the index register, all
/// else being as it was.
pub open spec fn puts_x(effect: Effect, m: Machine, x: int) -> bool {
    effect matches Effect::Next(n) && n.pc == m.pc + 1 && n.a == m.a && n.x == x && n.mem == m.mem
}

/// Whether the machine goes on that many instructions behind the next one, all else being as it
/// was.
pub open spec fn jumps(effect: Effect, m: Machine, skipped: int) -> bool {
    effect matches Effect::Next(n) && n.pc == m.pc + 1 + skipped && n.a == m.a && n.x == m.x
        && n.mem == m.mem
}

/// Whether the program ends without a match.
pub open spec fn fails(effect: Effect) -> bool {
    effect == Effect::Halt(false)
}

proof fn lemma_code(code: u16)
    ensures
        code & 0x07 == code % 8,
        code & 0xf0 == (code / 16 % 16) * 16,
        code & 0xe0 == (code / 32 % 8) * 32,
        code & 0x18 == (code / 8 % 4) * 8,
        code & 0x08 == (code / 8 % 2) * 8,
{
    assert(code & 0x07 == code % 8 && code & 0xf0 == (code / 16 % 16) * 16 && code & 0xe0 == (code
        / 32 % 8) * 32 && code & 0x18 == (code / 8 % 4) * 8 && code & 0x08 == (code / 8 % 2) * 8)
        by (bit_vector);
}

/// Arithmetic is that of numbers modulo 2^32, shifts being by the low five bits. A division by zero
/// and an unknown operation end the program without a match.
pub proof fn law_arithmetic(inst: Instruction, packet: Seq<u8>, m: Machine)
    requires
        inst.code % 8 == 4,
    ensures
        ({
            let op = inst.code / 16 % 16;
            let next = step(inst, packet, m);
            &&& op == 0 ==> puts_a(next, m, (m.a + inst.k) % 0x1_0000_0000)
            &&& op == 1 ==> puts_a(next, m, (m.a - inst.k) % 0x1_0000_0000)
            &&& op == 2 ==> puts_a(next, m, (m.a * inst.k) % 0x1_0000_0000)
            &&& op == 3 && inst.k > 0 ==> puts_a(next, m, m.a as int / inst.k as int)
            &&& op == 4 ==> puts_a(next, m, (m.a | inst.k) as int)
            &&& op == 5 ==> puts_a(next, m, (m.a & inst.k) as int)
            &&& op == 6 ==> puts_a(
                next,
                m,
                (m.a * pow2((inst.k % 32) as nat)) as int % 0x1_0000_0000,
            )
            &&& op == 7 ==> puts_a(next, m, m.a as int / pow2((inst.k % 32) as nat) as int)
            &&& op == 8 ==> puts_a(next, m, (0 - m.a) % 0x1_0000_0000)
            &&& op == 9 && inst.k > 0 ==> puts_a(next, m, m.a as int % inst.k as int)
            &&& op == 10 ==> puts_a(next, m, (m.a ^ inst.k) as int)
            &&& op > 10 ==> fails(next)
            &&& (op == 3 || op == 9) && inst.k == 0 ==> fails(next)
        }),
{
    lemma_code(inst.code);
    let s: u32 = inst.k % 32;
    lemma_left_shift(m.a, s);
    lemma_u32_shr_is_div(m.a, s);
    assert((m.a + inst.k) % 0x1_0000_0000 == if m.a + inst.k > u32::MAX {
        m.a + inst.k - 0x1_0000_0000
    } else {
        m.a + inst.k
    });
}

proof fn lemma_left_shift(a: u32, s: u32)
    requires
        s < 32,
    ensures
        (a << s) == (a * pow2(s as nat)) as int % 0x1_0000_0000,
    decreases s,
{
    if s == 0 {
        lemma2_to64();
        assert(a << 0u32 == a) by (bit_vector);
        assert(a * pow2(0) == a) by (nonlinear_arith)
            requires
                pow2(0) == 1,
        ;
    } else {
        let t: u32 = (s - 1) as u32;
        lemma_left_shift(a, t);
        lemma_pow2_unfold(s as nat);
        assert((a << s) == (2 * (a << t)) % 0x1_0000_0000) by (bit_vector)
            requires
                s == t + 1,
                s < 32,
        ;
        let whole = a * pow2(t as nat);
        assert(a * (2 * pow2(t as nat)) == 2 * (a * pow2(t as nat))) by (nonlinear_arith);
        assert((2 * (whole as int % 0x1_0000_0000)) % 0x1_0000_0000 == (2 * whole) as int
            % 0x1_0000_0000);
    }
}

/// A load into the accumulator takes the number in the instruction, the packet's bytes at it or
/// behind the index register, a word of the memory or the length of the packet. A width or a source
/// that is unknown ends the program without a match.
pub proof fn law_loads(inst: Instruction, packet: Seq<u8>, m: Machine)
    requires
        inst.code % 8 == 0,
        packet.len() <= u64::MAX,
    ensures
        ({
            let mode = inst.code / 32 % 8;
            let size = inst.code / 8 % 4;
            let next = step(inst, packet, m);
            let off: int = if mode == 1 {
                inst.k as int
            } else {
                m.x + inst.k
            };
            &&& mode == 0 ==> puts_a(next, m, inst.k as int)
            &&& (mode == 1 || mode == 2) && size == 0 ==> puts_a(
                next,
                m,
                field(packet, off, 4) as int,
            )
            &&& (mode == 1 || mode == 2) && size == 1 ==> puts_a(
                next,
                m,
                field(packet, off, 2) as int,
            )
            &&& (mode == 1 || mode == 2) && size == 2 ==> puts_a(
                next,
                m,
                field(packet, off, 1) as int,
            )
            &&& (mode == 1 || mode == 2) && size == 3 ==> fails(next)
            &&& mode == 3 ==> puts_a(next, m, m.mem[inst.k as int % 16] as int)
            &&& mode == 4 ==> puts_a(next, m, packet.len() as int % 0x1_0000_0000)
            &&& mode > 4 ==> fails(next)
        }),
{
    lemma_code(inst.code);
    law_reads_are_big_endian(packet, inst.k as int);
    law_reads_are_big_endian(packet, m.x + inst.k);
    crate::fields::lemma_low_bits(packet.len());
}

/// A load into the index register takes the number in the instruction, a word of the memory, or
/// four times the low half of a byte of the packet.
pub proof fn law_index_loads(inst: Instruction, packet: Seq<u8>, m: Machine)
    requires
        inst.code % 8 == 1,
    ensures
        ({
            let mode = inst.code / 32 % 8;
            let next = step(inst, packet, m);
            &&& mode == 0 ==> puts_x(next, m, inst.k as int)
            &&& mode == 3 ==> puts_x(next, m, m.mem[inst.k as int % 16] as int)
            &&& mode == 5 ==> puts_x(next, m, 4 * (field(packet, inst.k as int, 1) as int % 16))
            &&& mode != 0 && mode != 3 && mode != 5 ==> fails(next)
        }),
{
    lemma_code(inst.code);
    law_reads_are_big_endian(packet, inst.k as int);
    let b = byte_at(packet, inst.k as int);
    assert(b & 0x0f == b % 16) by (bit_vector);
}

/// A store keeps the accumulator or the index register in one of sixteen words, and what is loaded
/// from there is what was stored last.
pub proof fn law_stores(inst: Instruction, packet: Seq<u8>, m: Machine)
    requires
        inst.code % 8 == 2 || inst.code % 8 == 3,
        m.mem.len() == 16,
    ensures
        ({
            let next = step(inst, packet, m);
            &&& next matches Effect::Next(n) && {
                &&& n.pc == m.pc + 1 && n.a == m.a && n.x == m.x
                &&& n.mem.len() == 16
                &&& forall|i: int|
                    0 <= i < 16 ==> #[trigger] n.mem[i] == (if i == inst.k % 16 {
                        if inst.code % 8 == 2 {
                            m.a
                        } else {
                            m.x
                        }
                    } else {
                        m.mem[i]
                    })
            }
        }),
{
    lemma_code(inst.code);
}

/// A jump without a condition skips as many instructions as its number says. One with a condition
/// compares the accumulator with the number and skips by one of the two distances.
pub proof fn law_jumps_land(inst: Instruction, packet: Seq<u8>, m: Machine)
    requires
        inst.code % 8 == 5,
    ensures
        ({
            let op = inst.code / 16 % 16;
            let next = step(inst, packet, m);
            let taken = if op == 1 {
                m.a == inst.k
            } else if op == 2 {
                m.a > inst.k
            } else if op == 3 {
                m.a >= inst.k
            } else {
                (m.a & inst.k) != 0
            };
            &&& op == 0 ==> jumps(next, m, inst.k as int)
            &&& 0 < op <= 4 && taken ==> jumps(next, m, inst.jt as int)
            &&& 0 < op <= 4 && !taken ==> jumps(next, m, inst.jf as int)
            &&& op > 4 ==> fails(next)
        }),
{
    lemma_code(inst.code);
}

/// A return ends the program; the packet matches where the number in the instruction, or the index
/// register, is not zero.
pub proof fn law_returns(inst: Instruction, packet: Seq<u8>, m: Machine)
    requires
        inst.code % 8 == 6,
    ensures
        inst.code / 8 % 2 == 0 ==> step(inst, packet, m) == Effect::Halt(inst.k != 0),
        inst.code / 8 % 2 == 1 ==> step(inst, packet, m) == Effect::Halt(m.x != 0),
{
    lemma_code(inst.code);
}

/// A register is copied into the other one.
pub proof fn law_moves(inst: Instruction, packet: Seq<u8>, m: Machine)
    requires
        inst.code % 8 == 7,
    ensures
        inst.code / 16 % 16 == 0 ==> puts_x(step(inst, packet, m), m, m.a as int),
        inst.code / 16 % 16 == 8 ==> puts_a(step(inst, packet, m), m, m.x as int),
        inst.code / 16 % 16 != 0 && inst.code / 16 % 16 != 8 ==> fails(step(inst, packet, m)),
{
    lemma_code(inst.code);
}

/// A program runs instruction by instruction from the first one on, with zeros in its registers and
/// its memory, until one of them ends it. Where none is left the packet does not match.
pub proof fn law_programs_run(program: Seq<Instruction>, packet: Seq<u8>, m: Machine)
    requires
        0 <= m.pc,
    ensures
        m.pc >= program.len() ==> !run(program, packet, m),
        m.pc < program.len() ==> (step(program[m.pc], packet, m) matches Effect::Halt(matched)
            ==> run(program, packet, m) == matched),
        m.pc < program.len() ==> (step(program[m.pc], packet, m) matches Effect::Next(n) ==> run(
            program,
            packet,
            m,
        ) == run(program, packet, n)),
        accepts(program, packet) == run(program, packet, initial_machine()),
        initial_machine().pc == 0,
        initial_machine().a == 0,
        initial_machine().x == 0,
        initial_machine().mem == seq![0u32, 0, 0, 0, 0, 0, 0, 0, 0, 0, 0, 0, 0, 0, 0, 0],
{
    let zeros = seq![0u32, 0, 0, 0, 0, 0, 0, 0, 0, 0, 0, 0, 0, 0, 0, 0];
    assert(zeros[0] == 0 && zeros[1] == 0 && zeros[2] == 0 && zeros[3] == 0 && zeros[4] == 0
        && zeros[5] == 0 && zeros[6] == 0 && zeros[7] == 0);
    assert(zeros[8] == 0 && zeros[9] == 0 && zeros[10] == 0 && zeros[11] == 0 && zeros[12] == 0
        && zeros[13] == 0 && zeros[14] == 0 && zeros[15] == 0);
    assert(initial_machine().mem =~= zeros);
}

/// A program that compares two bytes of the packet with a number matches just the packets with that
/// number there.
pub proof fn law_comparing_program(off: u32, k: u32, packet: Seq<u8>)
    ensures
        accepts(
            seq![
                Instruction { code: 0x28, jt: 0, jf: 0, k: off },
                Instruction { code: 0x15, jt: 0, jf: 1, k },
                Instruction { code: 0x06, jt: 0, jf: 0, k: 65535 },
                Instruction { code: 0x06, jt: 0, jf: 0, k: 0 },
            ],
            packet,
        ) == (field(packet, off as int, 2) == k),
{
    let program = seq![
        Instruction { code: 0x28, jt: 0, jf: 0, k: off },
        Instruction { code: 0x15, jt: 0, jf: 1, k },
        Instruction { code: 0x06, jt: 0, jf: 0, k: 65535 },
        Instruction { code: 0x06, jt: 0, jf: 0, k: 0 },
    ];
    lemma_code(0x28);
    lemma_code(0x15);
    lemma_code(0x06);
    law_reads_are_big_endian(packet, off as int);
    reveal_with_fuel(run, 4);
    assert(program[0] == Instruction { code: 0x28, jt: 0, jf: 0, k: off });
    assert(program[1] == Instruction { code: 0x15, jt: 0, jf: 1, k });
    assert(program[2] == Instruction { code: 0x06, jt: 0, jf: 0, k: 65535 });
    assert(program[3] == Instruction { code: 0x06, jt: 0, jf: 0, k: 0 });
}

/// The instructions that programs are built of, by their numbers.
pub proof fn law_built_instructions(k: u32)
    ensures
        ld_abs_w(k) == (Instruction { code: 0x20, jt: 0, jf: 0, k }),
        ld_abs_h(k) == (Instruction { code: 0x28, jt: 0, jf: 0, k }),
        ld_abs_b(k) == (Instruction { code: 0x30, jt: 0, jf: 0, k }),
        ld_ind_h(k) == (Instruction { code: 0x48, jt: 0, jf: 0, k }),
        ldx_msh_b(k) == (Instruction { code: 0xb1, jt: 0, jf: 0, k }),
        jeq(k) == (Instruction { code: 0x15, jt: 0, jf: 0, k }),
        jgt(k) == (Instruction { code: 0x25, jt: 0, jf: 0, k }),
        jge(k) == (Instruction { code: 0x35, jt: 0, jf: 0, k }),
        ret_k(k) == (Instruction { code: 0x06, jt: 0, jf: 0, k }),
        and_k(k) == (Instruction { code: 0x54, jt: 0, jf: 0, k }),
        ld_len() == (Instruction { code: 0x80, jt: 0, jf: 0, k: 0 }),
{
    assert(BPF_LD | BPF_W | BPF_ABS == 0x20 && BPF_LD | BPF_H | BPF_ABS == 0x28 && BPF_LD | BPF_B
        | BPF_ABS == 0x30 && BPF_LD | BPF_H | BPF_IND == 0x48 && BPF_LDX | BPF_B | BPF_MSH == 0xb1
        && BPF_JMP | BPF_JEQ | BPF_K == 0x15 && BPF_JMP | BPF_JGT | BPF_K == 0x25 && BPF_JMP
        | BPF_JGE | BPF_K == 0x35 && BPF_RET | BPF_K == 0x06 && BPF_ALU | BPF_AND | BPF_K == 0x54
        && BPF_LD | BPF_LEN | BPF_W == 0x80) by (bit_vector);
}

/// A compiled program ends with a return of 65535 for a packet that matches, and behind it one of
/// zero for another.
pub proof fn law_programs_end_in_two_returns(expr: Expr)
    requires
        compilable(expr),
    ensures
        ({
            let program = program_of(code_of(expr));
            let len = program.len() as int;
            &&& program[len - 2] == (Instruction { code: 0x06, jt: 0, jf: 0, k: 65535 })
            &&& program[len - 1] == (Instruction { code: 0x06, jt: 0, jf: 0, k: 0 })
        }),
{
    law_program_has_two_returns(expr);
    law_built_instructions(65535);
    law_built_instructions(0);
}

/// The jumps of an assembled program lead to their labels, counted from the instruction behind the
/// jump, and all else of the instructions is kept.
pub proof fn law_labels_become_distances(code: Assembler, i: int)
    requires
        code.resolvable(),
        0 <= i < code.items().len(),
    ensures
        ({
            let item = code.items()[i];
            let inst = code.program()[i];
            &&& code.program().len() == code.items().len()
            &&& inst.code == item.inst.code
            &&& inst.k == item.inst.k
            &&& item.on_true matches Some(label) ==> i + 1 + inst.jt == code.labels()[label]
            &&& item.on_false matches Some(label) ==> i + 1 + inst.jf == code.labels()[label]
            &&& item.on_true is None ==> inst.jt == item.inst.jt
            &&& item.on_false is None ==> inst.jf == item.inst.jf
        }),
{
    let item = code.items()[i];
    assert(reaches(code.labels(), i, item.on_true));
    assert(reaches(code.labels(), i, item.on_false));
}

/// Jumps can be encoded just where each of them leads forward over at most 255 instructions.
pub proof fn law_near_jumps_are_resolvable(code: Assembler)
    ensures
        code.resolvable() == (forall|i: int|
            0 <= i < code.items().len() ==> {
                &&& (#[trigger] code.items()[i]).on_true matches Some(label)
                    ==> code.labels().contains_key(label) && 0 <= code.labels()[label] - (i + 1)
                    <= 255
                &&& code.items()[i].on_false matches Some(label) ==> code.labels().contains_key(
                    label,
                ) && 0 <= code.labels()[label] - (i + 1) <= 255
            }),
{
    if code.resolvable() {
        assert forall|i: int| 0 <= i < code.items().len() implies {
            &&& (#[trigger] code.items()[i]).on_true matches Some(label)
                ==> code.labels().contains_key(label) && 0 <= code.labels()[label] - (i + 1) <= 255
            &&& code.items()[i].on_false matches Some(label) ==> code.labels().contains_key(label)
                && 0 <= code.labels()[label] - (i + 1) <= 255
        } by {
            assert(reaches(code.labels(), i, code.items()[i].on_true));
            assert(reaches(code.labels(), i, code.items()[i].on_false));
        }
    }
}

} // verus!
