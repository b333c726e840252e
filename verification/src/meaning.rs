//! What compiled programs do: they match the packets that the filter expression matches.

use vstd::prelude::*;

use crate::addr::Ipv6Addr;
use crate::ast::{
    carries, has_ports, holds, ipv4_header_len, ipv4_net_at, ipv6_at, ipv6_is, is_ipv4, is_ipv6,
    mac_at, mac_high, mac_low, matches_ether_host, matches_host, matches_net, matches_port,
    matches_port_range, matches_proto, packet_len, ports_in_range, relation, toward, Direction,
    Expr, HostAddr, NetAddr, Protocol, RelOp,
};
use crate::block::{encodable, placed, relocate_slot, slots, target, Code, Exit, Slot};
use crate::compiler::{
    and_k, before, both, check, code_of, compilable, directed, either, ether_host_code,
    ethertype_code, flip, has_ports_code, host_code, in_range_code, ipv6_addr_code,
    ipv6_net_addr_code, ld_len, len_code, mac_code, masked_code, net_code, pair_code, port_code,
    port_range_code, portrange_code, ports_code, program_of, proto_code, split, transport_code,
    wide16, wide8,
};
use crate::packet::{
    ETHERTYPE_ARP, ETHERTYPE_IP, ETHERTYPE_IPV6, ETHERTYPE_RARP, IPPROTO_ICMP, IPPROTO_ICMPV6,
    IPPROTO_TCP, IPPROTO_UDP,
};
use crate::types::{
    jeq, jge, jgt, ld_abs_b, ld_abs_h, ld_abs_w, ld_ind_h, ldx_msh_b, ret_k, Instruction, BPF_ABS,
    BPF_ALU, BPF_AND, BPF_B, BPF_H, BPF_IND, BPF_JEQ, BPF_JGE, BPF_JGT, BPF_JMP, BPF_K, BPF_LD,
    BPF_LDX, BPF_LEN, BPF_MSH, BPF_RET, BPF_W, CBPF_ACCEPT, CBPF_REJECT,
};
use crate::vm::{
    accepts, byte_at, condition, half_at, initial_machine, run, step, word_at, Effect, Machine,
};

verus! {

/// The machine `m` at instruction `pc`.
pub open spec fn at(m: Machine, pc: int) -> Machine {
    Machine { pc, ..m }
}

/// Whether the instruction is no jump, always goes on to the next one, and does the same wherever
/// it stands.
pub open spec fn goes_on(inst: Instruction) -> bool {
    &&& inst.code & 0x07 != BPF_JMP
    &&& forall|packet: Seq<u8>, m: Machine|
        #![trigger step(inst, packet, m)]
        step(inst, packet, m) == Effect::Next(at(outcome(inst, packet, m), m.pc + 1))
}

/// The registers after an instruction that goes on; the program counter plays no part.
pub open spec fn outcome(inst: Instruction, packet: Seq<u8>, m: Machine) -> Machine {
    match step(inst, packet, at(m, 0)) {
        Effect::Next(next) => next,
        Effect::Halt(_) => m,
    }
}

/// Whether the instruction is a comparison of the accumulator with its operand.
pub open spec fn compares(inst: Instruction) -> bool {
    &&& inst.code & 0x07 == BPF_JMP
    &&& (inst.code & 0xf0 == BPF_JEQ || inst.code & 0xf0 == BPF_JGT || inst.code & 0xf0 == BPF_JGE)
}

/// Whether every test is a comparison and every other instruction goes on.
pub open spec fn sound(code: Code) -> bool
    decreases code,
{
    match code {
        Code::Test(inst) => compares(inst),
        Code::Before(inst, test) => goes_on(inst) && sound(*test),
        Code::Both(first, second) => sound(*first) && sound(*second),
        Code::Either(first, second) => sound(*first) && sound(*second),
        Code::Flip(test) => sound(*test),
        Code::Split(test, yes, no) => sound(*test) && sound(*yes) && sound(*no),
    }
}

/// Whether a packet passes a test that starts with the registers of `m`, and the registers
/// behind it.
pub open spec fn eval(code: Code, packet: Seq<u8>, m: Machine) -> (bool, Machine)
    decreases code,
{
    match code {
        Code::Test(inst) => (condition(inst.code & 0xf0, m.a, inst.k) == Some(true), m),
        Code::Before(inst, test) => eval(*test, packet, outcome(inst, packet, m)),
        Code::Both(first, second) => {
            let (passed, next) = eval(*first, packet, m);
            if passed {
                eval(*second, packet, next)
            } else {
                (false, next)
            }
        },
        Code::Either(first, second) => {
            let (passed, next) = eval(*first, packet, m);
            if passed {
                (true, next)
            } else {
                eval(*second, packet, next)
            }
        },
        Code::Flip(test) => {
            let (passed, next) = eval(*test, packet, m);
            (!passed, next)
        },
        Code::Split(test, yes, no) => {
            let (passed, next) = eval(*test, packet, m);
            if passed {
                eval(*yes, packet, next)
            } else {
                eval(*no, packet, next)
            }
        },
    }
}

/// Whether the block of `all` stands in the program from `base` on, with its exits leading to
/// `accept` and `reject`.
spec fn stands(
    program: Seq<Instruction>,
    base: int,
    all: Seq<Slot>,
    accept: int,
    reject: int,
) -> bool {
    &&& 0 <= base
    &&& base + all.len() <= program.len()
    &&& forall|i: int|
        0 <= i < all.len() ==> program[base + i] == placed(
            #[trigger] all[i],
            base + i,
            base,
            accept,
            reject,
        ) && encodable(all[i], base + i, base, accept, reject)
}

/// A part of a block stands where the block does.
proof fn lemma_part(
    program: Seq<Instruction>,
    base: int,
    all: Seq<Slot>,
    accept: int,
    reject: int,
    inner: Seq<Slot>,
    shift: int,
    to_accept: Exit,
    to_reject: Exit,
)
    requires
        stands(program, base, all, accept, reject),
        0 <= shift,
        shift + inner.len() <= all.len(),
        forall|i: int|
            0 <= i < inner.len() ==> all[shift + i] == relocate_slot(
                #[trigger] inner[i],
                shift,
                to_accept,
                to_reject,
            ),
    ensures
        stands(
            program,
            base + shift,
            inner,
            target(to_accept, base, accept, reject),
            target(to_reject, base, accept, reject),
        ),
{
    assert forall|i: int| 0 <= i < inner.len() implies program[base + shift + i] == placed(
        #[trigger] inner[i],
        base + shift + i,
        base + shift,
        target(to_accept, base, accept, reject),
        target(to_reject, base, accept, reject),
    ) && encodable(
        inner[i],
        base + shift + i,
        base + shift,
        target(to_accept, base, accept, reject),
        target(to_reject, base, accept, reject),
    ) by {
        assert(program[base + (shift + i)] == placed(
            all[shift + i],
            base + (shift + i),
            base,
            accept,
            reject,
        ));
    }
}

/// The exit at which a block is left.
spec fn exit_of(passed: bool, accept: int, reject: int) -> int {
    if passed {
        accept
    } else {
        reject
    }
}

/// A program that enters a block goes on at the exit that the test decides.
proof fn lemma_run_block(
    program: Seq<Instruction>,
    packet: Seq<u8>,
    base: int,
    code: Code,
    accept: int,
    reject: int,
    m: Machine,
)
    requires
        stands(program, base, slots(code), accept, reject),
        sound(code),
    ensures
        ({
            let (passed, next) = eval(code, packet, m);
            run(program, packet, at(m, base)) == run(
                program,
                packet,
                at(next, exit_of(passed, accept, reject)),
            )
        }),
    decreases code,
{
    let all = slots(code);
    match code {
        Code::Test(inst) => {
            assert(all[0] == Slot::Jump(inst, Exit::Accept, Exit::Reject));
            assert(program[base + 0] == placed(all[0], base + 0, base, accept, reject));
        },
        Code::Before(inst, test) => {
            let inner = slots(*test);
            assert(all[0] == Slot::Plain(inst));
            assert(program[base + 0] == inst);
            assert forall|i: int| 0 <= i < inner.len() implies all[1 + i] == relocate_slot(
                #[trigger] inner[i],
                1,
                Exit::Accept,
                Exit::Reject,
            ) by {}
            lemma_part(
                program,
                base,
                all,
                accept,
                reject,
                inner,
                1,
                Exit::Accept,
                Exit::Reject,
            );
            let next = outcome(inst, packet, m);
            assert(step(inst, packet, at(m, base)) == Effect::Next(
                at(outcome(inst, packet, at(m, base)), base + 1),
            ));
            assert(at(at(m, base), 0) == at(m, 0));
            lemma_run_block(program, packet, base + 1, *test, accept, reject, next);
        },
        Code::Both(first, second) => {
            let len = slots(*first).len() as int;
            lemma_part(
                program,
                base,
                all,
                accept,
                reject,
                slots(*first),
                0,
                Exit::At(len),
                Exit::Reject,
            );
            lemma_part(
                program,
                base,
                all,
                accept,
                reject,
                slots(*second),
                len,
                Exit::Accept,
                Exit::Reject,
            );
            let (passed, next) = eval(*first, packet, m);
            lemma_run_block(program, packet, base, *first, base + len, reject, m);
            if passed {
                lemma_run_block(program, packet, base + len, *second, accept, reject, next);
            }
        },
        Code::Either(first, second) => {
            let len = slots(*first).len() as int;
            lemma_part(
                program,
                base,
                all,
                accept,
                reject,
                slots(*first),
                0,
                Exit::Accept,
                Exit::At(len),
            );
            lemma_part(
                program,
                base,
                all,
                accept,
                reject,
                slots(*second),
                len,
                Exit::Accept,
                Exit::Reject,
            );
            let (passed, next) = eval(*first, packet, m);
            lemma_run_block(program, packet, base, *first, accept, base + len, m);
            if !passed {
                lemma_run_block(program, packet, base + len, *second, accept, reject, next);
            }
        },
        Code::Flip(test) => {
            lemma_part(
                program,
                base,
                all,
                accept,
                reject,
                slots(*test),
                0,
                Exit::Reject,
                Exit::Accept,
            );
            lemma_run_block(program, packet, base, *test, reject, accept, m);
        },
        Code::Split(test, yes, no) => {
            let no_at = slots(*test).len() as int;
            let yes_at = no_at + slots(*no).len();
            lemma_part(
                program,
                base,
                all,
                accept,
                reject,
                slots(*test),
                0,
                Exit::At(yes_at),
                Exit::At(no_at),
            );
            lemma_part(
                program,
                base,
                all,
                accept,
                reject,
                slots(*no),
                no_at,
                Exit::Accept,
                Exit::Reject,
            );
            lemma_part(
                program,
                base,
                all,
                accept,
                reject,
                slots(*yes),
                yes_at,
                Exit::Accept,
                Exit::Reject,
            );
            let (passed, next) = eval(*test, packet, m);
            lemma_run_block(program, packet, base, *test, base + yes_at, base + no_at, m);
            if passed {
                lemma_run_block(program, packet, base + yes_at, *yes, accept, reject, next);
            } else {
                lemma_run_block(program, packet, base + no_at, *no, accept, reject, next);
            }
        },
    }
}

/// What the instructions do that load the accumulator.
proof fn lemma_loads(packet: Seq<u8>, k: u32)
    ensures
        goes_on(ld_abs_b(k)),
        goes_on(ld_abs_h(k)),
        goes_on(ld_abs_w(k)),
        goes_on(ld_ind_h(k)),
        goes_on(ld_len()),
        forall|m: Machine| #[trigger]
            outcome(ld_abs_b(k), packet, m) == (Machine {
                pc: 1,
                a: byte_at(packet, k as int) as u32,
                ..m
            }),
        forall|m: Machine| #[trigger]
            outcome(ld_abs_h(k), packet, m) == (Machine {
                pc: 1,
                a: half_at(packet, k as int) as u32,
                ..m
            }),
        forall|m: Machine| #[trigger]
            outcome(ld_abs_w(k), packet, m) == (Machine {
                pc: 1,
                a: word_at(packet, k as int),
                ..m
            }),
        forall|m: Machine| #[trigger]
            outcome(ld_ind_h(k), packet, m) == (Machine {
                pc: 1,
                a: half_at(packet, m.x + k) as u32,
                ..m
            }),
        forall|m: Machine| #[trigger]
            outcome(ld_len(), packet, m) == (Machine { pc: 1, a: packet_len(packet), ..m }),
{
    assert({
        &&& (BPF_LD | BPF_B | BPF_ABS) & 0x07 == BPF_LD
        &&& (BPF_LD | BPF_B | BPF_ABS) & 0x18 == BPF_B
        &&& (BPF_LD | BPF_B | BPF_ABS) & 0xe0 == BPF_ABS
        &&& (BPF_LD | BPF_H | BPF_ABS) & 0x07 == BPF_LD
        &&& (BPF_LD | BPF_H | BPF_ABS) & 0x18 == BPF_H
        &&& (BPF_LD | BPF_H | BPF_ABS) & 0xe0 == BPF_ABS
        &&& (BPF_LD | BPF_W | BPF_ABS) & 0x07 == BPF_LD
        &&& (BPF_LD | BPF_W | BPF_ABS) & 0x18 == BPF_W
        &&& (BPF_LD | BPF_W | BPF_ABS) & 0xe0 == BPF_ABS
        &&& (BPF_LD | BPF_H | BPF_IND) & 0x07 == BPF_LD
        &&& (BPF_LD | BPF_H | BPF_IND) & 0x18 == BPF_H
        &&& (BPF_LD | BPF_H | BPF_IND) & 0xe0 == BPF_IND
        &&& (BPF_LD | BPF_LEN | BPF_W) & 0x07 == BPF_LD
        &&& (BPF_LD | BPF_LEN | BPF_W) & 0xe0 == BPF_LEN
    }) by (bit_vector);
}

/// What the instructions do that load the index register and that mask the accumulator.
proof fn lemma_others(packet: Seq<u8>, k: u32)
    ensures
        goes_on(ldx_msh_b(k)),
        goes_on(and_k(k)),
        forall|m: Machine| #[trigger]
            outcome(ldx_msh_b(k), packet, m) == (Machine {
                pc: 1,
                x: (4 * (byte_at(packet, k as int) & 0x0f)) as u32,
                ..m
            }),
        forall|m: Machine| #[trigger]
            outcome(and_k(k), packet, m) == (Machine { pc: 1, a: m.a & k, ..m }),
{
    assert({
        &&& (BPF_LDX | BPF_B | BPF_MSH) & 0x07 == BPF_LDX
        &&& (BPF_LDX | BPF_B | BPF_MSH) & 0xe0 == BPF_MSH
        &&& (BPF_ALU | BPF_AND | BPF_K) & 0x07 == BPF_ALU
        &&& (BPF_ALU | BPF_AND | BPF_K) & 0xf0 == BPF_AND
    }) by (bit_vector);
}

/// What the comparisons test, and what the returns give back.
proof fn lemma_jumps()
    ensures
        forall|k: u32| compares(#[trigger] jeq(k)) && jeq(k).code & 0xf0 == BPF_JEQ,
        forall|k: u32| compares(#[trigger] jgt(k)) && jgt(k).code & 0xf0 == BPF_JGT,
        forall|k: u32| compares(#[trigger] jge(k)) && jge(k).code & 0xf0 == BPF_JGE,
        forall|k: u32| #[trigger]
            ret_k(k).code & 0x07 == BPF_RET && ret_k(k).code & 0x08 == BPF_K,
{
    assert({
        &&& (BPF_JMP | BPF_JEQ | BPF_K) & 0x07 == BPF_JMP
        &&& (BPF_JMP | BPF_JEQ | BPF_K) & 0xf0 == BPF_JEQ
        &&& (BPF_JMP | BPF_JGT | BPF_K) & 0x07 == BPF_JMP
        &&& (BPF_JMP | BPF_JGT | BPF_K) & 0xf0 == BPF_JGT
        &&& (BPF_JMP | BPF_JGE | BPF_K) & 0x07 == BPF_JMP
        &&& (BPF_JMP | BPF_JGE | BPF_K) & 0xf0 == BPF_JGE
        &&& (BPF_RET | BPF_K) & 0x07 == BPF_RET
        &&& (BPF_RET | BPF_K) & 0x08 == BPF_K
    }) by (bit_vector);
}

/// Whether a test passes the packet or not as `verdict` says, whatever the registers hold.
spec fn decides(code: Code, packet: Seq<u8>, verdict: bool) -> bool {
    &&& sound(code)
    &&& forall|m: Machine| (#[trigger] eval(code, packet, m)).0 == verdict
}

proof fn lemma_check(load: Instruction, jump: Instruction, packet: Seq<u8>, m: Machine)
    requires
        goes_on(load),
        compares(jump),
    ensures
        sound(check(load, jump)),
        eval(check(load, jump), packet, m) == (
            condition(jump.code & 0xf0, outcome(load, packet, m).a, jump.k) == Some(true),
            outcome(load, packet, m),
        ),
{
    reveal_with_fuel(eval, 2);
    reveal_with_fuel(sound, 2);
}

proof fn lemma_both(first: Code, second: Code, packet: Seq<u8>, one: bool, two: bool)
    requires
        decides(first, packet, one),
        decides(second, packet, two),
    ensures
        decides(both(first, second), packet, one && two),
{
    assert forall|m: Machine| true implies (#[trigger] eval(both(first, second), packet, m)).0 == (
    one && two) by {
        let next = eval(first, packet, m).1;
        assert(eval(second, packet, next).0 == two);
    }
}

proof fn lemma_either(first: Code, second: Code, packet: Seq<u8>, one: bool, two: bool)
    requires
        decides(first, packet, one),
        decides(second, packet, two),
    ensures
        decides(either(first, second), packet, one || two),
{
    assert forall|m: Machine| true implies (#[trigger] eval(either(first, second), packet, m)).0
        == (one || two) by {
        let next = eval(first, packet, m).1;
        assert(eval(second, packet, next).0 == two);
    }
}

proof fn lemma_flip(test: Code, packet: Seq<u8>, verdict: bool)
    requires
        decides(test, packet, verdict),
    ensures
        decides(flip(test), packet, !verdict),
{
    assert forall|m: Machine| true implies (#[trigger] eval(flip(test), packet, m)).0
        == !verdict by {
        assert(eval(test, packet, m).0 == verdict);
    }
}

proof fn lemma_directed(dir: Direction, src: Code, dst: Code, packet: Seq<u8>, one: bool, two: bool)
    requires
        decides(src, packet, one),
        decides(dst, packet, two),
    ensures
        decides(directed(dir, src, dst), packet, toward(dir, one, two)),
{
    lemma_either(src, dst, packet, one, two);
}

proof fn lemma_ethertype(ethertype: u16, packet: Seq<u8>)
    ensures
        decides(ethertype_code(ethertype), packet, half_at(packet, 12) == ethertype),
        forall|m: Machine|
            (#[trigger] eval(ethertype_code(ethertype), packet, m)).1.a == half_at(packet, 12),
{
    lemma_jumps();
    lemma_loads(packet, 12);
    assert forall|m: Machine| true implies (#[trigger] eval(ethertype_code(ethertype), packet, m)).0
        == (half_at(packet, 12) == ethertype) && eval(ethertype_code(ethertype), packet, m).1.a
        == half_at(packet, 12) by {
        lemma_check(ld_abs_h(12), jeq(wide16(ethertype)), packet, m);
    }
    lemma_check(ld_abs_h(12), jeq(wide16(ethertype)), packet, initial_machine());
}

proof fn lemma_byte(off: u32, value: u8, packet: Seq<u8>)
    ensures
        decides(
            check(ld_abs_b(off), jeq(wide8(value))),
            packet,
            byte_at(packet, off as int) == value,
        ),
{
    let code = check(ld_abs_b(off), jeq(wide8(value)));
    lemma_jumps();
    lemma_loads(packet, off);
    assert forall|m: Machine| true implies (#[trigger] eval(code, packet, m)).0 == (byte_at(
        packet,
        off as int,
    ) == value) by {
        lemma_check(ld_abs_b(off), jeq(wide8(value)), packet, m);
    }
    lemma_check(ld_abs_b(off), jeq(wide8(value)), packet, initial_machine());
}

proof fn lemma_half(off: u32, value: u16, packet: Seq<u8>)
    ensures
        decides(
            check(ld_abs_h(off), jeq(wide16(value))),
            packet,
            half_at(packet, off as int) == value,
        ),
{
    let code = check(ld_abs_h(off), jeq(wide16(value)));
    lemma_jumps();
    lemma_loads(packet, off);
    assert forall|m: Machine| true implies (#[trigger] eval(code, packet, m)).0 == (half_at(
        packet,
        off as int,
    ) == value) by {
        lemma_check(ld_abs_h(off), jeq(wide16(value)), packet, m);
    }
    lemma_check(ld_abs_h(off), jeq(wide16(value)), packet, initial_machine());
}

proof fn lemma_word(off: u32, value: u32, packet: Seq<u8>)
    ensures
        decides(check(ld_abs_w(off), jeq(value)), packet, word_at(packet, off as int) == value),
{
    let code = check(ld_abs_w(off), jeq(value));
    lemma_jumps();
    lemma_loads(packet, off);
    assert forall|m: Machine| true implies (#[trigger] eval(code, packet, m)).0 == (word_at(
        packet,
        off as int,
    ) == value) by {
        lemma_check(ld_abs_w(off), jeq(value), packet, m);
    }
    lemma_check(ld_abs_w(off), jeq(value), packet, initial_machine());
}

/// The choice between an IPv4 and an IPv6 test.
proof fn lemma_by_ethertype(v4: Code, v6: Code, packet: Seq<u8>, one: bool, two: bool)
    requires
        decides(v4, packet, one),
        decides(v6, packet, two),
    ensures
        decides(
            split(
                ethertype_code(ETHERTYPE_IP),
                v4,
                both(Code::Test(jeq(wide16(ETHERTYPE_IPV6))), v6),
            ),
            packet,
            if is_ipv4(packet) {
                one
            } else {
                is_ipv6(packet) && two
            },
        ),
{
    let test = Code::Test(jeq(wide16(ETHERTYPE_IPV6)));
    let code = split(ethertype_code(ETHERTYPE_IP), v4, both(test, v6));
    lemma_jumps();
    lemma_ethertype(ETHERTYPE_IP, packet);
    assert(sound(test));
    assert(sound(both(test, v6)));
    assert forall|m: Machine| true implies (#[trigger] eval(code, packet, m)).0 == (if is_ipv4(
        packet,
    ) {
        one
    } else {
        is_ipv6(packet) && two
    }) by {
        let next = eval(ethertype_code(ETHERTYPE_IP), packet, m).1;
        assert(eval(test, packet, next) == (is_ipv6(packet), next));
        assert(eval(v6, packet, next).0 == two);
        assert(eval(both(test, v6), packet, next).0 == (is_ipv6(packet) && two));
        assert(eval(v4, packet, next).0 == one);
    }
}

proof fn lemma_proto(proto: Protocol, packet: Seq<u8>)
    ensures
        decides(proto_code(proto), packet, matches_proto(proto, packet)),
{
    lemma_ethertype(ETHERTYPE_IP, packet);
    lemma_ethertype(ETHERTYPE_IPV6, packet);
    lemma_ethertype(ETHERTYPE_ARP, packet);
    lemma_ethertype(ETHERTYPE_RARP, packet);
    match proto {
        Protocol::Tcp => lemma_transport(IPPROTO_TCP, packet),
        Protocol::Udp => lemma_transport(IPPROTO_UDP, packet),
        Protocol::Icmp => {
            lemma_byte(23, IPPROTO_ICMP, packet);
            lemma_both(
                ethertype_code(ETHERTYPE_IP),
                check(ld_abs_b(23), jeq(wide8(IPPROTO_ICMP))),
                packet,
                is_ipv4(packet),
                byte_at(packet, 23) == IPPROTO_ICMP,
            );
        },
        Protocol::Icmp6 => {
            lemma_byte(20, IPPROTO_ICMPV6, packet);
            lemma_both(
                ethertype_code(ETHERTYPE_IPV6),
                check(ld_abs_b(20), jeq(wide8(IPPROTO_ICMPV6))),
                packet,
                is_ipv6(packet),
                byte_at(packet, 20) == IPPROTO_ICMPV6,
            );
        },
        _ => {},
    }
}

proof fn lemma_transport(number: u8, packet: Seq<u8>)
    ensures
        decides(transport_code(number), packet, carries(packet, number)),
{
    lemma_byte(23, number, packet);
    lemma_byte(20, number, packet);
    lemma_by_ethertype(
        check(ld_abs_b(23), jeq(wide8(number))),
        check(ld_abs_b(20), jeq(wide8(number))),
        packet,
        byte_at(packet, 23) == number,
        byte_at(packet, 20) == number,
    );
}

/// The words from index `i` on of the address at `off` are those of `addr`.
spec fn words_are(packet: Seq<u8>, off: u32, addr: Ipv6Addr, i: int) -> bool {
    forall|j: int| i <= j < 4 ==> word_at(packet, off + 4 * j) == #[trigger] addr.word(j)
}

proof fn lemma_ipv6_addr(off: u32, addr: Ipv6Addr, i: int, packet: Seq<u8>)
    requires
        0 <= i <= 3,
        off + 12 <= u32::MAX,
    ensures
        decides(ipv6_addr_code(off, addr, i), packet, words_are(packet, off, addr, i)),
    decreases 3 - i,
{
    let here = word_at(packet, off + 4 * i) == addr.word(i);
    lemma_word((off + 4 * i) as u32, addr.word(i), packet);
    if i < 3 {
        let rest = words_are(packet, off, addr, i + 1);
        lemma_ipv6_addr(off, addr, i + 1, packet);
        lemma_both(
            check(ld_abs_w((off + 4 * i) as u32), jeq(addr.word(i))),
            ipv6_addr_code(off, addr, i + 1),
            packet,
            here,
            rest,
        );
        assert((here && rest) == words_are(packet, off, addr, i)) by {
            if here && rest {
                assert forall|j: int| i <= j < 4 implies word_at(packet, off + 4 * j)
                    == #[trigger] addr.word(j) by {
                    if j > i {
                        assert(addr.word(j) == word_at(packet, off + 4 * j));
                    }
                }
            }
        }
    } else {
        assert(here == words_are(packet, off, addr, i));
    }
}

proof fn lemma_host(addr: HostAddr, dir: Direction, packet: Seq<u8>)
    ensures
        decides(host_code(addr, dir), packet, matches_host(addr, dir, packet)),
{
    match addr {
        HostAddr::V4(a) => {
            let src = check(ld_abs_w(26), jeq(a.bits));
            let dst = check(ld_abs_w(30), jeq(a.bits));
            let one = word_at(packet, 26) == a.bits;
            let two = word_at(packet, 30) == a.bits;
            lemma_word(26, a.bits, packet);
            lemma_word(30, a.bits, packet);
            lemma_directed(dir, src, dst, packet, one, two);
            lemma_ethertype(ETHERTYPE_IP, packet);
            lemma_both(
                ethertype_code(ETHERTYPE_IP),
                directed(dir, src, dst),
                packet,
                is_ipv4(packet),
                toward(dir, one, two),
            );
        },
        HostAddr::V6(a) => {
            let src = ipv6_addr_code(22, a, 0);
            let dst = ipv6_addr_code(38, a, 0);
            let one = words_are(packet, 22, a, 0);
            let two = words_are(packet, 38, a, 0);
            lemma_ipv6_addr(22, a, 0, packet);
            lemma_ipv6_addr(38, a, 0, packet);
            lemma_directed(dir, src, dst, packet, one, two);
            lemma_ethertype(ETHERTYPE_IPV6, packet);
            lemma_both(
                ethertype_code(ETHERTYPE_IPV6),
                directed(dir, src, dst),
                packet,
                is_ipv6(packet),
                toward(dir, one, two),
            );
            assert(one == ipv6_is(packet, 22, a));
            assert(two == ipv6_is(packet, 38, a));
        },
    }
}

proof fn lemma_has_ports(off: u32, packet: Seq<u8>)
    ensures
        decides(
            has_ports_code(off),
            packet,
            byte_at(packet, off as int) == IPPROTO_TCP || byte_at(packet, off as int)
                == IPPROTO_UDP,
        ),
{
    let tcp = check(ld_abs_b(off), jeq(wide8(IPPROTO_TCP)));
    let udp = Code::Test(jeq(wide8(IPPROTO_UDP)));
    let number = byte_at(packet, off as int);
    lemma_jumps();
    lemma_loads(packet, off);
    lemma_byte(off, IPPROTO_TCP, packet);
    assert(sound(udp));
    assert forall|m: Machine| true implies (#[trigger] eval(has_ports_code(off), packet, m)).0 == (
    number == IPPROTO_TCP || number == IPPROTO_UDP) by {
        lemma_check(ld_abs_b(off), jeq(wide8(IPPROTO_TCP)), packet, m);
        let next = outcome(ld_abs_b(off), packet, m);
        assert(eval(udp, packet, next) == (number == IPPROTO_UDP, next));
    }
}

/// Whether a test of ports passes the packet or not as `verdict` says, where the index register
/// holds `x`.
spec fn decides_at(code: Code, packet: Seq<u8>, x: int, verdict: bool) -> bool {
    &&& sound(code)
    &&& forall|m: Machine| m.x == x ==> (#[trigger] eval(code, packet, m)).0 == verdict
}

/// Whether the instruction loads `value` into the accumulator, where the index register holds
/// `x`, and leaves that register alone.
spec fn loads(inst: Instruction, packet: Seq<u8>, x: int, value: u16) -> bool {
    &&& goes_on(inst)
    &&& forall|m: Machine|
        m.x == x ==> (#[trigger] outcome(inst, packet, m)).a == value && outcome(
            inst,
            packet,
            m,
        ).x == x
}

proof fn lemma_pair(
    src_load: Instruction,
    dst_load: Instruction,
    port: u16,
    dir: Direction,
    packet: Seq<u8>,
    x: int,
    src: u16,
    dst: u16,
)
    requires
        loads(src_load, packet, x, src),
        loads(dst_load, packet, x, dst),
    ensures
        decides_at(
            pair_code(src_load, dst_load, jeq(wide16(port)), dir),
            packet,
            x,
            toward(dir, src == port, dst == port),
        ),
{
    let jump = jeq(wide16(port));
    let code = pair_code(src_load, dst_load, jump, dir);
    lemma_jumps();
    lemma_check(src_load, jump, packet, initial_machine());
    lemma_check(dst_load, jump, packet, initial_machine());
    assert forall|m: Machine| m.x == x implies (#[trigger] eval(code, packet, m)).0 == toward(
        dir,
        src == port,
        dst == port,
    ) by {
        let next = outcome(src_load, packet, m);
        lemma_check(src_load, jump, packet, m);
        lemma_check(dst_load, jump, packet, m);
        lemma_check(dst_load, jump, packet, next);
    }
}

proof fn lemma_in_range(
    load: Instruction,
    start: u32,
    end: u32,
    packet: Seq<u8>,
    x: int,
    value: u16,
)
    requires
        loads(load, packet, x, value),
    ensures
        decides_at(in_range_code(load, start, end), packet, x, start <= value <= end),
        forall|m: Machine|
            m.x == x ==> (#[trigger] eval(in_range_code(load, start, end), packet, m)).1.x == x,
{
    let above = Code::Test(jgt(end));
    let code = in_range_code(load, start, end);
    lemma_jumps();
    assert(sound(above));
    assert(sound(flip(above)));
    lemma_check(load, jge(start), packet, initial_machine());
    assert forall|m: Machine| m.x == x implies (#[trigger] eval(code, packet, m)).0 == (start
        <= value <= end) && eval(code, packet, m).1.x == x by {
        let next = outcome(load, packet, m);
        lemma_check(load, jge(start), packet, m);
        assert(eval(above, packet, next) == (value > end, next));
        assert(eval(flip(above), packet, next) == (value <= end, next));
    }
}

proof fn lemma_portrange(
    src_load: Instruction,
    dst_load: Instruction,
    start: u16,
    end: u16,
    dir: Direction,
    packet: Seq<u8>,
    x: int,
    src: u16,
    dst: u16,
)
    requires
        loads(src_load, packet, x, src),
        loads(dst_load, packet, x, dst),
    ensures
        decides_at(
            portrange_code(src_load, dst_load, wide16(start), wide16(end), dir),
            packet,
            x,
            ports_in_range(src as int, dst as int, start as int, end as int, dir),
        ),
{
    let low = wide16(start);
    let high = wide16(end);
    let code = portrange_code(src_load, dst_load, low, high, dir);
    let first = in_range_code(src_load, low, high);
    let second = in_range_code(dst_load, low, high);
    lemma_in_range(src_load, low, high, packet, x, src);
    lemma_in_range(dst_load, low, high, packet, x, dst);
    if dir is Any {
        assert forall|m: Machine| m.x == x implies (#[trigger] eval(code, packet, m)).0
            == ports_in_range(src as int, dst as int, start as int, end as int, dir) by {
            let (passed, next) = eval(first, packet, m);
            assert(passed == (start <= src <= end));
            assert(eval(second, packet, next).0 == (start <= dst <= end));
        }
    }
}

/// The test of ports behind either header.
proof fn lemma_ports(v4: Code, v6: Code, packet: Seq<u8>, one: bool, two: bool)
    requires
        decides_at(v4, packet, ipv4_header_len(packet), one),
        decides(v6, packet, two),
    ensures
        decides(
            ports_code(v4, v6),
            packet,
            has_ports(packet) && if is_ipv4(packet) {
                one
            } else {
                two
            },
        ),
{
    let inner = before(ldx_msh_b(14), v4);
    let number4 = byte_at(packet, 23);
    let number6 = byte_at(packet, 20);
    let ports4 = number4 == IPPROTO_TCP || number4 == IPPROTO_UDP;
    let ports6 = number6 == IPPROTO_TCP || number6 == IPPROTO_UDP;
    lemma_others(packet, 14);
    lemma_header_len(packet);
    assert(decides(inner, packet, one)) by {
        assert forall|m: Machine| true implies (#[trigger] eval(inner, packet, m)).0 == one by {
            let next = outcome(ldx_msh_b(14), packet, m);
            assert(eval(v4, packet, next).0 == one);
        }
    }
    lemma_has_ports(23, packet);
    lemma_has_ports(20, packet);
    lemma_both(has_ports_code(23), inner, packet, ports4, one);
    lemma_both(has_ports_code(20), v6, packet, ports6, two);
    lemma_by_ethertype(
        both(has_ports_code(23), inner),
        both(has_ports_code(20), v6),
        packet,
        ports4 && one,
        ports6 && two,
    );
}

proof fn lemma_header_len(packet: Seq<u8>)
    ensures
        0 <= ipv4_header_len(packet) <= 60,
{
    let first = byte_at(packet, 14);
    assert(first & 0x0f <= 15) by (bit_vector);
}

/// What the instructions load that look at the ports.
proof fn lemma_port_loads(packet: Seq<u8>)
    ensures
        ({
            let x = ipv4_header_len(packet);
            &&& loads(ld_ind_h(14), packet, x, half_at(packet, 14 + x))
            &&& loads(ld_ind_h(16), packet, x, half_at(packet, 14 + x + 2))
        }),
        forall|x: int|
            #![trigger loads(ld_abs_h(54), packet, x, half_at(packet, 54))]
            loads(ld_abs_h(54), packet, x, half_at(packet, 54)),
        forall|x: int|
            #![trigger loads(ld_abs_h(56), packet, x, half_at(packet, 56))]
            loads(ld_abs_h(56), packet, x, half_at(packet, 56)),
{
    lemma_loads(packet, 14);
    lemma_loads(packet, 16);
    lemma_loads(packet, 54);
    lemma_loads(packet, 56);
}

proof fn lemma_port(port: u16, dir: Direction, packet: Seq<u8>)
    ensures
        decides(port_code(port, dir), packet, matches_port(port, dir, packet)),
{
    let x = ipv4_header_len(packet);
    let jump = jeq(wide16(port));
    let src4 = half_at(packet, 14 + x);
    let dst4 = half_at(packet, 14 + x + 2);
    let src6 = half_at(packet, 54);
    let dst6 = half_at(packet, 56);
    let v6 = pair_code(ld_abs_h(54), ld_abs_h(56), jump, dir);
    let two = toward(dir, src6 == port, dst6 == port);
    lemma_port_loads(packet);
    lemma_pair(ld_ind_h(14), ld_ind_h(16), port, dir, packet, x, src4, dst4);
    lemma_pair(ld_abs_h(54), ld_abs_h(56), port, dir, packet, 0, src6, dst6);
    assert forall|m: Machine| true implies (#[trigger] eval(v6, packet, m)).0 == two by {
        assert(loads(ld_abs_h(54), packet, m.x as int, src6));
        assert(loads(ld_abs_h(56), packet, m.x as int, dst6));
        lemma_pair(ld_abs_h(54), ld_abs_h(56), port, dir, packet, m.x as int, src6, dst6);
    }
    lemma_ports(
        pair_code(ld_ind_h(14), ld_ind_h(16), jump, dir),
        v6,
        packet,
        toward(dir, src4 == port, dst4 == port),
        two,
    );
}

proof fn lemma_port_range(start: u16, end: u16, dir: Direction, packet: Seq<u8>)
    ensures
        decides(
            port_range_code(start, end, dir),
            packet,
            matches_port_range(start, end, dir, packet),
        ),
{
    let x = ipv4_header_len(packet);
    let src4 = half_at(packet, 14 + x);
    let dst4 = half_at(packet, 14 + x + 2);
    let src6 = half_at(packet, 54);
    let dst6 = half_at(packet, 56);
    let v6 = portrange_code(ld_abs_h(54), ld_abs_h(56), wide16(start), wide16(end), dir);
    let one = ports_in_range(src4 as int, dst4 as int, start as int, end as int, dir);
    let two = ports_in_range(src6 as int, dst6 as int, start as int, end as int, dir);
    lemma_port_loads(packet);
    lemma_portrange(ld_ind_h(14), ld_ind_h(16), start, end, dir, packet, x, src4, dst4);
    lemma_portrange(ld_abs_h(54), ld_abs_h(56), start, end, dir, packet, 0, src6, dst6);
    assert forall|m: Machine| true implies (#[trigger] eval(v6, packet, m)).0 == two by {
        let at = m.x as int;
        assert(loads(ld_abs_h(54), packet, at, src6));
        assert(loads(ld_abs_h(56), packet, at, dst6));
        lemma_portrange(ld_abs_h(54), ld_abs_h(56), start, end, dir, packet, at, src6, dst6);
    }
    lemma_ports(
        portrange_code(ld_ind_h(14), ld_ind_h(16), wide16(start), wide16(end), dir),
        v6,
        packet,
        one,
        two,
    );
}

proof fn lemma_mac(off: u32, addr: Seq<u8>, packet: Seq<u8>)
    requires
        off + 4 <= u32::MAX,
    ensures
        decides(mac_code(off, addr), packet, mac_at(packet, off as int, addr)),
{
    lemma_word(off, mac_high(addr), packet);
    lemma_half((off + 4) as u32, mac_low(addr), packet);
    lemma_both(
        check(ld_abs_w(off), jeq(mac_high(addr))),
        check(ld_abs_h((off + 4) as u32), jeq(wide16(mac_low(addr)))),
        packet,
        word_at(packet, off as int) == mac_high(addr),
        half_at(packet, off + 4) == mac_low(addr),
    );
}

proof fn lemma_ether_host(addr: Seq<u8>, dir: Direction, packet: Seq<u8>)
    ensures
        decides(ether_host_code(addr, dir), packet, matches_ether_host(addr, dir, packet)),
{
    let dst = mac_at(packet, 0, addr);
    let src = mac_at(packet, 6, addr);
    lemma_mac(0, addr, packet);
    lemma_mac(6, addr, packet);
    lemma_either(mac_code(0, addr), mac_code(6, addr), packet, dst, src);
}

proof fn lemma_masked(off: u32, mask: u32, net: u32, packet: Seq<u8>)
    ensures
        decides(
            masked_code(off, mask, net),
            packet,
            (word_at(packet, off as int) & mask) == net,
        ),
{
    let code = masked_code(off, mask, net);
    lemma_jumps();
    lemma_loads(packet, off);
    lemma_others(packet, mask);
    lemma_check(and_k(mask), jeq(net), packet, initial_machine());
    assert forall|m: Machine| true implies (#[trigger] eval(code, packet, m)).0 == ((word_at(
        packet,
        off as int,
    ) & mask) == net) by {
        lemma_check(and_k(mask), jeq(net), packet, outcome(ld_abs_w(off), packet, m));
    }
}

/// The masked words from index `i` on of the address at `off` are those of `addr`.
spec fn masked_words_are(
    packet: Seq<u8>,
    off: u32,
    addr: Ipv6Addr,
    mask: Ipv6Addr,
    i: int,
) -> bool {
    forall|j: int|
        i <= j < 4 ==> (word_at(packet, off + 4 * j) & mask.word(j)) == #[trigger] addr.word(j)
}

proof fn lemma_ipv6_net_addr(off: u32, addr: Ipv6Addr, mask: Ipv6Addr, i: int, packet: Seq<u8>)
    requires
        0 <= i <= 3,
        off + 12 <= u32::MAX,
    ensures
        decides(
            ipv6_net_addr_code(off, addr, mask, i),
            packet,
            masked_words_are(packet, off, addr, mask, i),
        ),
    decreases 3 - i,
{
    let here = (word_at(packet, off + 4 * i) & mask.word(i)) == addr.word(i);
    let all = masked_words_are(packet, off, addr, mask, i);
    lemma_masked((off + 4 * i) as u32, mask.word(i), addr.word(i), packet);
    if i < 3 {
        let rest = masked_words_are(packet, off, addr, mask, i + 1);
        lemma_ipv6_net_addr(off, addr, mask, i + 1, packet);
        lemma_both(
            masked_code((off + 4 * i) as u32, mask.word(i), addr.word(i)),
            ipv6_net_addr_code(off, addr, mask, i + 1),
            packet,
            here,
            rest,
        );
        assert((here && rest) == all) by {
            if here && rest {
                assert forall|j: int| i <= j < 4 implies (word_at(packet, off + 4 * j) & mask.word(
                    j,
                )) == #[trigger] addr.word(j) by {
                    if j > i {
                        assert(addr.word(j) == (word_at(packet, off + 4 * j) & mask.word(j)));
                    }
                }
            }
        }
    } else {
        assert(here == all);
    }
}

proof fn lemma_net(addr: NetAddr, dir: Direction, packet: Seq<u8>)
    ensures
        decides(net_code(addr, dir), packet, matches_net(addr, dir, packet)),
{
    match addr {
        NetAddr::V4 { addr, mask } => {
            let net = addr.bits & mask.bits;
            let src = masked_code(26, mask.bits, net);
            let dst = masked_code(30, mask.bits, net);
            let one = ipv4_net_at(packet, 26, addr, mask);
            let two = ipv4_net_at(packet, 30, addr, mask);
            lemma_masked(26, mask.bits, net, packet);
            lemma_masked(30, mask.bits, net, packet);
            lemma_directed(dir, src, dst, packet, one, two);
            lemma_ethertype(ETHERTYPE_IP, packet);
            lemma_both(
                ethertype_code(ETHERTYPE_IP),
                directed(dir, src, dst),
                packet,
                is_ipv4(packet),
                toward(dir, one, two),
            );
        },
        NetAddr::V6 { addr, mask } => {
            let src = ipv6_net_addr_code(22, addr, mask, 0);
            let dst = ipv6_net_addr_code(38, addr, mask, 0);
            let one = masked_words_are(packet, 22, addr, mask, 0);
            let two = masked_words_are(packet, 38, addr, mask, 0);
            lemma_ipv6_net_addr(22, addr, mask, 0, packet);
            lemma_ipv6_net_addr(38, addr, mask, 0, packet);
            lemma_directed(dir, src, dst, packet, one, two);
            lemma_ethertype(ETHERTYPE_IPV6, packet);
            lemma_both(
                ethertype_code(ETHERTYPE_IPV6),
                directed(dir, src, dst),
                packet,
                is_ipv6(packet),
                toward(dir, one, two),
            );
            assert(one == ipv6_at(packet, 22, addr, mask));
            assert(two == ipv6_at(packet, 38, addr, mask));
        },
    }
}

proof fn lemma_len(op: RelOp, len: u32, packet: Seq<u8>)
    ensures
        decides(
            len_code(op, len),
            packet,
            relation(op, packet_len(packet) as int, len as int),
        ),
{
    reveal_with_fuel(eval, 4);
    reveal_with_fuel(sound, 4);
    lemma_jumps();
    lemma_loads(packet, 0);
}

/// The code of an expression passes the packets for which the expression holds, whatever the
/// registers hold before it.
proof fn lemma_code(expr: Expr, packet: Seq<u8>)
    ensures
        decides(code_of(expr), packet, holds(expr, packet)),
    decreases expr,
{
    match expr {
        Expr::Proto(proto) => lemma_proto(proto, packet),
        Expr::Host { addr, dir } => lemma_host(addr, dir, packet),
        Expr::Port { port, dir } => lemma_port(port, dir, packet),
        Expr::PortRange { start, end, dir } => lemma_port_range(start, end, dir, packet),
        Expr::EtherHost { addr, dir } => lemma_ether_host(addr, dir, packet),
        Expr::Net { addr, dir } => lemma_net(addr, dir, packet),
        Expr::Len { op, len } => lemma_len(op, len, packet),
        Expr::And(left, right) => {
            let one = holds(*left, packet);
            let two = holds(*right, packet);
            lemma_code(*left, packet);
            lemma_code(*right, packet);
            lemma_both(code_of(*left), code_of(*right), packet, one, two);
        },
        Expr::Or(left, right) => {
            let one = holds(*left, packet);
            let two = holds(*right, packet);
            lemma_code(*left, packet);
            lemma_code(*right, packet);
            lemma_either(code_of(*left), code_of(*right), packet, one, two);
        },
        Expr::Not(inner) => {
            lemma_code(*inner, packet);
            lemma_flip(code_of(*inner), packet, holds(*inner, packet));
        },
    }
}

/// The code of an expression consists of comparisons and of instructions that go on.
pub proof fn lemma_code_is_sound(expr: Expr)
    ensures
        sound(code_of(expr)),
{
    lemma_code(expr, Seq::empty());
}

/// Where two filters are compiled, so are the ways to combine them: `and` matches what both
/// match, `or` what either matches, and `not` what the filter does not match.
pub proof fn law_filters_combine(left: Expr, right: Expr, packet: Seq<u8>)
    requires
        compilable(left),
        compilable(right),
        compilable(Expr::And(Box::new(left), Box::new(right))),
        compilable(Expr::Or(Box::new(left), Box::new(right))),
        compilable(Expr::Not(Box::new(left))),
    ensures
        ({
            let one = accepts(program_of(code_of(left)), packet);
            let two = accepts(program_of(code_of(right)), packet);
            let and = Expr::And(Box::new(left), Box::new(right));
            let or = Expr::Or(Box::new(left), Box::new(right));
            let not = Expr::Not(Box::new(left));
            &&& accepts(program_of(code_of(and)), packet) == (one && two)
            &&& accepts(program_of(code_of(or)), packet) == (one || two)
            &&& accepts(program_of(code_of(not)), packet) == !one
        }),
{
    law_compiled_filter_decides(left, packet);
    law_compiled_filter_decides(right, packet);
    law_compiled_filter_decides(Expr::And(Box::new(left), Box::new(right)), packet);
    law_compiled_filter_decides(Expr::Or(Box::new(left), Box::new(right)), packet);
    law_compiled_filter_decides(Expr::Not(Box::new(left)), packet);
}

/// A compiled filter matches exactly the packets for which the filter expression holds.
pub proof fn law_compiled_filter_decides(expr: Expr, packet: Seq<u8>)
    requires
        compilable(expr),
    ensures
        accepts(program_of(code_of(expr)), packet) == holds(expr, packet),
{
    let code = code_of(expr);
    let program = program_of(code);
    let len = slots(code).len() as int;
    let m = initial_machine();
    lemma_code(expr, packet);
    assert(stands(program, 0, slots(code), len, len + 1)) by {
        assert forall|i: int| 0 <= i < len implies program[0 + i] == placed(
            #[trigger] slots(code)[i],
            0 + i,
            0,
            len,
            len + 1,
        ) by {}
    }
    lemma_run_block(program, packet, 0, code, len, len + 1, m);
    assert(at(m, 0) == m);
    lemma_jumps();
    assert(program[len] == ret_k(CBPF_ACCEPT));
    assert(program[len + 1] == ret_k(CBPF_REJECT));
}

} // verus!
