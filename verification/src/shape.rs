//! The shape of compiled programs.

use vstd::prelude::*;

use crate::ast::Expr;
use crate::block::{embed, encodable, label_count, slots, Code, Exit, Slot};
use crate::compiler::{code_of, compilable, program_of};
use crate::meaning::{compares, goes_on, lemma_code_is_sound, sound};
use crate::types::{ret_k, Instruction, BPF_JMP, BPF_K, BPF_RET, CBPF_ACCEPT, CBPF_REJECT};
use crate::vm::{initial_machine, step};

verus! {

/// Whether the exit leads out of a block of `len` instructions or to one of them.
spec fn is_inside(exit: Exit, len: int) -> bool {
    exit matches Exit::At(i) ==> 0 <= i < len
}

/// Whether a slot of a block of `len` instructions ends no program, jumps only by a conditional
/// jump, and not out of the block but by its exits.
spec fn is_tame(slot: Slot, len: int) -> bool {
    match slot {
        Slot::Plain(inst) => goes_on(inst),
        Slot::Jump(inst, on_true, on_false) => compares(inst) && is_inside(on_true, len)
            && is_inside(on_false, len),
    }
}

spec fn all_tame(all: Seq<Slot>, len: int) -> bool {
    forall|i: int| 0 <= i < all.len() ==> is_tame(#[trigger] all[i], len)
}

proof fn lemma_embedded_tame(
    inner: Seq<Slot>,
    shift: int,
    accept: Exit,
    reject: Exit,
    len: int,
)
    requires
        all_tame(inner, inner.len() as int),
        0 <= shift,
        shift + inner.len() <= len,
        is_inside(accept, len),
        is_inside(reject, len),
    ensures
        all_tame(embed(inner, shift, accept, reject), len),
{
    let all = embed(inner, shift, accept, reject);
    assert forall|i: int| 0 <= i < all.len() implies is_tame(#[trigger] all[i], len) by {
        assert(is_tame(inner[i], inner.len() as int));
    }
}

proof fn lemma_joined_tame(one: Seq<Slot>, two: Seq<Slot>, len: int)
    requires
        all_tame(one, len),
        all_tame(two, len),
    ensures
        all_tame(one + two, len),
{
    assert forall|i: int| 0 <= i < (one + two).len() implies is_tame(
        #[trigger] (one + two)[i],
        len,
    ) by {
        if i < one.len() {
            assert((one + two)[i] == one[i]);
        } else {
            assert((one + two)[i] == two[i - one.len()]);
        }
    }
}

proof fn lemma_slots_tame(code: Code)
    requires
        sound(code),
    ensures
        slots(code).len() > 0,
        all_tame(slots(code), slots(code).len() as int),
    decreases code,
{
    let len = slots(code).len() as int;
    match code {
        Code::Test(inst) => {},
        Code::Before(inst, test) => {
            lemma_slots_tame(*test);
            lemma_embedded_tame(slots(*test), 1, Exit::Accept, Exit::Reject, len);
            lemma_joined_tame(
                seq![Slot::Plain(inst)],
                embed(slots(*test), 1, Exit::Accept, Exit::Reject),
                len,
            );
        },
        Code::Both(first, second) => {
            let at = slots(*first).len() as int;
            lemma_slots_tame(*first);
            lemma_slots_tame(*second);
            lemma_embedded_tame(slots(*first), 0, Exit::At(at), Exit::Reject, len);
            lemma_embedded_tame(slots(*second), at, Exit::Accept, Exit::Reject, len);
            lemma_joined_tame(
                embed(slots(*first), 0, Exit::At(at), Exit::Reject),
                embed(slots(*second), at, Exit::Accept, Exit::Reject),
                len,
            );
        },
        Code::Either(first, second) => {
            let at = slots(*first).len() as int;
            lemma_slots_tame(*first);
            lemma_slots_tame(*second);
            lemma_embedded_tame(slots(*first), 0, Exit::Accept, Exit::At(at), len);
            lemma_embedded_tame(slots(*second), at, Exit::Accept, Exit::Reject, len);
            lemma_joined_tame(
                embed(slots(*first), 0, Exit::Accept, Exit::At(at)),
                embed(slots(*second), at, Exit::Accept, Exit::Reject),
                len,
            );
        },
        Code::Flip(test) => {
            lemma_slots_tame(*test);
            lemma_embedded_tame(slots(*test), 0, Exit::Reject, Exit::Accept, len);
        },
        Code::Split(test, yes, no) => {
            let no_at = slots(*test).len() as int;
            let yes_at = no_at + slots(*no).len();
            lemma_slots_tame(*test);
            lemma_slots_tame(*yes);
            lemma_slots_tame(*no);
            let one = embed(slots(*test), 0, Exit::At(yes_at), Exit::At(no_at));
            let two = embed(slots(*no), no_at, Exit::Accept, Exit::Reject);
            let three = embed(slots(*yes), yes_at, Exit::Accept, Exit::Reject);
            lemma_embedded_tame(slots(*test), 0, Exit::At(yes_at), Exit::At(no_at), len);
            lemma_embedded_tame(slots(*no), no_at, Exit::Accept, Exit::Reject, len);
            lemma_embedded_tame(slots(*yes), yes_at, Exit::Accept, Exit::Reject, len);
            lemma_joined_tame(one, two, len);
            lemma_joined_tame(one + two, three, len);
        },
    }
}

/// An instruction that goes on does not end a program.
proof fn lemma_goes_on(inst: Instruction)
    requires
        goes_on(inst),
    ensures
        inst.code & 0x07 != BPF_RET,
{
    let m = initial_machine();
    assert(step(inst, Seq::empty(), m) is Next);
}

/// A compiled program ends with one instruction that accepts the packet and one that rejects it,
/// and no other instruction of it ends the program.
pub proof fn law_program_has_two_returns(expr: Expr)
    requires
        compilable(expr),
    ensures
        ({
            let program = program_of(code_of(expr));
            let len = program.len() as int;
            &&& len >= 3
            &&& program[len - 2] == ret_k(CBPF_ACCEPT)
            &&& program[len - 1] == ret_k(CBPF_REJECT)
            &&& forall|i: int|
                0 <= i < len - 2 ==> (#[trigger] program[i]).code & 0x07 != BPF_RET
        }),
{
    let code = code_of(expr);
    let all = slots(code);
    let program = program_of(code);
    lemma_code_is_sound(expr);
    lemma_slots_tame(code);
    assert forall|i: int| 0 <= i < program.len() - 2 implies (#[trigger] program[i]).code & 0x07
        != BPF_RET by {
        assert(is_tame(all[i], all.len() as int));
        match all[i] {
            Slot::Plain(inst) => lemma_goes_on(inst),
            Slot::Jump(inst, _, _) => {},
        }
    }
}

/// The instructions at the end of a program are no jumps.
proof fn lemma_returns_end()
    ensures
        ret_k(CBPF_ACCEPT).code & 0x07 != BPF_JMP,
        ret_k(CBPF_REJECT).code & 0x07 != BPF_JMP,
{
    assert((BPF_RET | BPF_K) & 0x07 != BPF_JMP) by (bit_vector);
}

/// Every jump of a compiled program leads forward, to an instruction of the program.
pub proof fn law_jumps_stay_in_program(expr: Expr, i: int)
    requires
        compilable(expr),
        0 <= i < program_of(code_of(expr)).len(),
        program_of(code_of(expr))[i].code & 0x07 == BPF_JMP,
    ensures
        ({
            let program = program_of(code_of(expr));
            &&& i + 1 + program[i].jt < program.len()
            &&& i + 1 + program[i].jf < program.len()
        }),
{
    let code = code_of(expr);
    let all = slots(code);
    let len = all.len() as int;
    lemma_code_is_sound(expr);
    lemma_slots_tame(code);
    lemma_returns_end();
    assert(is_tame(all[i], len));
    assert(encodable(all[i], i, 0, len, len + 1));
}

/// Whether the exit of an instruction at index `at` leads forward, to one of `len` instructions or
/// out of them.
spec fn is_ahead(exit: Exit, at: int, len: int) -> bool {
    exit matches Exit::At(i) ==> at < i < len
}

spec fn leads_ahead(slot: Slot, at: int, len: int) -> bool {
    slot matches Slot::Jump(_, on_true, on_false) ==> is_ahead(on_true, at, len) && is_ahead(
        on_false,
        at,
        len,
    )
}

spec fn all_ahead(all: Seq<Slot>, from: int, len: int) -> bool {
    forall|i: int| 0 <= i < all.len() ==> leads_ahead(#[trigger] all[i], from + i, len)
}

proof fn lemma_embedded_ahead(
    inner: Seq<Slot>,
    shift: int,
    accept: Exit,
    reject: Exit,
    len: int,
)
    requires
        all_ahead(inner, 0, inner.len() as int),
        0 <= shift,
        shift + inner.len() <= len,
        is_ahead(accept, shift + inner.len() - 1, len),
        is_ahead(reject, shift + inner.len() - 1, len),
    ensures
        all_ahead(embed(inner, shift, accept, reject), shift, len),
        embed(inner, shift, accept, reject).len() == inner.len(),
{
    let all = embed(inner, shift, accept, reject);
    assert forall|i: int| 0 <= i < all.len() implies leads_ahead(
        #[trigger] all[i],
        shift + i,
        len,
    ) by {
        assert(leads_ahead(inner[i], 0 + i, inner.len() as int));
    }
}

proof fn lemma_joined_ahead(one: Seq<Slot>, two: Seq<Slot>, from: int, len: int)
    requires
        all_ahead(one, from, len),
        all_ahead(two, from + one.len(), len),
    ensures
        all_ahead(one + two, from, len),
{
    let all = one + two;
    assert forall|i: int| 0 <= i < all.len() implies leads_ahead(
        #[trigger] all[i],
        from + i,
        len,
    ) by {
        if i < one.len() {
            assert(all[i] == one[i]);
        } else {
            assert(all[i] == two[i - one.len()]);
            assert(leads_ahead(two[i - one.len()], from + one.len() + (i - one.len()), len));
        }
    }
}

/// The jumps of a block lead forward, and it needs fewer labels than it has instructions.
proof fn lemma_leads_ahead(code: Code)
    ensures
        slots(code).len() > 0,
        all_ahead(slots(code), 0, slots(code).len() as int),
        label_count(code) < slots(code).len(),
    decreases code,
{
    let len = slots(code).len() as int;
    match code {
        Code::Test(inst) => {},
        Code::Before(inst, test) => {
            lemma_leads_ahead(*test);
            lemma_embedded_ahead(slots(*test), 1, Exit::Accept, Exit::Reject, len);
            lemma_joined_ahead(
                seq![Slot::Plain(inst)],
                embed(slots(*test), 1, Exit::Accept, Exit::Reject),
                0,
                len,
            );
        },
        Code::Both(first, second) => {
            let at = slots(*first).len() as int;
            lemma_leads_ahead(*first);
            lemma_leads_ahead(*second);
            lemma_embedded_ahead(slots(*first), 0, Exit::At(at), Exit::Reject, len);
            lemma_embedded_ahead(slots(*second), at, Exit::Accept, Exit::Reject, len);
            lemma_joined_ahead(
                embed(slots(*first), 0, Exit::At(at), Exit::Reject),
                embed(slots(*second), at, Exit::Accept, Exit::Reject),
                0,
                len,
            );
        },
        Code::Either(first, second) => {
            let at = slots(*first).len() as int;
            lemma_leads_ahead(*first);
            lemma_leads_ahead(*second);
            lemma_embedded_ahead(slots(*first), 0, Exit::Accept, Exit::At(at), len);
            lemma_embedded_ahead(slots(*second), at, Exit::Accept, Exit::Reject, len);
            lemma_joined_ahead(
                embed(slots(*first), 0, Exit::Accept, Exit::At(at)),
                embed(slots(*second), at, Exit::Accept, Exit::Reject),
                0,
                len,
            );
        },
        Code::Flip(test) => {
            lemma_leads_ahead(*test);
            lemma_embedded_ahead(slots(*test), 0, Exit::Reject, Exit::Accept, len);
        },
        Code::Split(test, yes, no) => {
            let no_at = slots(*test).len() as int;
            let yes_at = no_at + slots(*no).len();
            lemma_leads_ahead(*test);
            lemma_leads_ahead(*yes);
            lemma_leads_ahead(*no);
            let one = embed(slots(*test), 0, Exit::At(yes_at), Exit::At(no_at));
            let two = embed(slots(*no), no_at, Exit::Accept, Exit::Reject);
            let three = embed(slots(*yes), yes_at, Exit::Accept, Exit::Reject);
            assert(len == yes_at + slots(*yes).len());
            lemma_embedded_ahead(slots(*test), 0, Exit::At(yes_at), Exit::At(no_at), len);
            lemma_embedded_ahead(slots(*no), no_at, Exit::Accept, Exit::Reject, len);
            lemma_embedded_ahead(slots(*yes), yes_at, Exit::Accept, Exit::Reject, len);
            lemma_joined_ahead(one, two, 0, len);
            lemma_joined_ahead(one + two, three, 0, len);
        },
    }
}

/// An expression whose program has no more instructions than a jump can skip, besides the jump
/// itself and the one it leads to, has its program.
pub proof fn law_short_filters_are_compiled(expr: Expr)
    requires
        program_of(code_of(expr)).len() <= 257,
    ensures
        compilable(expr),
{
    let code = code_of(expr);
    let all = slots(code);
    let len = all.len() as int;
    lemma_leads_ahead(code);
    assert forall|i: int| 0 <= i < len implies encodable(
        #[trigger] all[i],
        i,
        0,
        len,
        len + 1,
    ) by {
        assert(leads_ahead(all[i], 0 + i, len));
    }
}

/// The program of a negation is as long as that of the expression.
pub proof fn law_negation_is_no_longer(expr: Expr)
    ensures
        program_of(code_of(Expr::Not(Box::new(expr)))).len() == program_of(code_of(expr)).len(),
{
    let inner = code_of(expr);
    assert(code_of(Expr::Not(Box::new(expr))) == Code::Flip(Box::new(inner)));
}

/// The program of two expressions that are combined has the instructions of both, and the two
/// returns once.
pub proof fn law_programs_add_up(left: Expr, right: Expr)
    ensures
        ({
            let apart = program_of(code_of(left)).len() + program_of(code_of(right)).len();
            &&& program_of(code_of(Expr::And(Box::new(left), Box::new(right)))).len() + 2 == apart
            &&& program_of(code_of(Expr::Or(Box::new(left), Box::new(right)))).len() + 2 == apart
        }),
{
    let one = Box::new(code_of(left));
    let two = Box::new(code_of(right));
    assert(code_of(Expr::And(Box::new(left), Box::new(right))) == Code::Both(one, two));
    assert(code_of(Expr::Or(Box::new(left), Box::new(right))) == Code::Either(one, two));
}

} // verus!
