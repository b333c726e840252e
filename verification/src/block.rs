//! Structured code: how a test on a packet is laid out as CBPF instructions.
//!
//! A block of code has one entry, its first instruction, and two exits, which it leaves by a
//! jump: one for a packet that passes the test and one for a packet that does not.

use vstd::prelude::*;

use crate::assembler::{branch, plain, Assembler, Item, LabelId};
use crate::types::Instruction;

verus! {

/// Where a jump inside a block leads to.
pub enum Exit {
    /// Out of the block: the packet passes.
    Accept,
    /// Out of the block: the packet does not pass.
    Reject,
    /// To the instruction of the block at this index.
    At(int),
}

/// One instruction of a block.
pub enum Slot {
    /// An instruction that goes on to the next one.
    Plain(Instruction),
    /// A conditional jump, with its targets when the condition holds and when it does not.
    Jump(Instruction, Exit, Exit),
}

/// A test on a packet.
pub enum Code {
    /// The condition of a conditional jump.
    Test(Instruction),
    /// An instruction that prepares a test.
    Before(Instruction, Box<Code>),
    /// Two tests that must both pass.
    Both(Box<Code>, Box<Code>),
    /// Two tests of which one must pass.
    Either(Box<Code>, Box<Code>),
    /// A test that must not pass.
    Flip(Box<Code>),
    /// A test that decides which of two others must pass: the second, or else the third.
    Split(Box<Code>, Box<Code>, Box<Code>),
}

/// The exit `exit` of a block that starts at index `shift` of a larger one, whose own exits lead
/// to `accept` and `reject` there.
pub open spec fn relocate(exit: Exit, shift: int, accept: Exit, reject: Exit) -> Exit {
    match exit {
        Exit::Accept => accept,
        Exit::Reject => reject,
        Exit::At(i) => Exit::At(shift + i),
    }
}

pub open spec fn relocate_slot(slot: Slot, shift: int, accept: Exit, reject: Exit) -> Slot {
    match slot {
        Slot::Plain(inst) => Slot::Plain(inst),
        Slot::Jump(inst, on_true, on_false) => Slot::Jump(
            inst,
            relocate(on_true, shift, accept, reject),
            relocate(on_false, shift, accept, reject),
        ),
    }
}

/// The slots of a block as they stand at index `shift` of a larger one.
pub open spec fn embed(slots: Seq<Slot>, shift: int, accept: Exit, reject: Exit) -> Seq<Slot> {
    Seq::new(slots.len(), |i: int| relocate_slot(slots[i], shift, accept, reject))
}

/// The instructions of a block.
pub open spec fn slots(code: Code) -> Seq<Slot>
    decreases code,
{
    match code {
        Code::Test(inst) => seq![Slot::Jump(inst, Exit::Accept, Exit::Reject)],
        Code::Before(inst, test) => seq![Slot::Plain(inst)] + embed(
            slots(*test),
            1,
            Exit::Accept,
            Exit::Reject,
        ),
        Code::Both(first, second) => {
            let at = slots(*first).len() as int;
            embed(slots(*first), 0, Exit::At(at), Exit::Reject) + embed(
                slots(*second),
                at,
                Exit::Accept,
                Exit::Reject,
            )
        },
        Code::Either(first, second) => {
            let at = slots(*first).len() as int;
            embed(slots(*first), 0, Exit::Accept, Exit::At(at)) + embed(
                slots(*second),
                at,
                Exit::Accept,
                Exit::Reject,
            )
        },
        Code::Flip(test) => embed(slots(*test), 0, Exit::Reject, Exit::Accept),
        Code::Split(test, yes, no) => {
            let no_at = slots(*test).len() as int;
            let yes_at = no_at + slots(*no).len();
            embed(slots(*test), 0, Exit::At(yes_at), Exit::At(no_at)) + embed(
                slots(*no),
                no_at,
                Exit::Accept,
                Exit::Reject,
            ) + embed(slots(*yes), yes_at, Exit::Accept, Exit::Reject)
        },
    }
}

/// The number of places inside a block that its jumps need a label for.
pub open spec fn label_count(code: Code) -> nat
    decreases code,
{
    match code {
        Code::Test(_) => 0,
        Code::Before(_, test) => label_count(*test),
        Code::Both(first, second) => 1 + label_count(*first) + label_count(*second),
        Code::Either(first, second) => 1 + label_count(*first) + label_count(*second),
        Code::Flip(test) => label_count(*test),
        Code::Split(test, yes, no) => 2 + label_count(*test) + label_count(*yes) + label_count(*no),
    }
}

/// The index that an exit of a block leads to, where the block starts at `base` and its own exits
/// lead to `accept` and `reject`.
pub open spec fn target(exit: Exit, base: int, accept: int, reject: int) -> int {
    match exit {
        Exit::Accept => accept,
        Exit::Reject => reject,
        Exit::At(i) => base + i,
    }
}

/// Whether a jump from `at` to `to` can be encoded.
pub open spec fn near(at: int, to: int) -> bool {
    at < to <= at + 256
}

/// Whether the jumps of the slot can be encoded.
pub open spec fn encodable(slot: Slot, at: int, base: int, accept: int, reject: int) -> bool {
    match slot {
        Slot::Plain(_) => true,
        Slot::Jump(_, on_true, on_false) => near(at, target(on_true, base, accept, reject)) && near(
            at,
            target(on_false, base, accept, reject),
        ),
    }
}

/// The instruction of a slot that stands at index `at` of a program.
pub open spec fn placed(slot: Slot, at: int, base: int, accept: int, reject: int) -> Instruction {
    match slot {
        Slot::Plain(inst) => inst,
        Slot::Jump(inst, on_true, on_false) => Instruction {
            code: inst.code,
            jt: (target(on_true, base, accept, reject) - at - 1) as u8,
            jf: (target(on_false, base, accept, reject) - at - 1) as u8,
            k: inst.k,
        },
    }
}

/// Whether `label` leads to `exit` of a block that starts at `base` and has the labels from
/// `low` on for its own.
pub open spec fn leads_to(
    out: Assembler,
    low: LabelId,
    base: int,
    accept: LabelId,
    reject: LabelId,
    label: Option<LabelId>,
    exit: Exit,
) -> bool {
    match (label, exit) {
        (None, _) => false,
        (Some(label), Exit::Accept) => label == accept,
        (Some(label), Exit::Reject) => label == reject,
        (Some(label), Exit::At(i)) => {
            &&& low <= label < out.next_label()
            &&& out.labels().contains_key(label)
            &&& out.labels()[label] == base + i
        },
    }
}

/// Whether an emitted instruction is the one of `slot`.
pub open spec fn item_is(
    out: Assembler,
    low: LabelId,
    base: int,
    accept: LabelId,
    reject: LabelId,
    item: Item,
    slot: Slot,
) -> bool {
    match slot {
        Slot::Plain(inst) => item == plain(inst),
        Slot::Jump(inst, on_true, on_false) => {
            &&& item.inst == inst
            &&& leads_to(out, low, base, accept, reject, item.on_true, on_true)
            &&& leads_to(out, low, base, accept, reject, item.on_false, on_false)
        },
    }
}

/// Whether nothing emitted before has changed from `before` to `after`.
pub open spec fn kept(before: Assembler, after: Assembler) -> bool {
    &&& before.items().len() <= after.items().len()
    &&& forall|i: int|
        0 <= i < before.items().len() ==> #[trigger] after.items()[i] == before.items()[i]
    &&& forall|label: LabelId|
        label < before.next_label() ==> (#[trigger] after.labels().contains_key(label)
            == before.labels().contains_key(label)) && after.labels()[label]
            == before.labels()[label]
}

/// Whether `after` is `before` with the block of `code` emitted behind it, whose exits are the
/// labels `accept` and `reject`.
pub open spec fn emitted(
    before: Assembler,
    after: Assembler,
    code: Code,
    accept: LabelId,
    reject: LabelId,
) -> bool {
    let base = before.items().len() as int;
    &&& after.wf()
    &&& kept(before, after)
    &&& after.next_label() == before.next_label() + label_count(code)
    &&& after.items().len() == base + slots(code).len()
    &&& forall|i: int|
        0 <= i < slots(code).len() ==> item_is(
            after,
            before.next_label(),
            base,
            accept,
            reject,
            after.items()[base + i],
            #[trigger] slots(code)[i],
        )
}

/// Whether `after` is `before` with `label` handed out.
pub open spec fn labelled(before: Assembler, after: Assembler, label: LabelId) -> bool {
    &&& label == before.next_label()
    &&& after.next_label() == label + 1
    &&& after.items() == before.items()
    &&& after.labels() == before.labels()
}

/// Whether `after` is `before` with `label` placed at the next instruction.
pub open spec fn placed_label(before: Assembler, after: Assembler, label: LabelId) -> bool {
    &&& after.next_label() == before.next_label()
    &&& after.items() == before.items()
    &&& after.labels() == before.labels().insert(label, before.items().len() as usize)
    &&& before.items().len() <= usize::MAX
}

/// Whether the items from `from` on are those of `slots`, a part of the block at `base`.
spec fn items_are(
    out: Assembler,
    low: LabelId,
    base: int,
    accept: LabelId,
    reject: LabelId,
    from: int,
    slots: Seq<Slot>,
) -> bool {
    forall|i: int|
        0 <= i < slots.len() ==> item_is(
            out,
            low,
            base,
            accept,
            reject,
            out.items()[from + i],
            #[trigger] slots[i],
        )
}

/// The items of an inner block are those of the larger block that it is part of.
proof fn lemma_embedded(
    before: Assembler,
    after: Assembler,
    inner: Code,
    inner_accept: LabelId,
    inner_reject: LabelId,
    out: Assembler,
    low: LabelId,
    base: int,
    shift: int,
    accept: LabelId,
    reject: LabelId,
    to_accept: Exit,
    to_reject: Exit,
)
    requires
        emitted(before, after, inner, inner_accept, inner_reject),
        low <= before.next_label(),
        after.next_label() <= out.next_label(),
        after.items().len() <= out.items().len(),
        forall|i: int|
            0 <= i < after.items().len() ==> #[trigger] out.items()[i] == after.items()[i],
        forall|label: LabelId|
            before.next_label() <= label < after.next_label() ==> (
            #[trigger] out.labels().contains_key(label) == after.labels().contains_key(label))
                && out.labels()[label] == after.labels()[label],
        leads_to(out, low, base, accept, reject, Some(inner_accept), to_accept),
        leads_to(out, low, base, accept, reject, Some(inner_reject), to_reject),
        before.items().len() == base + shift,
    ensures
        items_are(
            out,
            low,
            base,
            accept,
            reject,
            base + shift,
            embed(slots(inner), shift, to_accept, to_reject),
        ),
{
    let all = embed(slots(inner), shift, to_accept, to_reject);
    assert forall|i: int| 0 <= i < all.len() implies item_is(
        out,
        low,
        base,
        accept,
        reject,
        out.items()[base + shift + i],
        #[trigger] all[i],
    ) by {
        let slot = slots(inner)[i];
        let at = before.items().len() + i;
        assert(out.items()[at] == after.items()[at]);
        assert(item_is(
            after,
            before.next_label(),
            before.items().len() as int,
            inner_accept,
            inner_reject,
            after.items()[at],
            slot,
        ));
        if let Slot::Jump(inst, on_true, on_false) = slot {
            let item = after.items()[at];
            let true_exit = relocate(on_true, shift, to_accept, to_reject);
            let false_exit = relocate(on_false, shift, to_accept, to_reject);
            assert(leads_to(out, low, base, accept, reject, item.on_true, true_exit));
            assert(leads_to(out, low, base, accept, reject, item.on_false, false_exit));
        }
    }
}

/// Emitting a conditional jump emits a test.
pub proof fn lemma_emit_test(
    before: Assembler,
    after: Assembler,
    inst: Instruction,
    accept: LabelId,
    reject: LabelId,
)
    requires
        after.wf(),
        after.items() == before.items().push(branch(inst, accept, reject)),
        after.labels() == before.labels(),
        after.next_label() == before.next_label(),
    ensures
        emitted(before, after, Code::Test(inst), accept, reject),
{
}

/// Emitting an instruction and then a test emits both.
pub proof fn lemma_emit_before(
    before: Assembler,
    mid: Assembler,
    after: Assembler,
    inst: Instruction,
    test: Code,
    accept: LabelId,
    reject: LabelId,
)
    requires
        mid.items() == before.items().push(plain(inst)),
        mid.labels() == before.labels(),
        mid.next_label() == before.next_label(),
        emitted(mid, after, test, accept, reject),
    ensures
        emitted(before, after, Code::Before(inst, Box::new(test)), accept, reject),
{
    let base = before.items().len() as int;
    let low = before.next_label();
    let code = Code::Before(inst, Box::new(test));
    let inner = embed(slots(test), 1, Exit::Accept, Exit::Reject);
    lemma_embedded(
        mid,
        after,
        test,
        accept,
        reject,
        after,
        low,
        base,
        1,
        accept,
        reject,
        Exit::Accept,
        Exit::Reject,
    );
    assert(kept(before, after)) by {
        assert forall|i: int| 0 <= i < before.items().len() implies #[trigger] after.items()[i]
            == before.items()[i] by {
            assert(mid.items()[i] == before.items()[i]);
        }
    }
    assert forall|i: int| 0 <= i < slots(code).len() implies item_is(
        after,
        low,
        base,
        accept,
        reject,
        after.items()[base + i],
        #[trigger] slots(code)[i],
    ) by {
        if i == 0 {
            assert(after.items()[base] == mid.items()[base]);
        } else {
            assert(slots(code)[i] == inner[i - 1]);
        }
    }
}

/// Emitting a test and then, behind it, a second one for the packets that pass emits a test of
/// both.
pub proof fn lemma_emit_both(
    before: Assembler,
    with_label: Assembler,
    after_first: Assembler,
    with_place: Assembler,
    after: Assembler,
    mid: LabelId,
    first: Code,
    second: Code,
    accept: LabelId,
    reject: LabelId,
)
    requires
        labelled(before, with_label, mid),
        emitted(with_label, after_first, first, mid, reject),
        placed_label(after_first, with_place, mid),
        emitted(with_place, after, second, accept, reject),
    ensures
        emitted(before, after, Code::Both(Box::new(first), Box::new(second)), accept, reject),
{
    let base = before.items().len() as int;
    let low = before.next_label();
    let code = Code::Both(Box::new(first), Box::new(second));
    let at = slots(first).len() as int;
    let one = embed(slots(first), 0, Exit::At(at), Exit::Reject);
    let two = embed(slots(second), at, Exit::Accept, Exit::Reject);
    lemma_chain(before, with_label, after_first, with_place, after, mid, first, second);
    lemma_embedded(
        with_label,
        after_first,
        first,
        mid,
        reject,
        after,
        low,
        base,
        0,
        accept,
        reject,
        Exit::At(at),
        Exit::Reject,
    );
    lemma_embedded(
        with_place,
        after,
        second,
        accept,
        reject,
        after,
        low,
        base,
        at,
        accept,
        reject,
        Exit::Accept,
        Exit::Reject,
    );
    lemma_joined(after, low, base, accept, reject, one, two);
}

/// Emitting a test and then, behind it, a second one for the packets that do not pass emits a
/// test of either.
pub proof fn lemma_emit_either(
    before: Assembler,
    with_label: Assembler,
    after_first: Assembler,
    with_place: Assembler,
    after: Assembler,
    mid: LabelId,
    first: Code,
    second: Code,
    accept: LabelId,
    reject: LabelId,
)
    requires
        labelled(before, with_label, mid),
        emitted(with_label, after_first, first, accept, mid),
        placed_label(after_first, with_place, mid),
        emitted(with_place, after, second, accept, reject),
    ensures
        emitted(before, after, Code::Either(Box::new(first), Box::new(second)), accept, reject),
{
    let base = before.items().len() as int;
    let low = before.next_label();
    let code = Code::Either(Box::new(first), Box::new(second));
    let at = slots(first).len() as int;
    let one = embed(slots(first), 0, Exit::Accept, Exit::At(at));
    let two = embed(slots(second), at, Exit::Accept, Exit::Reject);
    lemma_chain(before, with_label, after_first, with_place, after, mid, first, second);
    lemma_embedded(
        with_label,
        after_first,
        first,
        accept,
        mid,
        after,
        low,
        base,
        0,
        accept,
        reject,
        Exit::Accept,
        Exit::At(at),
    );
    lemma_embedded(
        with_place,
        after,
        second,
        accept,
        reject,
        after,
        low,
        base,
        at,
        accept,
        reject,
        Exit::Accept,
        Exit::Reject,
    );
    lemma_joined(after, low, base, accept, reject, one, two);
}

/// Emitting a test with its exits exchanged emits its negation.
pub proof fn lemma_emit_flip(
    before: Assembler,
    after: Assembler,
    test: Code,
    accept: LabelId,
    reject: LabelId,
)
    requires
        emitted(before, after, test, reject, accept),
    ensures
        emitted(before, after, Code::Flip(Box::new(test)), accept, reject),
{
    lemma_embedded(
        before,
        after,
        test,
        reject,
        accept,
        after,
        before.next_label(),
        before.items().len() as int,
        0,
        accept,
        reject,
        Exit::Reject,
        Exit::Accept,
    );
}

/// Emitting a test and behind it two others, the first of them for the packets that do not pass,
/// emits a choice between them.
pub proof fn lemma_emit_split(
    before: Assembler,
    with_yes: Assembler,
    with_no: Assembler,
    after_test: Assembler,
    no_placed: Assembler,
    after_no: Assembler,
    yes_placed: Assembler,
    after: Assembler,
    yes_label: LabelId,
    no_label: LabelId,
    test: Code,
    yes: Code,
    no: Code,
    accept: LabelId,
    reject: LabelId,
)
    requires
        labelled(before, with_yes, yes_label),
        labelled(with_yes, with_no, no_label),
        emitted(with_no, after_test, test, yes_label, no_label),
        placed_label(after_test, no_placed, no_label),
        emitted(no_placed, after_no, no, accept, reject),
        placed_label(after_no, yes_placed, yes_label),
        emitted(yes_placed, after, yes, accept, reject),
    ensures
        emitted(
            before,
            after,
            Code::Split(Box::new(test), Box::new(yes), Box::new(no)),
            accept,
            reject,
        ),
{
    let base = before.items().len() as int;
    let low = before.next_label();
    let code = Code::Split(Box::new(test), Box::new(yes), Box::new(no));
    let no_at = slots(test).len() as int;
    let yes_at = no_at + slots(no).len();
    let one = embed(slots(test), 0, Exit::At(yes_at), Exit::At(no_at));
    let two = embed(slots(no), no_at, Exit::Accept, Exit::Reject);
    let three = embed(slots(yes), yes_at, Exit::Accept, Exit::Reject);
    assert forall|i: int| 0 <= i < after_test.items().len() implies #[trigger] after.items()[i]
        == after_test.items()[i] by {
        assert(no_placed.items()[i] == after_test.items()[i]);
        assert(after_no.items()[i] == no_placed.items()[i]);
        assert(yes_placed.items()[i] == after_no.items()[i]);
    }
    assert forall|i: int| 0 <= i < before.items().len() implies #[trigger] after.items()[i]
        == before.items()[i] by {
        assert(after_test.items()[i] == with_no.items()[i]);
    }
    assert forall|label: LabelId| label < after_test.next_label() && label != yes_label && label
        != no_label implies (#[trigger] after.labels().contains_key(label)
        == after_test.labels().contains_key(label)) && after.labels()[label]
        == after_test.labels()[label] by {
        assert(yes_placed.labels().contains_key(label) == after_no.labels().contains_key(label));
        assert(after_no.labels().contains_key(label) == no_placed.labels().contains_key(label));
        assert(no_placed.labels().contains_key(label) == after_test.labels().contains_key(label));
    }
    assert forall|label: LabelId| label < before.next_label() implies (
    #[trigger] after.labels().contains_key(label) == before.labels().contains_key(label))
        && after.labels()[label] == before.labels()[label] by {
        assert(after_test.labels().contains_key(label) == with_no.labels().contains_key(label));
    }
    assert(after.labels().contains_key(yes_label) == yes_placed.labels().contains_key(yes_label));
    assert(after.labels().contains_key(no_label) == yes_placed.labels().contains_key(no_label));
    assert(after_no.labels().contains_key(no_label) == no_placed.labels().contains_key(no_label));
    lemma_embedded(
        with_no,
        after_test,
        test,
        yes_label,
        no_label,
        after,
        low,
        base,
        0,
        accept,
        reject,
        Exit::At(yes_at),
        Exit::At(no_at),
    );
    assert forall|label: LabelId|
        no_placed.next_label() <= label < after_no.next_label() implies (
    #[trigger] after.labels().contains_key(label) == after_no.labels().contains_key(label))
        && after.labels()[label] == after_no.labels()[label] by {
        assert(yes_placed.labels().contains_key(label) == after_no.labels().contains_key(label));
    }
    lemma_embedded(
        no_placed,
        after_no,
        no,
        accept,
        reject,
        after,
        low,
        base,
        no_at,
        accept,
        reject,
        Exit::Accept,
        Exit::Reject,
    );
    lemma_embedded(
        yes_placed,
        after,
        yes,
        accept,
        reject,
        after,
        low,
        base,
        yes_at,
        accept,
        reject,
        Exit::Accept,
        Exit::Reject,
    );
    lemma_joined(after, low, base, accept, reject, one, two);
    lemma_joined(after, low, base, accept, reject, one + two, three);
}

proof fn lemma_joined(
    out: Assembler,
    low: LabelId,
    base: int,
    accept: LabelId,
    reject: LabelId,
    one: Seq<Slot>,
    two: Seq<Slot>,
)
    requires
        items_are(out, low, base, accept, reject, base, one),
        items_are(out, low, base, accept, reject, base + one.len(), two),
    ensures
        items_are(out, low, base, accept, reject, base, one + two),
{
    assert forall|i: int| 0 <= i < (one + two).len() implies item_is(
        out,
        low,
        base,
        accept,
        reject,
        out.items()[base + i],
        #[trigger] (one + two)[i],
    ) by {
        if i < one.len() {
            assert((one + two)[i] == one[i]);
        } else {
            assert((one + two)[i] == two[i - one.len()]);
        }
    }
}

/// What stays the same while two tests are emitted with a label between them.
proof fn lemma_chain(
    before: Assembler,
    with_label: Assembler,
    after_first: Assembler,
    with_place: Assembler,
    after: Assembler,
    mid: LabelId,
    first: Code,
    second: Code,
)
    requires
        labelled(before, with_label, mid),
        kept(with_label, after_first),
        after_first.next_label() == with_label.next_label() + label_count(first),
        placed_label(after_first, with_place, mid),
        kept(with_place, after),
        after.next_label() == with_place.next_label() + label_count(second),
    ensures
        kept(before, after),
        forall|i: int|
            0 <= i < after_first.items().len() ==> #[trigger] after.items()[i]
                == after_first.items()[i],
        forall|label: LabelId|
            label < after_first.next_label() && label != mid ==> (
            #[trigger] after.labels().contains_key(label) == after_first.labels().contains_key(
                label,
            )) && after.labels()[label] == after_first.labels()[label],
        after.labels().contains_key(mid),
        after.labels()[mid] == after_first.items().len(),
{
    assert forall|i: int| 0 <= i < after_first.items().len() implies #[trigger] after.items()[i]
        == after_first.items()[i] by {
        assert(with_place.items()[i] == after_first.items()[i]);
    }
    assert forall|i: int| 0 <= i < before.items().len() implies #[trigger] after.items()[i]
        == before.items()[i] by {
        assert(after_first.items()[i] == with_label.items()[i]);
    }
    assert forall|label: LabelId| label < after_first.next_label() && label != mid implies (
    #[trigger] after.labels().contains_key(label) == after_first.labels().contains_key(label))
        && after.labels()[label] == after_first.labels()[label] by {
        assert(with_place.labels().contains_key(label) == after_first.labels().contains_key(label));
    }
    assert forall|label: LabelId| label < before.next_label() implies (
    #[trigger] after.labels().contains_key(label) == before.labels().contains_key(label))
        && after.labels()[label] == before.labels()[label] by {
        assert(after_first.labels().contains_key(label) == with_label.labels().contains_key(label));
    }
    assert(after.labels().contains_key(mid) == with_place.labels().contains_key(mid));
}

} // verus!
