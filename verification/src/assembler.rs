//! Simple CBPF assembler with label support, resolving relative jump offsets.

use std::collections::HashMap;

use vstd::prelude::*;

use crate::types::Instruction;

verus! {

broadcast use vstd::std_specs::hash::group_hash_axioms;

pub type LabelId = usize;

/// An emitted instruction with the labels that its two branches jump to.
pub struct Item {
    pub inst: Instruction,
    pub on_true: Option<LabelId>,
    pub on_false: Option<LabelId>,
}

/// The instruction `inst` that jumps nowhere.
pub open spec fn plain(inst: Instruction) -> Item {
    Item { inst, on_true: None, on_false: None }
}

/// The conditional jump `inst` to one of two labels.
pub open spec fn branch(inst: Instruction, true_label: LabelId, false_label: LabelId) -> Item {
    Item { inst, on_true: Some(true_label), on_false: Some(false_label) }
}

/// The label that the last request for the given branch of instruction `idx` names.
spec fn requested(
    pending: Seq<(usize, bool, LabelId)>,
    idx: int,
    is_jt: bool,
) -> Option<LabelId>
    decreases pending.len(),
{
    if pending.len() == 0 {
        None
    } else if pending.last().0 == idx && pending.last().1 == is_jt {
        Some(pending.last().2)
    } else {
        requested(pending.drop_last(), idx, is_jt)
    }
}

/// Whether a jump from instruction `idx` to `label` has a target that it can reach: the label
/// is placed, behind the instruction, and at most 255 instructions further than the next one.
pub open spec fn reaches(labels: Map<LabelId, usize>, idx: int, label: Option<LabelId>) -> bool {
    label matches Some(label) ==> labels.dom().contains(label) && idx < labels[label] <= idx + 256
}

/// The offset of a jump from instruction `idx`, or `default` for a branch without a label.
pub open spec fn offset(
    labels: Map<LabelId, usize>,
    idx: int,
    label: Option<LabelId>,
    default: u8,
) -> u8 {
    match label {
        Some(label) => (labels[label] - idx - 1) as u8,
        None => default,
    }
}

/// The instruction at `idx` with its labels turned into offsets.
pub open spec fn resolved(labels: Map<LabelId, usize>, idx: int, item: Item) -> Instruction {
    Instruction {
        code: item.inst.code,
        jt: offset(labels, idx, item.on_true, item.inst.jt),
        jf: offset(labels, idx, item.on_false, item.inst.jf),
        k: item.inst.k,
    }
}

#[derive(Debug)]
pub struct Assembler {
    insts: Vec<Instruction>,
    labels: HashMap<LabelId, usize>,
    pending: Vec<(usize, bool, LabelId)>,
    next_label: LabelId,
}

impl Assembler {
    /// The instructions emitted so far.
    pub closed spec fn items(&self) -> Seq<Item> {
        Seq::new(
            self.insts@.len(),
            |i: int|
                Item {
                    inst: self.insts@[i],
                    on_true: requested(self.pending@, i, true),
                    on_false: requested(self.pending@, i, false),
                },
        )
    }

    /// Where each placed label stands.
    pub closed spec fn labels(&self) -> Map<LabelId, usize> {
        self.labels@
    }

    /// The next label to be handed out; all smaller ones are in use.
    pub closed spec fn next_label(&self) -> LabelId {
        self.next_label
    }

    /// Every request belongs to an emitted instruction, and no branch has two.
    pub closed spec fn wf(&self) -> bool {
        &&& forall|i: int|
            0 <= i < self.pending@.len() ==> (#[trigger] self.pending@[i]).0 < self.insts@.len()
        &&& one_request_each(self.pending@)
    }

    /// Whether every jump can be encoded.
    pub open spec fn resolvable(&self) -> bool {
        forall|i: int| 0 <= i < self.items().len() ==> {
            &&& reaches(self.labels(), i, (#[trigger] self.items()[i]).on_true)
            &&& reaches(self.labels(), i, self.items()[i].on_false)
        }
    }

    /// The program with every label turned into an offset.
    pub open spec fn program(&self) -> Seq<Instruction> {
        Seq::new(self.items().len(), |i: int| resolved(self.labels(), i, self.items()[i]))
    }

    /// A program with no instructions and no labels.
    pub fn new() -> (code: Self)
        ensures
            code.wf(),
            code.items() == Seq::<Item>::empty(),
            code.labels() == Map::<LabelId, usize>::empty(),
            code.next_label() == 0,
    {
        let code = Assembler {
            insts: Vec::new(),
            labels: HashMap::new(),
            pending: Vec::new(),
            next_label: 0,
        };
        assert(code.items() =~= Seq::<Item>::empty());
        code
    }

    /// Allocate a new label.
    pub fn new_label(&mut self) -> (label: LabelId)
        requires
            old(self).wf(),
            old(self).next_label() < usize::MAX,
        ensures
            final(self).wf(),
            label == old(self).next_label(),
            final(self).next_label() == label + 1,
            final(self).items() == old(self).items(),
            final(self).labels() == old(self).labels(),
    {
        let id: LabelId = self.next_label;
        self.next_label = self.next_label + 1;
        assert(self.items() =~= old(self).items());
        id
    }

    /// The index of the next instruction.
    pub fn next_index(&self) -> (index: usize)
        ensures
            index == self.items().len(),
    {
        self.insts.len()
    }

    /// Emit an instruction.
    pub fn emit(&mut self, inst: Instruction) -> (index: usize)
        requires
            old(self).wf(),
        ensures
            final(self).wf(),
            index == old(self).items().len(),
            final(self).items() == old(self).items().push(plain(inst)),
            final(self).labels() == old(self).labels(),
            final(self).next_label() == old(self).next_label(),
    {
        let idx: usize = self.insts.len();
        self.insts.push(inst);
        proof {
            lemma_no_request(self.pending@, idx as int, true);
            lemma_no_request(self.pending@, idx as int, false);
            assert(self.items() =~= old(self).items().push(plain(inst)));
        }
        idx
    }

    /// Emit a conditional jump whose true and false branches go to the given labels.
    pub fn emit_jump(
        &mut self,
        inst: Instruction,
        true_label: LabelId,
        false_label: LabelId,
    ) -> (index: usize)
        requires
            old(self).wf(),
        ensures
            final(self).wf(),
            index == old(self).items().len(),
            final(self).items() == old(self).items().push(branch(inst, true_label, false_label)),
            final(self).labels() == old(self).labels(),
            final(self).next_label() == old(self).next_label(),
    {
        let idx: usize = self.insts.len();
        self.pending.push((idx, true, true_label));
        let ghost first = self.pending@;
        self.pending.push((idx, false, false_label));
        self.insts.push(inst);
        proof {
            assert(first.drop_last() =~= old(self).pending@);
            assert(self.pending@.drop_last() =~= first);
            assert forall|i: int, is_jt: bool| i != idx implies #[trigger] requested(
                self.pending@,
                i,
                is_jt,
            ) == requested(old(self).pending@, i, is_jt) by {
                assert(requested(self.pending@, i, is_jt) == requested(first, i, is_jt));
            }
            assert(requested(self.pending@, idx as int, true) == requested(first, idx as int, true));
            assert(self.items() =~= old(self).items().push(branch(inst, true_label, false_label)));
        }
        idx
    }

    /// Bind a label to an instruction index.
    pub fn place_label(&mut self, label: LabelId, index: usize)
        requires
            old(self).wf(),
        ensures
            final(self).wf(),
            final(self).items() == old(self).items(),
            final(self).labels() == old(self).labels().insert(label, index),
            final(self).next_label() == old(self).next_label(),
    {
        self.labels.insert(label, index);
        assert(self.items() =~= old(self).items());
    }

    /// Whether every jump can be encoded.
    pub fn is_resolvable(&self) -> (yes: bool)
        requires
            self.wf(),
        ensures
            yes == self.resolvable(),
    {
        let mut done: usize = 0;
        while done < self.pending.len()
            invariant
                self.wf(),
                0 <= done <= self.pending@.len(),
                forall|j: int|
                    0 <= j < done ==> reaches(
                        self.labels(),
                        (#[trigger] self.pending@[j]).0 as int,
                        Some(self.pending@[j].2),
                    ),
            decreases self.pending@.len() - done,
        {
            let (idx, is_jt, label) = self.pending[done];
            let reachable: bool = match self.labels.get(&label) {
                Some(target) => *target > idx && *target - idx <= 256,
                None => false,
            };
            if !reachable {
                proof {
                    lemma_requested(self.pending@, done as int);
                    assert(!reaches(self.labels(), idx as int, Some(label)));
                    let item = self.items()[idx as int];
                    assert(item.on_true == Some(label) || item.on_false == Some(label));
                }
                return false;
            }
            done = done + 1;
        }
        proof {
            assert forall|i: int, is_jt: bool| 0 <= i < self.insts@.len() implies reaches(
                self.labels(),
                i,
                #[trigger] requested(self.pending@, i, is_jt),
            ) by {
                lemma_request_stands(self.pending@, i, is_jt);
            }
        }
        true
    }

    /// Resolve all label references, turning target indices into relative offsets.
    ///
    /// In CBPF, jt/jf are relative to the next instruction, so offset = target - idx - 1.
    pub fn resolve(self) -> (program: Vec<Instruction>)
        requires
            self.wf(),
            self.resolvable(),
        ensures
            program@ == self.program(),
    {
        let ghost code = self;
        let mut insts: Vec<Instruction> = self.insts;
        let labels: HashMap<LabelId, usize> = self.labels;
        let pending: Vec<(usize, bool, LabelId)> = self.pending;
        let mut done: usize = 0;
        while done < pending.len()
            invariant
                code.wf(),
                code.resolvable(),
                pending@ == code.pending@,
                labels@ == code.labels@,
                0 <= done <= pending@.len(),
                insts@.len() == code.insts@.len(),
                forall|i: int|
                    0 <= i < insts@.len() ==> #[trigger] insts@[i] == resolved(
                        code.labels(),
                        i,
                        Item {
                            inst: code.insts@[i],
                            on_true: requested(pending@.take(done as int), i, true),
                            on_false: requested(pending@.take(done as int), i, false),
                        },
                    ),
            decreases pending@.len() - done,
        {
            let (idx, is_jt, label) = pending[done];
            proof {
                assert(pending@[done as int].0 < code.insts@.len());
                lemma_requested(pending@, done as int);
                assert(reaches(code.labels(), idx as int, code.items()[idx as int].on_true));
                assert(pending@.take(done + 1).drop_last() =~= pending@.take(done as int));
            }
            let target: usize = match labels.get(&label) {
                Some(target) => *target,
                None => 0,
            };
            let distance: u8 = (target - idx - 1) as u8;
            let inst: Instruction = insts[idx];
            if is_jt {
                insts.set(idx, Instruction { jt: distance, ..inst });
            } else {
                insts.set(idx, Instruction { jf: distance, ..inst });
            }
            done = done + 1;
        }
        assert(pending@.take(done as int) =~= pending@);
        assert(insts@ =~= code.program());
        insts
    }
}

/// No branch of an instruction is requested twice.
spec fn one_request_each(pending: Seq<(usize, bool, LabelId)>) -> bool {
    forall|i: int, j: int|
        0 <= i < j < pending.len() ==> (#[trigger] pending[i]).0 != (#[trigger] pending[j]).0
            || pending[i].1 != pending[j].1
}

proof fn lemma_no_request(pending: Seq<(usize, bool, LabelId)>, idx: int, is_jt: bool)
    requires
        forall|i: int| 0 <= i < pending.len() ==> (#[trigger] pending[i]).0 < idx,
    ensures
        requested(pending, idx, is_jt) is None,
    decreases pending.len(),
{
    if pending.len() > 0 {
        lemma_no_request(pending.drop_last(), idx, is_jt);
    }
}

proof fn lemma_requested(pending: Seq<(usize, bool, LabelId)>, at: int)
    requires
        one_request_each(pending),
        0 <= at < pending.len(),
    ensures
        requested(pending, pending[at].0 as int, pending[at].1) == Some(pending[at].2),
    decreases pending.len(),
{
    if at < pending.len() - 1 {
        assert(pending[at].0 != pending[pending.len() - 1].0 || pending[at].1 != pending[pending.len()
            - 1].1);
        lemma_requested(pending.drop_last(), at);
    }
}

/// A requested label stems from a request.
proof fn lemma_request_stands(pending: Seq<(usize, bool, LabelId)>, idx: int, is_jt: bool)
    ensures
        requested(pending, idx, is_jt) matches Some(label) ==> exists|j: int|
            0 <= j < pending.len() && (#[trigger] pending[j]).0 == idx && pending[j].1 == is_jt
                && pending[j].2 == label,
    decreases pending.len(),
{
    if pending.len() > 0 {
        let last = pending[pending.len() - 1];
        if !(last.0 == idx && last.1 == is_jt) {
            let rest = pending.drop_last();
            lemma_request_stands(rest, idx, is_jt);
            if let Some(label) = requested(rest, idx, is_jt) {
                let j = choose|j: int|
                    0 <= j < rest.len() && (#[trigger] rest[j]).0 == idx && rest[j].1 == is_jt
                        && rest[j].2 == label;
                assert(pending[j] == rest[j]);
            }
        }
    }
}

impl Default for Assembler {
    fn default() -> (code: Self)
        ensures
            code.wf(),
            code.items() == Seq::<Item>::empty(),
            code.labels() == Map::<LabelId, usize>::empty(),
            code.next_label() == 0,
    {
        Assembler::new()
    }
}

} // verus!
