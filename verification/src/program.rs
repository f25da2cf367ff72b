//! The instruction store: an append-only arena of instructions, the ordered
//! list of those that are live, and the table of temporary names.
//!
//! Every pass works on the store through the operations of this module, one
//! instruction at a time, so no instruction is ever read and written through
//! two views at once.

use vstd::prelude::*;
use crate::ir::{values_view, InstRef, Value, ValueView};

verus! {

/// An instruction: a destination, an opcode, operands, the instructions
/// recorded as using its result, and its links in the program order.
#[derive(Debug, Clone)]
pub struct Inst {
    prev: Option<InstRef>,
    next: Option<InstRef>,
    live: bool,
    lhs: String,
    op: String,
    args: Vec<Value>,
    use_set: Vec<InstRef>,
}

/// What an instruction is in contracts.
pub struct InstView {
    pub lhs: Seq<char>,
    pub op: Seq<char>,
    pub args: Seq<ValueView>,
    pub use_set: Seq<InstRef>,
}

/// An operand that names an instruction names one of the first `n`.
pub open spec fn value_below(v: ValueView, n: nat) -> bool {
    v matches ValueView::Inst(r) ==> r.0 < n
}

/// Every operand of `args` that names an instruction names one of the first `n`.
pub open spec fn args_below(args: Seq<ValueView>, n: nat) -> bool {
    forall|a: int| 0 <= a < args.len() ==> value_below(#[trigger] args[a], n)
}

/// Every identity in `refs` is one of the first `n`.
pub open spec fn refs_below(refs: Seq<InstRef>, n: nat) -> bool {
    forall|u: int| 0 <= u < refs.len() ==> (#[trigger] refs[u]).0 < n
}

impl InstView {
    /// Every identity that the instruction holds is one of the first `n`.
    pub open spec fn closed_below(self, n: nat) -> bool {
        args_below(self.args, n) && refs_below(self.use_set, n)
    }

    /// The instruction with its destination replaced.
    pub open spec fn with_lhs(self, lhs: Seq<char>) -> InstView {
        InstView { lhs, ..self }
    }

    /// The instruction with its opcode replaced.
    pub open spec fn with_op(self, op: Seq<char>) -> InstView {
        InstView { op, ..self }
    }

    /// The instruction with its operands replaced.
    pub open spec fn with_args(self, args: Seq<ValueView>) -> InstView {
        InstView { args, ..self }
    }

    /// The instruction with its recorded uses replaced.
    pub open spec fn with_uses(self, use_set: Seq<InstRef>) -> InstView {
        InstView { use_set, ..self }
    }
}

impl View for Inst {
    type V = InstView;

    closed spec fn view(&self) -> InstView {
        InstView {
            lhs: self.lhs@,
            op: self.op@,
            args: values_view(self.args@),
            use_set: self.use_set@,
        }
    }
}

impl Inst {
    /// Whether the instruction stands outside every program: it has no links.
    pub closed spec fn detached(&self) -> bool {
        self.prev is None && self.next is None && !self.live
    }

    /// A new instruction with no links and no recorded uses.
    pub fn new(lhs: String, op: String, args: Vec<Value>) -> (r: Inst)
        ensures
            r.detached(),
            r@ == (InstView {
                lhs: lhs@,
                op: op@,
                args: values_view(args@),
                use_set: Seq::empty(),
            }),
    {
        Inst { prev: None, next: None, live: false, lhs, op, args, use_set: Vec::new() }
    }

    /// The destination name.
    pub fn lhs(&self) -> (r: &String)
        ensures
            r@ == self@.lhs,
    {
        &self.lhs
    }

    /// The opcode mnemonic.
    pub fn op(&self) -> (r: &String)
        ensures
            r@ == self@.op,
    {
        &self.op
    }

    /// The operands, in order.
    pub fn args(&self) -> (r: &Vec<Value>)
        ensures
            values_view(r@) == self@.args,
    {
        &self.args
    }

    /// The instructions recorded as using the result.
    pub fn use_set(&self) -> (r: &Vec<InstRef>)
        ensures
            r@ == self@.use_set,
    {
        &self.use_set
    }
}

/// What a program is in contracts: the arena, the identities of the live
/// instructions in program order, and the bindings of temporary names, oldest
/// first.
pub struct ProgramView {
    pub insts: Seq<InstView>,
    pub order: Seq<InstRef>,
    pub regs: Seq<(Seq<char>, InstRef)>,
}

/// The instruction that `name` is bound to: the one of its latest binding.
pub open spec fn lookup_reg(regs: Seq<(Seq<char>, InstRef)>, name: Seq<char>) -> Option<InstRef>
    decreases regs.len(),
{
    if regs.len() == 0 {
        None
    } else if regs.last().0 == name {
        Some(regs.last().1)
    } else {
        lookup_reg(regs.drop_last(), name)
    }
}

impl ProgramView {
    /// The program without instructions.
    pub open spec fn empty() -> ProgramView {
        ProgramView { insts: Seq::empty(), order: Seq::empty(), regs: Seq::empty() }
    }

    /// The live list names each instruction at most once, and every identity
    /// held anywhere names an instruction of the arena.
    pub open spec fn wf(self) -> bool {
        &&& self.order.no_duplicates()
        &&& refs_below(self.order, self.insts.len())
        &&& forall|i: int|
            0 <= i < self.insts.len() ==> (#[trigger] self.insts[i]).closed_below(self.insts.len())
        &&& forall|b: int| 0 <= b < self.regs.len() ==> (#[trigger] self.regs[b]).1.0 < self.insts.len()
    }

    /// Whether `r` names an instruction of the arena.
    pub open spec fn has(self, r: InstRef) -> bool {
        r.0 < self.insts.len()
    }

    /// Whether `r` is in the live list.
    pub open spec fn live(self, r: InstRef) -> bool {
        self.order.contains(r)
    }

    /// The instruction that `r` names.
    pub open spec fn inst(self, r: InstRef) -> InstView {
        self.insts[r.0 as int]
    }

    /// The instruction after `r` in program order, if `r` is live and not last.
    pub open spec fn successor(self, r: InstRef) -> Option<InstRef> {
        if self.live(r) && self.order.index_of(r) + 1 < self.order.len() {
            Some(self.order[self.order.index_of(r) + 1])
        } else {
            None
        }
    }

    /// In a list without repeats, the successor of the instruction at
    /// position `j` is the one at position `j + 1`.
    pub proof fn lemma_successor_at(self, j: int)
        requires
            self.order.no_duplicates(),
            0 <= j < self.order.len(),
        ensures
            self.live(self.order[j]),
            self.order.index_of(self.order[j]) == j,
            self.successor(self.order[j]) == (if j + 1 < self.order.len() {
                Some(self.order[j + 1])
            } else {
                None
            }),
    {
        let r = self.order[j];
        assert(self.order.contains(r));
        let i = self.order.index_of(r);
        assert(self.order[i] == r);
    }

    /// Taking out the instruction at position `m` removes that position and
    /// leaves what follows it as it was.
    pub proof fn lemma_unlink_at(self, m: int)
        requires
            self.order.no_duplicates(),
            0 <= m < self.order.len(),
        ensures
            self.unlink(self.order[m]).order == self.order.remove(m),
            self.order.remove(m).skip(m) == self.order.skip(m + 1),
            self.order.remove(m).no_duplicates(),
            !self.order.remove(m).contains(self.order[m]),
    {
        self.lemma_successor_at(m);
        let rest = self.order.remove(m);
        assert(rest.skip(m) =~= self.order.skip(m + 1));
        assert forall|j: int| 0 <= j < rest.len() implies #[trigger] rest[j] == (if j < m {
            self.order[j]
        } else {
            self.order[j + 1]
        }) by {}
        if rest.contains(self.order[m]) {
            let j = rest.index_of(self.order[m]);
            assert(rest[j] == self.order[m]);
        }
    }

    /// The program whose first `k` live instructions are those of `goal` and
    /// whose other instructions are its own.
    pub open spec fn mapped_upto(self, goal: ProgramView, k: int) -> ProgramView {
        ProgramView {
            insts: Seq::new(
                self.insts.len(),
                |i: int|
                    if self.order.take(k).contains(InstRef(i as usize)) {
                        goal.insts[i]
                    } else {
                        self.insts[i]
                    },
            ),
            ..self
        }
    }

    /// Whether `goal` differs from this program in live instructions only.
    pub open spec fn maps_to(self, goal: ProgramView) -> bool {
        &&& goal.order == self.order
        &&& goal.regs == self.regs
        &&& goal.insts.len() == self.insts.len()
        &&& forall|i: int|
            0 <= i < self.insts.len() && !self.live(InstRef(i as usize)) ==> goal.insts[i]
                == self.insts[i]
    }

    /// Mapping no instruction changes nothing, and mapping all of them gives
    /// the goal.
    pub proof fn lemma_mapped_ends(self, goal: ProgramView)
        requires
            self.maps_to(goal),
        ensures
            self.mapped_upto(goal, 0) == self,
            self.mapped_upto(goal, self.order.len() as int) == goal,
    {
        assert(self.mapped_upto(goal, 0).insts =~= self.insts);
        assert(self.order.take(self.order.len() as int) =~= self.order);
        assert(self.mapped_upto(goal, self.order.len() as int).insts =~= goal.insts);
    }

    /// Mapping one more instruction replaces that instruction.
    pub proof fn lemma_mapped_step(self, goal: ProgramView, k: int)
        requires
            self.wf(),
            self.insts.len() <= usize::MAX,
            0 <= k < self.order.len(),
        ensures
            self.mapped_upto(goal, k + 1) == self.mapped_upto(goal, k).with_inst(
                self.order[k],
                goal.inst(self.order[k]),
            ),
            self.mapped_upto(goal, k).inst(self.order[k]) == self.inst(self.order[k]),
    {
        let node = self.order[k];
        let shorter = self.order.take(k);
        let longer = self.order.take(k + 1);
        assert(longer =~= shorter.push(node));
        if shorter.contains(node) {
            let j = shorter.index_of(node);
            assert(self.order[j] == node);
        }
        assert forall|x: InstRef| #[trigger] longer.contains(x) <==> (shorter.contains(x) || x
            == node) by {
            if shorter.contains(x) {
                let j = shorter.index_of(x);
                assert(longer[j] == x);
            }
            if x == node {
                assert(longer[k] == x);
            }
            if longer.contains(x) && x != node {
                let j = longer.index_of(x);
                assert(longer[j] == x);
                assert(shorter[j] == x);
            }
        }
        assert(self.mapped_upto(goal, k + 1).insts =~= self.mapped_upto(goal, k).with_inst(
            node,
            goal.inst(node),
        ).insts);
    }

    /// Whether this program is `before` with instructions rewritten or
    /// unlinked, and nothing else: the arena has the same slots, the names
    /// are bound as they were, and no instruction is live that was not.
    pub open spec fn thinned_from(self, before: ProgramView) -> bool {
        &&& self.insts.len() == before.insts.len()
        &&& self.regs == before.regs
        &&& forall|r: InstRef| #[trigger] self.order.contains(r) ==> before.order.contains(r)
    }

    /// Unlinking makes no instruction live.
    pub proof fn lemma_unlink_thins(self, r: InstRef)
        ensures
            self.unlink(r).thinned_from(self),
    {
        let after = self.unlink(r);
        assert forall|x: InstRef| #[trigger] after.order.contains(x) implies self.order.contains(
            x,
        ) by {
            if self.live(r) {
                let at = self.order.index_of(r);
                let j = after.order.index_of(x);
                assert(after.order[j] == x);
                if j < at {
                    assert(self.order[j] == x);
                } else {
                    assert(self.order[j + 1] == x);
                }
            }
        }
    }

    /// The first live instruction.
    pub open spec fn first(self) -> Option<InstRef> {
        if self.order.len() > 0 {
            Some(self.order[0])
        } else {
            None
        }
    }

    /// The program with the instruction that `r` names replaced.
    pub open spec fn with_inst(self, r: InstRef, inst: InstView) -> ProgramView {
        ProgramView { insts: self.insts.update(r.0 as int, inst), ..self }
    }

    /// The program with the destination of `r` replaced.
    pub open spec fn with_lhs(self, r: InstRef, lhs: Seq<char>) -> ProgramView {
        self.with_inst(r, self.inst(r).with_lhs(lhs))
    }

    /// The program with the opcode of `r` replaced.
    pub open spec fn with_op(self, r: InstRef, op: Seq<char>) -> ProgramView {
        self.with_inst(r, self.inst(r).with_op(op))
    }

    /// The program with the operands of `r` replaced.
    pub open spec fn with_args(self, r: InstRef, args: Seq<ValueView>) -> ProgramView {
        self.with_inst(r, self.inst(r).with_args(args))
    }

    /// The program with the recorded uses of `r` replaced.
    pub open spec fn with_uses(self, r: InstRef, use_set: Seq<InstRef>) -> ProgramView {
        self.with_inst(r, self.inst(r).with_uses(use_set))
    }

    /// The program with `r` taken out of the live list. The arena keeps the
    /// instruction; taking out one that is not live changes nothing.
    pub open spec fn unlink(self, r: InstRef) -> ProgramView {
        if self.live(r) {
            ProgramView { order: self.order.remove(self.order.index_of(r)), ..self }
        } else {
            self
        }
    }

    /// The program with `inst` added to the arena and put last.
    pub open spec fn append(self, inst: InstView) -> ProgramView {
        ProgramView {
            insts: self.insts.push(inst),
            order: self.order.push(InstRef(self.insts.len() as usize)),
            ..self
        }
    }

    /// The program with `inst` added to the arena and put first.
    pub open spec fn prepend(self, inst: InstView) -> ProgramView {
        ProgramView {
            insts: self.insts.push(inst),
            order: seq![InstRef(self.insts.len() as usize)] + self.order,
            ..self
        }
    }

    /// The program with `name` bound to `r` from now on.
    pub open spec fn bind(self, name: Seq<char>, r: InstRef) -> ProgramView {
        ProgramView { regs: self.regs.push((name, r)), ..self }
    }
}

/// A program: every instruction ever created, the live ones in order, and the
/// table from temporary names to the instruction that last defined each.
pub struct Program {
    insts: Vec<Inst>,
    head: Option<InstRef>,
    tail: Option<InstRef>,
    reg_map: Vec<(String, InstRef)>,
    order: Ghost<Seq<InstRef>>,
}

impl View for Program {
    type V = ProgramView;

    closed spec fn view(&self) -> ProgramView {
        ProgramView {
            insts: self.insts@.map_values(|i: Inst| i@),
            order: self.order@,
            regs: self.reg_map@.map_values(|b: (String, InstRef)| (b.0@, b.1)),
        }
    }
}

/// The links of `insts` run through `order`, from `head` to `tail`, and the
/// live marks are those of the instructions in `order`.
spec fn links_follow(
    insts: Seq<Inst>,
    order: Seq<InstRef>,
    head: Option<InstRef>,
    tail: Option<InstRef>,
) -> bool {
    &&& head == (if order.len() > 0 {
        Some(order[0])
    } else {
        None
    })
    &&& tail == (if order.len() > 0 {
        Some(order.last())
    } else {
        None
    })
    &&& forall|k: int|
        0 <= k < order.len() ==> (#[trigger] insts[order[k].0 as int]).next == (if k + 1
            < order.len() {
            Some(order[k + 1])
        } else {
            None
        })
    &&& forall|k: int|
        0 <= k < order.len() ==> (#[trigger] insts[order[k].0 as int]).prev == (if k > 0 {
            Some(order[k - 1])
        } else {
            None
        })
    &&& forall|i: int|
        0 <= i < insts.len() ==> ((#[trigger] insts[i]).live <==> order.contains(
            InstRef(i as usize),
        ))
}

/// Taking position `k` out of the list and joining its neighbours keeps the
/// links sound.
proof fn lemma_removed_links(
    before: Seq<Inst>,
    after: Seq<Inst>,
    order: Seq<InstRef>,
    k: int,
    head: Option<InstRef>,
    tail: Option<InstRef>,
)
    requires
        0 <= k < order.len(),
        order.no_duplicates(),
        refs_below(order, before.len()),
        before.len() <= usize::MAX,
        after.len() == before.len(),
        forall|k: int|
            0 <= k < order.len() ==> (#[trigger] before[order[k].0 as int]).next == (if k + 1
                < order.len() {
                Some(order[k + 1])
            } else {
                None
            }),
        forall|k: int|
            0 <= k < order.len() ==> (#[trigger] before[order[k].0 as int]).prev == (if k > 0 {
                Some(order[k - 1])
            } else {
                None
            }),
        forall|i: int|
            0 <= i < before.len() ==> ((#[trigger] before[i]).live <==> order.contains(
                InstRef(i as usize),
            )),
        head == (if k == 0 {
            before[order[k].0 as int].next
        } else {
            Some(order[0])
        }),
        tail == (if k == order.len() - 1 {
            before[order[k].0 as int].prev
        } else {
            Some(order.last())
        }),
        forall|i: int|
            0 <= i < after.len() ==> (#[trigger] after[i]).live == (before[i].live && i
                != order[k].0),
        forall|i: int|
            0 <= i < after.len() ==> (#[trigger] after[i]).next == (if k > 0 && i == order[k
                - 1].0 {
                before[order[k].0 as int].next
            } else {
                before[i].next
            }),
        forall|i: int|
            0 <= i < after.len() ==> (#[trigger] after[i]).prev == (if k + 1 < order.len() && i
                == order[k + 1].0 {
                before[order[k].0 as int].prev
            } else {
                before[i].prev
            }),
    ensures
        links_follow(after, order.remove(k), head, tail),
        order.remove(k).no_duplicates(),
        refs_below(order.remove(k), after.len()),
{
    let rest = order.remove(k);
    let r = order[k];
    assert forall|j: int| 0 <= j < rest.len() implies #[trigger] rest[j] == (if j < k {
        order[j]
    } else {
        order[j + 1]
    }) by {}
    assert(rest.no_duplicates());
    assert forall|j: int| 0 <= j < rest.len() implies (#[trigger] after[rest[j].0 as int]).next
        == (if j + 1 < rest.len() {
        Some(rest[j + 1])
    } else {
        None
    }) by {
        let oj = if j < k {
            j
        } else {
            j + 1
        };
        assert(rest[j] == order[oj]);
        assert(before[order[oj].0 as int].next == (if oj + 1 < order.len() {
            Some(order[oj + 1])
        } else {
            None
        }));
        assert(before[order[k].0 as int].next == (if k + 1 < order.len() {
            Some(order[k + 1])
        } else {
            None
        }));
        if k > 0 && oj != k - 1 {
            assert(order[oj] != order[k - 1]);
        }
    }
    assert forall|j: int| 0 <= j < rest.len() implies (#[trigger] after[rest[j].0 as int]).prev
        == (if j > 0 {
        Some(rest[j - 1])
    } else {
        None
    }) by {
        let oj = if j < k {
            j
        } else {
            j + 1
        };
        assert(rest[j] == order[oj]);
        assert(before[order[oj].0 as int].prev == (if oj > 0 {
            Some(order[oj - 1])
        } else {
            None
        }));
        assert(before[order[k].0 as int].prev == (if k > 0 {
            Some(order[k - 1])
        } else {
            None
        }));
        if k + 1 < order.len() && oj != k + 1 {
            assert(order[oj] != order[k + 1]);
        }
    }
    assert forall|i: int| 0 <= i < after.len() implies ((#[trigger] after[i]).live
        <==> rest.contains(InstRef(i as usize))) by {
        let x = InstRef(i as usize);
        if order.contains(x) && x != r {
            let j = order.index_of(x);
            assert(order[j] == x);
            if j < k {
                assert(rest[j] == x);
            } else {
                assert(rest[j - 1] == x);
            }
        }
        if rest.contains(x) {
            let j = rest.index_of(x);
            assert(rest[j] == x);
            if j < k {
                assert(order[j] == x);
            } else {
                assert(order[j + 1] == x);
            }
        }
    }
    assert(before[order[k].0 as int].next == (if k + 1 < order.len() {
        Some(order[k + 1])
    } else {
        None
    }));
    assert(before[order[k].0 as int].prev == (if k > 0 {
        Some(order[k - 1])
    } else {
        None
    }));
}

impl Program {
    /// The links agree with the live list.
    spec fn linked(&self) -> bool {
        links_follow(self.insts@, self.order@, self.head, self.tail)
    }

    /// The representation is sound: head and tail are both empty exactly when
    /// no instruction is live, the links run through the live instructions in
    /// order, and every identity held anywhere names an arena slot.
    pub closed spec fn inv(&self) -> bool {
        &&& self@.wf()
        &&& self.order@.len() <= self.insts.len()
        &&& self.linked()
    }

    /// A sound program has a well-formed view, and its arena is one that
    /// the machine can index.
    pub proof fn lemma_inv_wf(&self)
        requires
            self.inv(),
        ensures
            self@.wf(),
            self@.order.len() <= self@.insts.len(),
            self@.insts.len() <= usize::MAX,
    {
        assert(self@.insts.len() == self.insts.len());
    }

    /// The empty program.
    pub fn new() -> (r: Self)
        ensures
            r.inv(),
            r@ == ProgramView::empty(),
    {
        let r = Program {
            insts: Vec::new(),
            head: None,
            tail: None,
            reg_map: Vec::new(),
            order: Ghost(Seq::empty()),
        };
        assert(r@.insts =~= ProgramView::empty().insts);
        assert(r@.regs =~= ProgramView::empty().regs);
        r
    }

    /// The number of instructions ever created.
    pub fn arena_len(&self) -> (n: usize)
        ensures
            n == self@.insts.len(),
    {
        self.insts.len()
    }

    /// The instruction that `r` names.
    pub fn get_inst(&self, r: InstRef) -> (inst: &Inst)
        requires
            self@.has(r),
        ensures
            inst@ == self@.inst(r),
    {
        &self.insts[r.0]
    }

    /// Whether `r` is in the live list.
    pub fn is_live(&self, r: InstRef) -> (b: bool)
        requires
            self.inv(),
            self@.has(r),
        ensures
            b == self@.live(r),
    {
        self.insts[r.0].live
    }

    /// The first live instruction.
    pub fn first(&self) -> (r: Option<InstRef>)
        requires
            self.inv(),
        ensures
            r == self@.first(),
    {
        self.head
    }

    /// The live instruction after `r`.
    pub fn next_of(&self, r: InstRef) -> (n: Option<InstRef>)
        requires
            self.inv(),
            self@.live(r),
        ensures
            n == self@.successor(r),
    {
        proof {
            let k = self.order@.index_of(r);
            assert(self.order@[k] == r);
        }
        self.insts[r.0].next
    }

    /// Adds `inst` to the arena and puts it last in program order.
    pub fn insert_tail(&mut self, inst: Inst) -> (r: InstRef)
        requires
            old(self).inv(),
            inst.detached(),
            inst@.closed_below(old(self)@.insts.len() + 1),
        ensures
            final(self).inv(),
            r.0 == old(self)@.insts.len(),
            final(self)@ == old(self)@.append(inst@),
    {
        let r = InstRef(self.insts.len());
        let ghost old_order = self.order@;
        let ghost old_view = self@;
        let mut inst = inst;
        inst.live = true;
        inst.prev = self.tail;
        self.insts.push(inst);
        match self.tail {
            Some(tail) => {
                assert(old_order.last() == tail);
                self.insts[tail.0].next = Some(r);
            },
            None => {
                self.head = Some(r);
            },
        }
        self.tail = Some(r);
        proof {
            self.order@ = old_order.push(r);
            assert(self@.insts =~= old_view.insts.push(inst@));
            assert(self@.regs =~= old_view.regs);
            assert forall|i: int| 0 <= i < self.insts.len() implies ((#[trigger] self.insts[i]).live
                <==> self.order@.contains(InstRef(i as usize))) by {
                let x = InstRef(i as usize);
                if old_order.contains(x) {
                    let k = old_order.index_of(x);
                    assert(self.order@[k] == x);
                }
                if i == r.0 {
                    assert(self.order@[old_order.len() as int] == r);
                }
                if self.order@.contains(x) && x != r {
                    let k = self.order@.index_of(x);
                    assert(old_order[k] == x);
                }
            }
            assert(self.order@.no_duplicates());
        }
        r
    }

    /// Adds `inst` to the arena and puts it first in program order.
    pub fn insert_head(&mut self, inst: Inst) -> (r: InstRef)
        requires
            old(self).inv(),
            inst.detached(),
            inst@.closed_below(old(self)@.insts.len() + 1),
        ensures
            final(self).inv(),
            r.0 == old(self)@.insts.len(),
            final(self)@ == old(self)@.prepend(inst@),
    {
        let r = InstRef(self.insts.len());
        let ghost old_order = self.order@;
        let ghost old_view = self@;
        let mut inst = inst;
        inst.live = true;
        inst.next = self.head;
        self.insts.push(inst);
        match self.head {
            Some(head) => {
                assert(old_order[0] == head);
                self.insts[head.0].prev = Some(r);
            },
            None => {
                self.tail = Some(r);
            },
        }
        self.head = Some(r);
        proof {
            self.order@ = seq![r] + old_order;
            assert(self@.insts =~= old_view.insts.push(inst@));
            assert(self@.regs =~= old_view.regs);
            assert forall|k: int| 0 < k < self.order@.len() implies #[trigger] self.order@[k]
                == old_order[k - 1] by {}
            assert forall|i: int| 0 <= i < self.insts.len() implies ((#[trigger] self.insts[i]).live
                <==> self.order@.contains(InstRef(i as usize))) by {
                if old_order.contains(InstRef(i as usize)) {
                    let k = old_order.index_of(InstRef(i as usize));
                    assert(self.order@[k + 1] == InstRef(i as usize));
                }
                if i == r.0 {
                    assert(self.order@[0] == r);
                }
            }
            assert(self.order@.no_duplicates());
        }
        r
    }

    /// Takes `r` out of the live list. The arena keeps the instruction, and
    /// its identity is never given out again.
    pub fn remove_inst(&mut self, r: InstRef)
        requires
            old(self).inv(),
            old(self)@.has(r),
        ensures
            final(self).inv(),
            final(self)@ == old(self)@.unlink(r),
    {
        if !self.insts[r.0].live {
            return ;
        }
        let ghost old_order = self.order@;
        let ghost old_view = self@;
        let ghost old_insts = self.insts@;
        let ghost k = old_order.index_of(r);
        assert(old_order[k] == r);
        let prev = self.insts[r.0].prev;
        let next = self.insts[r.0].next;
        assert(next == (if k + 1 < old_order.len() {
            Some(old_order[k + 1])
        } else {
            None
        }));
        assert(prev == (if k > 0 {
            Some(old_order[k - 1])
        } else {
            None
        }));
        if let Some(n) = next {
            self.insts[n.0].prev = prev;
        }
        if let Some(p) = prev {
            self.insts[p.0].next = next;
        }
        if self.head == Some(r) {
            self.head = next;
        }
        if self.tail == Some(r) {
            self.tail = prev;
        }
        self.insts[r.0].live = false;
        proof {
            self.order@ = old_order.remove(k);
            let order = self.order@;
            assert(self.insts.len() == old_insts.len());
            assert forall|i: int| 0 <= i < self.insts.len() implies (#[trigger] self.insts[i])@
                == old_insts[i]@ by {}
            assert(self@.insts =~= old_view.insts);
            assert(self@.regs =~= old_view.regs);
            assert forall|i: int| 0 <= i < self.insts.len() implies (#[trigger] self.insts[i]).live
                == (old_insts[i].live && i != r.0) by {}
            assert forall|i: int| 0 <= i < self.insts.len() implies (#[trigger] self.insts[i]).next
                == (if k > 0 && i == old_order[k - 1].0 {
                next
            } else {
                old_insts[i].next
            }) by {}
            assert forall|i: int| 0 <= i < self.insts.len() implies (#[trigger] self.insts[i]).prev
                == (if k + 1 < old_order.len() && i == old_order[k + 1].0 {
                prev
            } else {
                old_insts[i].prev
            }) by {}
            lemma_removed_links(old_insts, self.insts@, old_order, k, self.head, self.tail);
        }
    }

    /// The live instructions, in program order.
    pub fn live_order(&self) -> (live: Vec<InstRef>)
        requires
            self.inv(),
        ensures
            live@ == self@.order,
    {
        let mut live: Vec<InstRef> = Vec::new();
        let mut node_opt = self.head;
        assert(live@ =~= self.order@.take(0));
        while node_opt.is_some()
            invariant
                self.inv(),
                live.len() <= self.order@.len(),
                live@ == self.order@.take(live.len() as int),
                node_opt == (if live.len() < self.order@.len() {
                    Some(self.order@[live.len() as int])
                } else {
                    None
                }),
            decreases self.order@.len() - live.len(),
        {
            let node = node_opt.unwrap();
            let ghost before = live@;
            node_opt = self.insts[node.0].next;
            live.push(node);
            assert(live@ =~= self.order@.take(live.len() as int));
        }
        assert(self.order@.take(self.order@.len() as int) =~= self.order@);
        live
    }

    /// The number of live instructions.
    pub fn instructions(&self) -> (n: usize)
        requires
            self.inv(),
        ensures
            n == self@.order.len(),
    {
        let mut res: usize = 0;
        let mut node_opt = self.head;
        while node_opt.is_some()
            invariant
                self.inv(),
                res <= self.order@.len(),
                node_opt == (if res < self.order@.len() {
                    Some(self.order@[res as int])
                } else {
                    None
                }),
            decreases self.order@.len() - res,
        {
            let node = node_opt.unwrap();
            node_opt = self.insts[node.0].next;
            res += 1;
        }
        res
    }

    /// Renames the destination of `r`.
    pub fn set_lhs(&mut self, r: InstRef, lhs: String)
        requires
            old(self).inv(),
            old(self)@.has(r),
        ensures
            final(self).inv(),
            final(self)@ == old(self)@.with_lhs(r, lhs@),
    {
        let ghost new_view = self@.with_lhs(r, lhs@);
        self.insts[r.0].lhs = lhs;
        assert(self@.insts =~= new_view.insts);
        assert(self@.regs =~= new_view.regs);
    }

    /// Replaces the opcode of `r`.
    pub fn set_op(&mut self, r: InstRef, op: String)
        requires
            old(self).inv(),
            old(self)@.has(r),
        ensures
            final(self).inv(),
            final(self)@ == old(self)@.with_op(r, op@),
    {
        let ghost new_view = self@.with_op(r, op@);
        self.insts[r.0].op = op;
        assert(self@.insts =~= new_view.insts);
        assert(self@.regs =~= new_view.regs);
    }

    /// Replaces the operands of `r`.
    pub fn set_args(&mut self, r: InstRef, args: Vec<Value>)
        requires
            old(self).inv(),
            old(self)@.has(r),
            args_below(values_view(args@), old(self)@.insts.len()),
        ensures
            final(self).inv(),
            final(self)@ == old(self)@.with_args(r, values_view(args@)),
    {
        let ghost new_view = self@.with_args(r, values_view(args@));
        self.insts[r.0].args = args;
        assert(self@.insts =~= new_view.insts);
        assert(self@.regs =~= new_view.regs);
    }

    /// Replaces operand `i` of `r`.
    pub fn set_arg(&mut self, r: InstRef, i: usize, v: Value)
        requires
            old(self).inv(),
            old(self)@.has(r),
            i < old(self)@.inst(r).args.len(),
            value_below(v@, old(self)@.insts.len()),
        ensures
            final(self).inv(),
            final(self)@ == old(self)@.with_args(r, old(self)@.inst(r).args.update(i as int, v@)),
    {
        let ghost new_view = self@.with_args(r, self@.inst(r).args.update(i as int, v@));
        self.insts[r.0].args[i] = v;
        assert(values_view(self.insts[r.0 as int].args@) =~= new_view.inst(r).args);
        assert(self@.insts =~= new_view.insts);
        assert(self@.regs =~= new_view.regs);
    }

    /// Takes operand `i` of `r` out of its operand list.
    pub fn remove_arg(&mut self, r: InstRef, i: usize)
        requires
            old(self).inv(),
            old(self)@.has(r),
            i < old(self)@.inst(r).args.len(),
        ensures
            final(self).inv(),
            final(self)@ == old(self)@.with_args(r, old(self)@.inst(r).args.remove(i as int)),
    {
        let ghost new_view = self@.with_args(r, self@.inst(r).args.remove(i as int));
        let _ = self.insts[r.0].args.remove(i);
        assert(values_view(self.insts[r.0 as int].args@) =~= new_view.inst(r).args);
        assert(self@.insts =~= new_view.insts);
        assert(self@.regs =~= new_view.regs);
    }

    /// Puts `v` before operand `i` of `r`.
    pub fn insert_arg(&mut self, r: InstRef, i: usize, v: Value)
        requires
            old(self).inv(),
            old(self)@.has(r),
            i <= old(self)@.inst(r).args.len(),
            value_below(v@, old(self)@.insts.len()),
        ensures
            final(self).inv(),
            final(self)@ == old(self)@.with_args(r, old(self)@.inst(r).args.insert(i as int, v@)),
    {
        let ghost new_view = self@.with_args(r, self@.inst(r).args.insert(i as int, v@));
        self.insts[r.0].args.insert(i, v);
        assert(values_view(self.insts[r.0 as int].args@) =~= new_view.inst(r).args);
        assert(self@.insts =~= new_view.insts);
        assert(self@.regs =~= new_view.regs);
    }

    /// Records `user` as one more use of `r`.
    pub fn push_use(&mut self, r: InstRef, user: InstRef)
        requires
            old(self).inv(),
            old(self)@.has(r),
            old(self)@.has(user),
        ensures
            final(self).inv(),
            final(self)@ == old(self)@.with_uses(r, old(self)@.inst(r).use_set.push(user)),
    {
        let ghost new_view = self@.with_uses(r, self@.inst(r).use_set.push(user));
        self.insts[r.0].use_set.push(user);
        assert(self@.insts =~= new_view.insts);
        assert(self@.regs =~= new_view.regs);
    }

    /// Replaces recorded use `i` of `r` by `user`.
    pub fn set_use(&mut self, r: InstRef, i: usize, user: InstRef)
        requires
            old(self).inv(),
            old(self)@.has(r),
            old(self)@.has(user),
            i < old(self)@.inst(r).use_set.len(),
        ensures
            final(self).inv(),
            final(self)@ == old(self)@.with_uses(
                r,
                old(self)@.inst(r).use_set.update(i as int, user),
            ),
    {
        let ghost new_view = self@.with_uses(r, self@.inst(r).use_set.update(i as int, user));
        self.insts[r.0].use_set[i] = user;
        assert(self@.insts =~= new_view.insts);
        assert(self@.regs =~= new_view.regs);
    }

    /// Forgets the recorded uses of `r`.
    pub fn clear_uses(&mut self, r: InstRef)
        requires
            old(self).inv(),
            old(self)@.has(r),
        ensures
            final(self).inv(),
            final(self)@ == old(self)@.with_uses(r, Seq::empty()),
    {
        let ghost new_view = self@.with_uses(r, Seq::empty());
        self.insts[r.0].use_set.clear();
        assert(self@.insts =~= new_view.insts);
        assert(self@.regs =~= new_view.regs);
    }

    /// Binds the temporary name `name` to `r` for later references.
    pub fn bind_temp(&mut self, name: String, r: InstRef)
        requires
            old(self).inv(),
            old(self)@.has(r),
        ensures
            final(self).inv(),
            final(self)@ == old(self)@.bind(name@, r),
    {
        let ghost new_view = self@.bind(name@, r);
        self.reg_map.push((name, r));
        assert(self@.insts =~= new_view.insts);
        assert(self@.regs =~= new_view.regs);
    }

    /// The instruction that last defined the temporary `name`.
    pub fn lookup_temp(&self, name: &String) -> (r: Option<InstRef>)
        requires
            self.inv(),
        ensures
            r == lookup_reg(self@.regs, name@),
            r matches Some(i) ==> self@.has(i),
    {
        let mut n: usize = self.reg_map.len();
        assert(self@.regs.take(n as int) =~= self@.regs);
        while n > 0
            invariant
                self.inv(),
                n <= self.reg_map.len(),
                lookup_reg(self@.regs, name@) == lookup_reg(self@.regs.take(n as int), name@),
            decreases n,
        {
            let ghost prefix = self@.regs.take(n as int);
            assert(prefix.last() == self@.regs[n - 1]);
            assert(prefix.drop_last() =~= self@.regs.take(n - 1));
            if self.reg_map[n - 1].0 == *name {
                return Some(self.reg_map[n - 1].1);
            }
            n -= 1;
        }
        None
    }

    /// The number of operands of `r`.
    pub fn args_len(&self, r: InstRef) -> (n: usize)
        requires
            self@.has(r),
        ensures
            n == self@.inst(r).args.len(),
    {
        self.insts[r.0].args.len()
    }

    /// Operand `i` of `r`.
    pub fn arg(&self, r: InstRef, i: usize) -> (v: &Value)
        requires
            self@.has(r),
            i < self@.inst(r).args.len(),
        ensures
            v@ == self@.inst(r).args[i as int],
    {
        &self.insts[r.0].args[i]
    }

    /// The number of recorded uses of `r`.
    pub fn uses_len(&self, r: InstRef) -> (n: usize)
        requires
            self@.has(r),
        ensures
            n == self@.inst(r).use_set.len(),
    {
        self.insts[r.0].use_set.len()
    }

    /// Recorded use `i` of `r`.
    pub fn use_at(&self, r: InstRef, i: usize) -> (u: InstRef)
        requires
            self@.has(r),
            i < self@.inst(r).use_set.len(),
        ensures
            u == self@.inst(r).use_set[i as int],
    {
        self.insts[r.0].use_set[i]
    }
}

} // verus!
