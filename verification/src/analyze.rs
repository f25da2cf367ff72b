//! Use-def analysis: which instructions use the result of which.

use vstd::prelude::*;
use crate::ir::{InstRef, Value, ValueView};
use crate::program::{Program, ProgramView};

verus! {

/// One `user` for each of the first `n` operands of `args` that names
/// `target`.
pub open spec fn operand_uses(args: Seq<ValueView>, target: InstRef, user: InstRef, n: int) -> Seq<
    InstRef,
>
    decreases n,
{
    if n <= 0 {
        Seq::empty()
    } else if args[n - 1] == ValueView::Inst(target) {
        operand_uses(args, target, user, n - 1).push(user)
    } else {
        operand_uses(args, target, user, n - 1)
    }
}

/// The uses of `target` by the first `k` live instructions, in program
/// order, one for each operand that names it.
pub open spec fn uses_upto(p: ProgramView, target: InstRef, k: int) -> Seq<InstRef>
    decreases k,
{
    if k <= 0 {
        Seq::empty()
    } else {
        let user = p.order[k - 1];
        uses_upto(p, target, k - 1) + operand_uses(
            p.inst(user).args,
            target,
            user,
            p.inst(user).args.len() as int,
        )
    }
}

/// What an instruction that is not live keeps of its recorded uses: all of
/// them. A live one starts from none.
pub open spec fn kept_uses(p: ProgramView, target: InstRef) -> Seq<InstRef> {
    if p.live(target) {
        Seq::empty()
    } else {
        p.inst(target).use_set
    }
}

/// The recorded uses of `target` after analysis.
pub open spec fn analyzed_uses(p: ProgramView, target: InstRef) -> Seq<InstRef> {
    kept_uses(p, target) + uses_upto(p, target, p.order.len() as int)
}

/// The program after analysis: every instruction records the live
/// instructions that name it, in program order.
pub open spec fn analyze_spec(p: ProgramView) -> ProgramView {
    ProgramView {
        insts: Seq::new(
            p.insts.len(),
            |i: int| p.insts[i].with_uses(analyzed_uses(p, InstRef(i as usize))),
        ),
        ..p
    }
}

/// The program with the recorded uses of its live instructions cleared.
pub open spec fn cleared(p: ProgramView) -> ProgramView {
    ProgramView {
        insts: Seq::new(
            p.insts.len(),
            |i: int| p.insts[i].with_uses(kept_uses(p, InstRef(i as usize))),
        ),
        ..p
    }
}

/// The program after the first `k` live instructions, and the first `a`
/// operands of the next, have been recorded with what they name.
pub open spec fn recorded(p: ProgramView, k: int, a: int) -> ProgramView {
    ProgramView {
        insts: Seq::new(
            p.insts.len(),
            |i: int|
                p.insts[i].with_uses(
                    kept_uses(p, InstRef(i as usize)) + uses_upto(p, InstRef(i as usize), k)
                        + operand_uses(p.inst(p.order[k]).args, InstRef(i as usize), p.order[k], a),
                ),
        ),
        ..p
    }
}

/// Whether operand `a` of the live instruction at position `k` names
/// `target`.
pub open spec fn names_at(p: ProgramView, target: InstRef, k: int, a: int) -> bool {
    &&& 0 <= k < p.order.len()
    &&& 0 <= a < p.inst(p.order[k]).args.len()
    &&& p.inst(p.order[k]).args[a] == ValueView::Inst(target)
}

/// The uses recorded for one user are that user, as often as it names the
/// target; there is none if and only if none of its operands names it.
pub proof fn lemma_operand_uses(args: Seq<ValueView>, target: InstRef, user: InstRef, n: int)
    requires
        0 <= n <= args.len(),
    ensures
        forall|i: int|
            0 <= i < operand_uses(args, target, user, n).len() ==> #[trigger] operand_uses(
                args,
                target,
                user,
                n,
            )[i] == user,
        operand_uses(args, target, user, n).len() == 0 <==> (forall|a: int|
            0 <= a < n ==> #[trigger] args[a] != ValueView::Inst(target)),
    decreases n,
{
    if n > 0 {
        lemma_operand_uses(args, target, user, n - 1);
    }
}

/// After analysis the recorded uses of a live instruction are exact: they
/// are live instructions that name it, and there is none if and only if no
/// operand of a live instruction names it.
pub proof fn lemma_uses_exact(p: ProgramView, target: InstRef, k: int)
    requires
        0 <= k <= p.order.len(),
    ensures
        forall|i: int|
            0 <= i < uses_upto(p, target, k).len() ==> exists|j: int, a: int|
                j < k && names_at(p, target, j, a) && #[trigger] uses_upto(p, target, k)[i]
                    == p.order[j],
        uses_upto(p, target, k).len() == 0 <==> (forall|j: int, a: int|
            j < k ==> !names_at(p, target, j, a)),
    decreases k,
{
    if k > 0 {
        lemma_uses_exact(p, target, k - 1);
        let user = p.order[k - 1];
        let args = p.inst(user).args;
        let n = args.len() as int;
        lemma_operand_uses(args, target, user, n);
        let before = uses_upto(p, target, k - 1);
        let here = operand_uses(args, target, user, n);
        let all = uses_upto(p, target, k);
        assert forall|i: int| 0 <= i < all.len() implies exists|j: int, a: int|
            j < k && names_at(p, target, j, a) && #[trigger] all[i] == p.order[j] by {
            if i < before.len() {
                assert(all[i] == before[i]);
                let (j, a) = choose|j: int, a: int|
                    j < k - 1 && names_at(p, target, j, a) && before[i] == p.order[j];
                assert(j < k && names_at(p, target, j, a) && all[i] == p.order[j]);
            } else {
                assert(all[i] == here[i - before.len()]);
                assert(here.len() > 0);
                let a = choose|a: int| 0 <= a < n && args[a] == ValueView::Inst(target);
                assert(names_at(p, target, k - 1, a));
            }
        }
        if all.len() == 0 {
            assert forall|j: int, a: int| j < k implies !names_at(p, target, j, a) by {
                if j == k - 1 && names_at(p, target, j, a) {
                    assert(args[a] == ValueView::Inst(target));
                }
            }
        } else {
            if before.len() > 0 {
                let (j, a) = choose|j: int, a: int| j < k - 1 && names_at(p, target, j, a);
                assert(j < k && names_at(p, target, j, a));
            } else {
                assert(here.len() > 0);
                let a = choose|a: int| 0 <= a < n && args[a] == ValueView::Inst(target);
                assert(names_at(p, target, k - 1, a));
            }
        }
    }
}

/// After analysis a live instruction has no recorded use if and only if no
/// operand of a live instruction names it.
pub proof fn lemma_unused_after_analysis(p: ProgramView, target: InstRef)
    requires
        p.live(target),
        p.has(target),
        p.insts.len() <= usize::MAX,
    ensures
        analyze_spec(p).inst(target).use_set.len() == 0 <==> (forall|j: int, a: int|
            !names_at(p, target, j, a)),
{
    lemma_uses_exact(p, target, p.order.len() as int);
    assert(InstRef(target.0 as int as usize) == target);
    assert(analyze_spec(p).inst(target).use_set =~= uses_upto(p, target, p.order.len() as int));
    if uses_upto(p, target, p.order.len() as int).len() == 0 {
        assert forall|j: int, a: int| !names_at(p, target, j, a) by {
            if names_at(p, target, j, a) {
                assert(j < p.order.len());
            }
        }
    }
}

impl Program {
    /// Recomputes the recorded uses from the live instructions.
    pub fn analyze(&mut self)
        requires
            old(self).inv(),
        ensures
            final(self).inv(),
            final(self)@ == analyze_spec(old(self)@),
            final(self)@.thinned_from(old(self)@),
    {
        proof {
            self.lemma_inv_wf();
        }
        let ghost start = self@;
        let ghost blank = cleared(start);
        let ghost mut k: int = 0;
        let mut cur = self.first();
        proof {
            assert forall|i: int|
                0 <= i < start.insts.len() && !start.live(InstRef(i as usize)) implies blank.insts[i]
                == start.insts[i] by {}
            start.lemma_mapped_ends(blank);
        }
        while cur.is_some()
            invariant
                self.inv(),
                start.wf(),
                start.insts.len() <= usize::MAX,
                start.maps_to(blank),
                blank == cleared(start),
                0 <= k <= start.order.len(),
                self@ == start.mapped_upto(blank, k),
                cur == (if k < start.order.len() {
                    Some(start.order[k])
                } else {
                    None
                }),
            decreases start.order.len() - k,
        {
            let node = cur.unwrap();
            proof {
                self@.lemma_successor_at(k);
                start.lemma_mapped_step(blank, k);
                start.lemma_successor_at(k);
            }
            let next = self.next_of(node);
            self.clear_uses(node);
            proof {
                assert(self@.insts =~= start.mapped_upto(blank, k + 1).insts);
                k = k + 1;
            }
            cur = next;
        }
        proof {
            start.lemma_mapped_ends(blank);
            assert(self@.insts =~= recorded(start, 0, 0).insts);
            k = 0;
            self.lemma_inv_wf();
        }
        let mut cur = self.first();
        while cur.is_some()
            invariant
                self.inv(),
                self@.wf(),
                start.wf(),
                start.insts.len() <= usize::MAX,
                0 <= k <= start.order.len(),
                self@ == recorded(start, k, 0),
                cur == (if k < start.order.len() {
                    Some(start.order[k])
                } else {
                    None
                }),
            decreases start.order.len() - k,
        {
            let node = cur.unwrap();
            proof {
                self@.lemma_successor_at(k);
            }
            let next = self.next_of(node);
            let n = self.args_len(node);
            let ghost args = start.inst(node).args;
            let mut a: usize = 0;
            while a < n
                invariant
                    self.inv(),
                    start.wf(),
                    start.insts.len() <= usize::MAX,
                    0 <= k < start.order.len(),
                    node == start.order[k],
                    start.has(node),
                    args == start.inst(node).args,
                    n == args.len(),
                    a <= n,
                    self@ == recorded(start, k, a as int),
                decreases n - a,
            {
                let ghost before = self@;
                assert(start.insts[node.0 as int].closed_below(start.insts.len()));
                match self.arg(node, a) {
                    Value::Inst(i) => {
                        let i = *i;
                        self.push_use(i, node);
                        proof {
                            let goal = recorded(start, k, a + 1);
                            assert forall|t: int| 0 <= t < start.insts.len() implies self@.insts[t]
                                == goal.insts[t] by {
                                let target = InstRef(t as usize);
                                if t == i.0 {
                                    assert(target == i);
                                    assert(self@.insts[t].use_set =~= goal.insts[t].use_set);
                                } else {
                                    assert(target != i);
                                }
                            }
                            assert(self@.insts =~= goal.insts);
                        }
                    },
                    _ => {
                        assert(self@.insts =~= recorded(start, k, a + 1).insts);
                    },
                }
                a += 1;
            }
            proof {
                let goal = recorded(start, k + 1, 0);
                assert forall|t: int| 0 <= t < start.insts.len() implies self@.insts[t]
                    == goal.insts[t] by {
                    assert(self@.insts[t].use_set =~= goal.insts[t].use_set);
                }
                assert(self@.insts =~= goal.insts);
                k = k + 1;
                self.lemma_inv_wf();
            }
            cur = next;
        }
        proof {
            let goal = analyze_spec(start);
            assert forall|t: int| 0 <= t < start.insts.len() implies self@.insts[t] == goal.insts[t] by {
                assert(self@.insts[t].use_set =~= goal.insts[t].use_set);
            }
            assert(self@.insts =~= goal.insts);
        }
    }
}

} // verus!
