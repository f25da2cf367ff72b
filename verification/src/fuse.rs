//! Multiply-add fusion: a multiply whose result has one use, in an add or a
//! subtract, is merged into that instruction.

use vstd::prelude::*;
use crate::ir::{names_inst, InstRef, Value, ValueView};
use crate::program::{Program, ProgramView};

verus! {

/// `uses` with every `from` replaced by `to`.
pub open spec fn redirect(uses: Seq<InstRef>, from: InstRef, to: InstRef) -> Seq<InstRef> {
    uses.map_values(
        |u: InstRef|
            if u == from {
                to
            } else {
                u
            },
    )
}

/// The program in which the instruction that `v` names, if it names one,
/// records `to` wherever it recorded `from` as a use.
pub open spec fn retarget(p: ProgramView, v: ValueView, from: InstRef, to: InstRef) -> ProgramView {
    match v {
        ValueView::Inst(i) => p.with_uses(i, redirect(p.inst(i).use_set, from, to)),
        _ => p,
    }
}

/// The program in which the multiply `node` is merged into its user: the
/// user takes the two factors followed by `other` as operands and the fused
/// opcode, each instruction that a factor names records the user in place of
/// the multiply, and the multiply is unlinked.
pub open spec fn fused(p: ProgramView, node: InstRef, user: InstRef, other: ValueView) -> ProgramView {
    let factors = p.inst(node).args;
    let op = if p.inst(user).op == "add_f"@ {
        "muladd_f"@
    } else {
        "mulsub_f"@
    };
    let merged = p.with_args(user, seq![factors[0], factors[1], other]).with_op(user, op);
    retarget(retarget(merged, factors[0], node, user), factors[1], node, user).unlink(node)
}

/// Fusion at `node`. It applies where `node` is a `mul_f` of two operands
/// with exactly one recorded use, the user is an `add_f` or a `sub_f` of two
/// operands, and the product is the first operand of the user, or the second
/// operand of an `add_f`. A product that is subtracted is left alone.
pub open spec fn fuse_step(p: ProgramView, node: InstRef) -> ProgramView {
    let inst = p.inst(node);
    if inst.op == "mul_f"@ && inst.use_set.len() == 1 && inst.args.len() == 2 {
        let user = inst.use_set[0];
        let target = p.inst(user);
        if (target.op == "add_f"@ || target.op == "sub_f"@) && target.args.len() == 2 {
            if target.args[0] == ValueView::Inst(node) {
                fused(p, node, user, target.args[1])
            } else if target.args[1] == ValueView::Inst(node) && target.op == "add_f"@ {
                fused(p, node, user, target.args[0])
            } else {
                p
            }
        } else {
            p
        }
    } else {
        p
    }
}

/// Fusion at each instruction of `work`, in order.
pub open spec fn fuse_from(p: ProgramView, work: Seq<InstRef>) -> ProgramView
    decreases work.len(),
{
    if work.len() == 0 {
        p
    } else {
        fuse_from(fuse_step(p, work[0]), work.drop_first())
    }
}

/// The program after fusion: one pass over the instructions that are live
/// when it starts, in program order.
pub open spec fn fuse_spec(p: ProgramView) -> ProgramView {
    fuse_from(p, p.order)
}

impl Program {
    /// Replaces `from` by `to` among the recorded uses of `target`.
    pub(crate) fn redirect_uses(&mut self, target: InstRef, from: InstRef, to: InstRef)
        requires
            old(self).inv(),
            old(self)@.has(target),
            old(self)@.has(to),
        ensures
            final(self).inv(),
            final(self)@ == old(self)@.with_uses(
                target,
                redirect(old(self)@.inst(target).use_set, from, to),
            ),
    {
        let ghost start = self@;
        let ghost uses = start.inst(target).use_set;
        let n = self.uses_len(target);
        let mut j: usize = 0;
        proof {
            let unchanged = Seq::new(
                uses.len(),
                |x: int|
                    if x < 0 && uses[x] == from {
                        to
                    } else {
                        uses[x]
                    },
            );
            assert(unchanged =~= uses);
            assert(start.with_uses(target, unchanged).insts =~= start.insts);
        }
        while j < n
            invariant
                self.inv(),
                start.has(target),
                start.has(to),
                uses == start.inst(target).use_set,
                n == uses.len(),
                j <= n,
                self@ == start.with_uses(
                    target,
                    Seq::new(
                        uses.len(),
                        |x: int|
                            if x < j && uses[x] == from {
                                to
                            } else {
                                uses[x]
                            },
                    ),
                ),
            decreases n - j,
        {
            let ghost before = self@.inst(target).use_set;
            if self.use_at(target, j) == from {
                self.set_use(target, j, to);
            }
            assert(self@.inst(target).use_set =~= Seq::new(
                uses.len(),
                |x: int|
                    if x < j + 1 && uses[x] == from {
                        to
                    } else {
                        uses[x]
                    },
            ));
            assert(self@.insts =~= start.with_uses(target, self@.inst(target).use_set).insts);
            j += 1;
        }
        assert(self@.inst(target).use_set =~= redirect(uses, from, to));
    }

    /// Makes the instruction that `v` names, if it names one, record `to`
    /// wherever it recorded `from`.
    fn retarget_value(&mut self, v: &Value, from: InstRef, to: InstRef)
        requires
            old(self).inv(),
            crate::program::value_below(v@, old(self)@.insts.len()),
            old(self)@.has(to),
        ensures
            final(self).inv(),
            final(self)@ == retarget(old(self)@, v@, from, to),
    {
        match v {
            Value::Inst(i) => {
                self.redirect_uses(*i, from, to);
            },
            _ => {},
        }
    }

    /// Fusion at `node`.
    fn fuse_at(&mut self, node: InstRef)
        requires
            old(self).inv(),
            old(self)@.has(node),
        ensures
            final(self).inv(),
            final(self)@ == fuse_step(old(self)@, node),
            final(self)@.thinned_from(old(self)@),
    {
        proof {
            self.lemma_inv_wf();
        }
        let ghost p = self@;
        let mul_op = String::from_str("mul_f");
        let add_op = String::from_str("add_f");
        let sub_op = String::from_str("sub_f");
        let inst = self.get_inst(node);
        if !(*inst.op() == mul_op && inst.use_set().len() == 1 && inst.args().len() == 2) {
            return ;
        }
        let user = inst.use_set()[0];
        assert(p.inst(node).use_set[0] == user);
        assert(p.has(user));
        let target = self.get_inst(user);
        let is_add = *target.op() == add_op;
        let is_sub = *target.op() == sub_op;
        if !((is_add || is_sub) && target.args().len() == 2) {
            return ;
        }
        let other_at: usize = if names_inst(self.arg(user, 0), node) {
            1
        } else if names_inst(self.arg(user, 1), node) && is_add {
            0
        } else {
            return ;
        };
        let first = self.arg(node, 0).clone();
        let second = self.arg(node, 1).clone();
        let other = self.arg(user, other_at).clone();
        let mut args: Vec<Value> = Vec::new();
        args.push(first.clone());
        args.push(second.clone());
        args.push(other);
        proof {
            assert(crate::ir::values_view(args@) =~= seq![
                p.inst(node).args[0],
                p.inst(node).args[1],
                p.inst(user).args[other_at as int],
            ]);
            assert(p.insts[node.0 as int].closed_below(p.insts.len()));
            assert(p.insts[user.0 as int].closed_below(p.insts.len()));
        }
        self.set_args(user, args);
        if is_add {
            self.set_op(user, String::from_str("muladd_f"));
        } else {
            self.set_op(user, String::from_str("mulsub_f"));
        }
        self.retarget_value(&first, node, user);
        self.retarget_value(&second, node, user);
        proof {
            self@.lemma_unlink_thins(node);
        }
        self.remove_inst(node);
    }

    /// Multiply-add fusion over the whole program.
    ///
    /// The recorded uses must be those of the last analysis for the result
    /// to be a sound program; the pass itself is defined on every program.
    pub fn fma(&mut self)
        requires
            old(self).inv(),
        ensures
            final(self).inv(),
            final(self)@ == fuse_spec(old(self)@),
            final(self)@.thinned_from(old(self)@),
    {
        let ghost start = self@;
        proof {
            self.lemma_inv_wf();
        }
        let ghost work = self@.order;
        let ghost goal = fuse_spec(self@);
        let ghost mut k: int = 0;
        let ghost mut m: int = 0;
        let mut cur = self.first();
        assert(work.skip(0) =~= work);
        while cur.is_some()
            invariant
                self.inv(),
                self@.wf(),
                0 <= k <= work.len(),
                0 <= m <= self@.order.len(),
                self@.order.skip(m) == work.skip(k),
                cur == (if k < work.len() {
                    Some(work[k])
                } else {
                    None
                }),
                fuse_from(self@, work.skip(k)) == goal,
                self@.thinned_from(start),
            decreases work.len() - k,
        {
            let node = cur.unwrap();
            proof {
                assert(work.skip(k)[0] == node);
                assert(self@.order.skip(m)[0] == node);
                assert(self@.order.skip(m).len() == work.skip(k).len());
                self@.lemma_successor_at(m);
                if k + 1 < work.len() {
                    assert(work.skip(k)[1] == work[k + 1]);
                    assert(self@.order.skip(m)[1] == self@.order[m + 1]);
                }
                self@.lemma_unlink_at(m);
                assert(work.skip(k).drop_first() =~= work.skip(k + 1));
                assert(self@.order.skip(m + 1) =~= work.skip(k + 1));
            }
            let next = self.next_of(node);
            let ghost before = self@;
            self.fuse_at(node);
            proof {
                self.lemma_inv_wf();
                if self@.order == before.order {
                    m = m + 1;
                }
                k = k + 1;
            }
            cur = next;
        }
        proof {
            assert(work.skip(work.len() as int) =~= Seq::<InstRef>::empty());
        }
    }
}

} // verus!
