//! Peephole reduction of `move` instructions: a result that is only moved
//! takes the name it is moved to, and a moved value is used directly. In
//! both passes the instructions that named the `move` name what it moved.

use vstd::prelude::*;
use crate::ir::{names_inst, InstRef, Value, ValueView};
use crate::program::{value_below, Program, ProgramView};
use crate::text::{is_temp, is_temp_name};

verus! {

/// Whether result renaming applies at `node`: it has exactly one recorded
/// use, and the user is a `move`.
pub open spec fn renames(p: ProgramView, node: InstRef) -> bool {
    p.inst(node).use_set.len() == 1 && p.inst(p.inst(node).use_set[0]).op == "move"@
}

/// Result renaming at `node`: every recorded user of the `move` names
/// `node` in its place, the `move` is unlinked, `node` takes the destination
/// of the `move`, and its recorded uses are cleared. They are stale until
/// the next analysis, which records the users of the `move` for `node`.
pub open spec fn rename_step(p: ProgramView, node: InstRef) -> ProgramView {
    if renames(p, node) {
        let user = p.inst(node).use_set[0];
        let moved = p.inst(user);
        forward(p, user, moved.use_set, ValueView::Inst(node), moved.use_set.len() as int).unlink(
            user,
        ).with_lhs(node, moved.lhs).with_uses(node, Seq::empty())
    } else {
        p
    }
}

/// `work` without `r`.
pub open spec fn without(work: Seq<InstRef>, r: InstRef) -> Seq<InstRef> {
    if work.contains(r) {
        work.remove(work.index_of(r))
    } else {
        work
    }
}

/// The instructions still to visit after `work[0]`: the rest of `work`,
/// without the `move` that the step unlinked.
pub open spec fn rename_rest(p: ProgramView, work: Seq<InstRef>) -> Seq<InstRef> {
    if renames(p, work[0]) {
        without(work.drop_first(), p.inst(work[0]).use_set[0])
    } else {
        work.drop_first()
    }
}

/// Result renaming at each instruction of `work` that is still live when
/// its turn comes.
pub open spec fn rename_from(p: ProgramView, work: Seq<InstRef>) -> ProgramView
    decreases work.len(),
    via rename_from_decreases
{
    if work.len() == 0 {
        p
    } else {
        rename_from(rename_step(p, work[0]), rename_rest(p, work))
    }
}

#[via_fn]
proof fn rename_from_decreases(p: ProgramView, work: Seq<InstRef>) {
    if work.len() != 0 {
        let rest = work.drop_first();
        if renames(p, work[0]) {
            let user = p.inst(work[0]).use_set[0];
            if rest.contains(user) {
                let i = rest.index_of(user);
                assert(rest[i] == user);
            }
        }
    }
}

/// `args` with every operand equal to `from` replaced by `to`.
pub open spec fn substitute(args: Seq<ValueView>, from: ValueView, to: ValueView) -> Seq<ValueView> {
    args.map_values(
        |a: ValueView|
            if a == from {
                to
            } else {
                a
            },
    )
}

/// The program in which the first `n` of `users`, in turn, use `to` in place
/// of the result of `node`.
pub open spec fn forward(
    p: ProgramView,
    node: InstRef,
    users: Seq<InstRef>,
    to: ValueView,
    n: int,
) -> ProgramView
    decreases n,
{
    if n <= 0 {
        p
    } else {
        let q = forward(p, node, users, to, n - 1);
        let user = users[n - 1];
        q.with_args(user, substitute(q.inst(user).args, ValueView::Inst(node), to))
    }
}

/// Move-through at `node`. It applies where `node` is a `move` of one
/// operand into a temporary: every recorded user takes the operand in place
/// of the result, and the `move` is unlinked.
pub open spec fn through_step(p: ProgramView, node: InstRef) -> ProgramView {
    let inst = p.inst(node);
    if inst.op == "move"@ && is_temp_name(inst.lhs) && inst.args.len() == 1 {
        forward(p, node, inst.use_set, inst.args[0], inst.use_set.len() as int).unlink(node)
    } else {
        p
    }
}

/// Move-through at each instruction of `work`, in order.
pub open spec fn through_from(p: ProgramView, work: Seq<InstRef>) -> ProgramView
    decreases work.len(),
{
    if work.len() == 0 {
        p
    } else {
        through_from(through_step(p, work[0]), work.drop_first())
    }
}

/// The program after both peephole passes: result renaming over the live
/// instructions in program order, then move-through over those that are
/// left.
pub open spec fn peephole_spec(p: ProgramView) -> ProgramView {
    let renamed = rename_from(p, p.order);
    through_from(renamed, renamed.order)
}

/// Forwarding keeps the arena's size, the live list, the names, and every
/// identity within the arena.
pub proof fn lemma_forward_keeps(
    p: ProgramView,
    node: InstRef,
    users: Seq<InstRef>,
    to: ValueView,
    n: int,
)
    requires
        p.wf(),
        0 <= n <= users.len(),
        crate::program::refs_below(users, p.insts.len()),
        value_below(to, p.insts.len()),
    ensures
        forward(p, node, users, to, n).wf(),
        forward(p, node, users, to, n).insts.len() == p.insts.len(),
        forward(p, node, users, to, n).order == p.order,
        forward(p, node, users, to, n).regs == p.regs,
    decreases n,
{
    if n > 0 {
        lemma_forward_keeps(p, node, users, to, n - 1);
        let q = forward(p, node, users, to, n - 1);
        let user = users[n - 1];
        let next = q.with_args(user, substitute(q.inst(user).args, ValueView::Inst(node), to));
        assert(q.insts[user.0 as int].closed_below(q.insts.len()));
        assert forall|i: int| 0 <= i < next.insts.len() implies (#[trigger] next.insts[i]).closed_below(
            next.insts.len(),
        ) by {
            assert(q.insts[i].closed_below(q.insts.len()));
        }
    }
}

impl Program {
    /// Replaces, among the operands of `user`, the result of `node` by `to`.
    pub(crate) fn substitute_in(&mut self, user: InstRef, node: InstRef, to: &Value)
        requires
            old(self).inv(),
            old(self)@.has(user),
            value_below(to@, old(self)@.insts.len()),
        ensures
            final(self).inv(),
            final(self)@ == old(self)@.with_args(
                user,
                substitute(old(self)@.inst(user).args, ValueView::Inst(node), to@),
            ),
    {
        let ghost start = self@;
        let ghost args = start.inst(user).args;
        let ghost from = ValueView::Inst(node);
        let n = self.args_len(user);
        let mut j: usize = 0;
        proof {
            let unchanged = Seq::new(
                args.len(),
                |x: int|
                    if x < 0 && args[x] == from {
                        to@
                    } else {
                        args[x]
                    },
            );
            assert(unchanged =~= args);
            assert(start.with_args(user, unchanged).insts =~= start.insts);
        }
        while j < n
            invariant
                self.inv(),
                start.has(user),
                value_below(to@, start.insts.len()),
                args == start.inst(user).args,
                from == ValueView::Inst(node),
                n == args.len(),
                j <= n,
                self@ == start.with_args(
                    user,
                    Seq::new(
                        args.len(),
                        |x: int|
                            if x < j && args[x] == from {
                                to@
                            } else {
                                args[x]
                            },
                    ),
                ),
            decreases n - j,
        {
            if names_inst(self.arg(user, j), node) {
                self.set_arg(user, j, to.clone());
            }
            assert(self@.inst(user).args =~= Seq::new(
                args.len(),
                |x: int|
                    if x < j + 1 && args[x] == from {
                        to@
                    } else {
                        args[x]
                    },
            ));
            assert(self@.insts =~= start.with_args(user, self@.inst(user).args).insts);
            j += 1;
        }
        assert(self@.inst(user).args =~= substitute(args, from, to@));
    }

    /// Result renaming at `node`. Returns the `move` that was unlinked, with
    /// the instruction that followed it.
    fn rename_at(&mut self, node: InstRef) -> (gone: Option<(InstRef, Option<InstRef>)>)
        requires
            old(self).inv(),
            old(self)@.has(node),
        ensures
            final(self).inv(),
            final(self)@ == rename_step(old(self)@, node),
            final(self)@.thinned_from(old(self)@),
            gone == (if renames(old(self)@, node) {
                Some(
                    (
                        old(self)@.inst(node).use_set[0],
                        old(self)@.successor(old(self)@.inst(node).use_set[0]),
                    ),
                )
            } else {
                None
            }),
            gone matches Some(pair) ==> old(self)@.has(pair.0),
    {
        proof {
            self.lemma_inv_wf();
        }
        let ghost p = self@;
        let move_op = String::from_str("move");
        if self.uses_len(node) != 1 {
            return None;
        }
        let user = self.use_at(node, 0);
        assert(p.insts[node.0 as int].closed_below(p.insts.len()));
        if !(*self.get_inst(user).op() == move_op) {
            return None;
        }
        let lhs = self.get_inst(user).lhs().clone();
        let users = self.get_inst(user).use_set().clone();
        let ghost us = p.inst(user).use_set;
        let to = Value::Inst(node);
        assert(p.insts[user.0 as int].closed_below(p.insts.len()));
        let mut j: usize = 0;
        while j < users.len()
            invariant
                self.inv(),
                p.wf(),
                p.has(node),
                p.has(user),
                us == p.inst(user).use_set,
                users@ == us,
                crate::program::refs_below(us, p.insts.len()),
                to@ == ValueView::Inst(node),
                j <= users.len(),
                self@ == forward(p, user, us, to@, j as int),
            decreases users.len() - j,
        {
            proof {
                lemma_forward_keeps(p, user, us, to@, j as int);
            }
            self.substitute_in(users[j], user, &to);
            j += 1;
        }
        proof {
            lemma_forward_keeps(p, user, us, to@, j as int);
        }
        let followed = if self.is_live(user) {
            self.next_of(user)
        } else {
            None
        };
        proof {
            self@.lemma_unlink_thins(user);
        }
        self.remove_inst(user);
        self.set_lhs(node, lhs);
        self.clear_uses(node);
        Some((user, followed))
    }

    /// Move-through at `node`.
    fn through_at(&mut self, node: InstRef)
        requires
            old(self).inv(),
            old(self)@.has(node),
        ensures
            final(self).inv(),
            final(self)@ == through_step(old(self)@, node),
            final(self)@.thinned_from(old(self)@),
    {
        proof {
            self.lemma_inv_wf();
        }
        let ghost p = self@;
        let move_op = String::from_str("move");
        let inst = self.get_inst(node);
        if !(*inst.op() == move_op && is_temp(inst.lhs()) && inst.args().len() == 1) {
            return ;
        }
        let rhs = self.arg(node, 0).clone();
        let users = inst.use_set().clone();
        let ghost us = p.inst(node).use_set;
        assert(users@ == us);
        assert(p.insts[node.0 as int].closed_below(p.insts.len()));
        let mut j: usize = 0;
        while j < users.len()
            invariant
                self.inv(),
                p.wf(),
                p.has(node),
                us == p.inst(node).use_set,
                users@ == us,
                crate::program::refs_below(us, p.insts.len()),
                rhs@ == p.inst(node).args[0],
                value_below(rhs@, p.insts.len()),
                j <= users.len(),
                self@ == forward(p, node, us, rhs@, j as int),
            decreases users.len() - j,
        {
            proof {
                lemma_forward_keeps(p, node, us, rhs@, j as int);
            }
            self.substitute_in(users[j], node, &rhs);
            j += 1;
        }
        proof {
            lemma_forward_keeps(p, node, us, rhs@, j as int);
            self@.lemma_unlink_thins(node);
        }
        self.remove_inst(node);
    }

    /// Both peephole passes over the whole program.
    pub fn peephole(&mut self)
        requires
            old(self).inv(),
        ensures
            final(self).inv(),
            final(self)@ == peephole_spec(old(self)@),
            final(self)@.thinned_from(old(self)@),
    {
        self.rename_results();
        self.move_through();
    }

    /// Result renaming over the whole program: where the one recorded use
    /// of an instruction is a `move`, the instruction takes the destination
    /// of the `move`, the instructions that named the `move` name it, and the
    /// `move` is unlinked. The walk goes on with the instructions that are
    /// still live.
    pub fn rename_results(&mut self)
        requires
            old(self).inv(),
        ensures
            final(self).inv(),
            final(self)@ == rename_from(old(self)@, old(self)@.order),
            final(self)@.thinned_from(old(self)@),
    {
        let ghost start = self@;
        proof {
            self.lemma_inv_wf();
        }
        let ghost goal = rename_from(self@, self@.order);
        let ghost mut rest = self@.order;
        let ghost mut m: int = 0;
        let mut cur = self.first();
        assert(self@.order.skip(0) =~= self@.order);
        while cur.is_some()
            invariant
                self.inv(),
                self@.wf(),
                0 <= m <= self@.order.len(),
                self@.order.skip(m) == rest,
                cur == (if rest.len() > 0 {
                    Some(rest[0])
                } else {
                    None
                }),
                rename_from(self@, rest) == goal,
                self@.thinned_from(start),
            decreases rest.len(),
        {
            let node = cur.unwrap();
            let ghost before = self@;
            proof {
                assert(before.order.skip(m)[0] == node);
                before.lemma_successor_at(m);
            }
            let next = self.next_of(node);
            let gone = self.rename_at(node);
            proof {
                self.lemma_inv_wf();
            }
            match gone {
                Some((user, followed)) => {
                    // Where the successor itself was unlinked, go on from
                    // what followed it.
                    let after_user = if Some(user) == next {
                        followed
                    } else {
                        next
                    };
                    proof {
                        assert(before.insts[node.0 as int].closed_below(before.insts.len()));
                        assert(before.insts[user.0 as int].closed_below(before.insts.len()));
                        lemma_forward_keeps(
                            before,
                            user,
                            before.inst(user).use_set,
                            ValueView::Inst(node),
                            before.inst(user).use_set.len() as int,
                        );
                        lemma_rename_progress(before, m, user);
                        if before.live(user) {
                            before.lemma_successor_at(before.order.index_of(user));
                        }
                        let new_rest = rename_rest(before, rest);
                        if before.live(user) {
                            let j = before.order.index_of(user);
                            if j <= m {
                                assert(self@.order.skip(m) == new_rest);
                            } else {
                                m = m + 1;
                            }
                        } else {
                            m = m + 1;
                        }
                        rest = new_rest;
                    }
                    cur = after_user;
                },
                None => {
                    proof {
                        assert(before.order.skip(m).drop_first() =~= before.order.skip(m + 1));
                        m = m + 1;
                        rest = rest.drop_first();
                    }
                    cur = next;
                },
            }
        }
    }

    /// Move-through over the whole program: the recorded users of a `move`
    /// of one operand into a temporary take the operand itself, and the
    /// `move` is unlinked.
    pub fn move_through(&mut self)
        requires
            old(self).inv(),
        ensures
            final(self).inv(),
            final(self)@ == through_from(old(self)@, old(self)@.order),
            final(self)@.thinned_from(old(self)@),
    {
        let ghost start = self@;
        proof {
            self.lemma_inv_wf();
        }
        let ghost work = self@.order;
        let ghost goal = through_from(self@, self@.order);
        let ghost mut k: int = 0;
        let ghost mut m: int = 0;
        let mut cur = self.first();
        assert(work.skip(0) =~= work);
        while cur.is_some()
            invariant
                self.inv(),
                self@.wf(),
                0 <= k <= work.len(),
                0 <= m <= self@.order.len(),
                self@.order.skip(m) == work.skip(k),
                cur == (if k < work.len() {
                    Some(work[k])
                } else {
                    None
                }),
                through_from(self@, work.skip(k)) == goal,
                self@.thinned_from(start),
            decreases work.len() - k,
        {
            let node = cur.unwrap();
            proof {
                assert(work.skip(k)[0] == node);
                assert(self@.order.skip(m)[0] == node);
                assert(self@.order.skip(m).len() == work.skip(k).len());
                self@.lemma_successor_at(m);
                if k + 1 < work.len() {
                    assert(work.skip(k)[1] == work[k + 1]);
                    assert(self@.order.skip(m)[1] == self@.order[m + 1]);
                }
                self@.lemma_unlink_at(m);
                assert(work.skip(k).drop_first() =~= work.skip(k + 1));
                assert(self@.order.skip(m + 1) =~= work.skip(k + 1));
                let inst = self@.inst(node);
                assert(self@.insts[node.0 as int].closed_below(self@.insts.len()));
                if inst.args.len() == 1 {
                    lemma_forward_keeps(self@, node, inst.use_set, inst.args[0], inst.use_set.len() as int);
                }
            }
            let next = self.next_of(node);
            let ghost before = self@;
            self.through_at(node);
            proof {
                self.lemma_inv_wf();
                if self@.order == before.order {
                    m = m + 1;
                }
                k = k + 1;
            }
            cur = next;
        }
        proof {
            assert(work.skip(work.len() as int) =~= Seq::<InstRef>::empty());
        }
    }
}

/// After the instruction at position `m` has had its `move` unlinked, what
/// is left to visit is what followed position `m`, without that `move`.
pub proof fn lemma_rename_progress(p: ProgramView, m: int, user: InstRef)
    requires
        p.order.no_duplicates(),
        0 <= m < p.order.len(),
    ensures
        ({
            let rest = p.order.skip(m);
            let after = p.unlink(user).order;
            let left = without(rest.drop_first(), user);
            if p.live(user) && p.order.index_of(user) <= m {
                after.skip(m) == left
            } else {
                after.skip(m + 1) == left
            }
        }),
        ({
            let left = without(p.order.skip(m).drop_first(), user);
            left.len() > 0 ==> left[0] == (if m + 1 < p.order.len() && p.order[m + 1] == user {
                p.order[m + 2]
            } else {
                p.order[m + 1]
            })
        }),
        without(p.order.skip(m).drop_first(), user).len() == 0 ==> (m + 1 >= p.order.len() || (m
            + 2 >= p.order.len() && p.order[m + 1] == user)),
{
    let rest = p.order.skip(m);
    let tail = rest.drop_first();
    assert(tail =~= p.order.skip(m + 1));
    let after = p.unlink(user).order;
    let left = without(tail, user);
    if p.live(user) {
        let j = p.order.index_of(user);
        assert(p.order[j] == user);
        p.lemma_successor_at(j);
        if j <= m {
            if tail.contains(user) {
                let i = tail.index_of(user);
                assert(tail[i] == user);
                assert(p.order[m + 1 + i] == user);
            }
            assert(after.skip(m) =~= tail);
        } else {
            assert(tail[j - m - 1] == user);
            assert(tail.contains(user));
            let i = tail.index_of(user);
            assert(tail[i] == user);
            assert(p.order[m + 1 + i] == user);
            assert(i == j - m - 1);
            assert(after.skip(m + 1) =~= tail.remove(i));
        }
    } else {
        if tail.contains(user) {
            let i = tail.index_of(user);
            assert(tail[i] == user);
            assert(p.order[m + 1 + i] == user);
        }
        assert(after.skip(m + 1) =~= tail);
    }
}

} // verus!
