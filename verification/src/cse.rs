//! Common-subexpression elimination: a temporary that repeats the opcode and
//! operands of an earlier temporary is merged into it.

use vstd::prelude::*;
use crate::ir::{clone_values, names_inst, values_eq, values_view, InstRef, Value, ValueView};
use crate::peephole::substitute;
use crate::program::{Program, ProgramView};
use crate::text::{is_temp, is_temp_name};

verus! {

/// A computation that the pass has met: its opcode and operands as they were
/// then, and the first instruction that held them.
pub struct SeenView {
    pub op: Seq<char>,
    pub args: Seq<ValueView>,
    pub inst: InstRef,
}

/// The instruction recorded in `seen` for the opcode `op` on the operands
/// `args`, operand by operand.
pub open spec fn find_seen(seen: Seq<SeenView>, op: Seq<char>, args: Seq<ValueView>) -> Option<
    InstRef,
>
    decreases seen.len(),
{
    if seen.len() == 0 {
        None
    } else if seen.last().op == op && seen.last().args == args {
        Some(seen.last().inst)
    } else {
        find_seen(seen.drop_last(), op, args)
    }
}

/// How many of the first `n` operands of `args` equal `v`.
pub open spec fn count_of(args: Seq<ValueView>, v: ValueView, n: int) -> nat
    decreases n,
{
    if n <= 0 {
        0
    } else if args[n - 1] == v {
        count_of(args, v, n - 1) + 1
    } else {
        count_of(args, v, n - 1)
    }
}

/// The program in which `user` names `prev` wherever it named `node`, and
/// `prev` records `user` once more for each operand so changed.
pub open spec fn merge_user(p: ProgramView, node: InstRef, prev: InstRef, user: InstRef) -> ProgramView {
    let args = p.inst(user).args;
    let from = ValueView::Inst(node);
    let q = p.with_args(user, substitute(args, from, ValueView::Inst(prev)));
    q.with_uses(
        prev,
        q.inst(prev).use_set + Seq::new(count_of(args, from, args.len() as int), |i: int| user),
    )
}

/// The program in which the first `n` of `users`, in turn, are redirected
/// from `node` to `prev`.
pub open spec fn merge(
    p: ProgramView,
    node: InstRef,
    prev: InstRef,
    users: Seq<InstRef>,
    n: int,
) -> ProgramView
    decreases n,
{
    if n <= 0 {
        p
    } else {
        merge_user(merge(p, node, prev, users, n - 1), node, prev, users[n - 1])
    }
}

/// The state of the pass: the program, and the computations met so far.
pub struct Dedup {
    pub prog: ProgramView,
    pub seen: Seq<SeenView>,
}

/// Elimination at `node`. A computation met for the first time is recorded.
/// One that repeats a recorded computation is merged into the recorded
/// instruction where both write temporaries: every recorded user of `node`
/// is redirected, and `node` is unlinked. Nothing is merged into or out of a
/// named destination.
pub open spec fn dedup_step(s: Dedup, node: InstRef) -> Dedup {
    let inst = s.prog.inst(node);
    match find_seen(s.seen, inst.op, inst.args) {
        Some(prev) => {
            if is_temp_name(inst.lhs) && is_temp_name(s.prog.inst(prev).lhs) {
                Dedup {
                    prog: merge(s.prog, node, prev, inst.use_set, inst.use_set.len() as int).unlink(
                        node,
                    ),
                    seen: s.seen,
                }
            } else {
                s
            }
        },
        None => Dedup {
            prog: s.prog,
            seen: s.seen.push(SeenView { op: inst.op, args: inst.args, inst: node }),
        },
    }
}

/// Elimination at each instruction of `work`, in order.
pub open spec fn dedup_from(s: Dedup, work: Seq<InstRef>) -> Dedup
    decreases work.len(),
{
    if work.len() == 0 {
        s
    } else {
        dedup_from(dedup_step(s, work[0]), work.drop_first())
    }
}

/// The program after elimination: one pass over the instructions that are
/// live when it starts, in program order, starting with nothing recorded.
pub open spec fn cse_spec(p: ProgramView) -> ProgramView {
    dedup_from(Dedup { prog: p, seen: Seq::empty() }, p.order).prog
}

/// Redirecting users keeps the arena's size, the live list, the names, and
/// every identity within the arena.
pub proof fn lemma_merge_keeps(
    p: ProgramView,
    node: InstRef,
    prev: InstRef,
    users: Seq<InstRef>,
    n: int,
)
    requires
        p.wf(),
        p.has(prev),
        0 <= n <= users.len(),
        crate::program::refs_below(users, p.insts.len()),
    ensures
        merge(p, node, prev, users, n).wf(),
        merge(p, node, prev, users, n).insts.len() == p.insts.len(),
        merge(p, node, prev, users, n).order == p.order,
        merge(p, node, prev, users, n).regs == p.regs,
        forall|r: InstRef|
            p.has(r) ==> (#[trigger] merge(p, node, prev, users, n).inst(r)).lhs == p.inst(r).lhs,
    decreases n,
{
    if n > 0 {
        lemma_merge_keeps(p, node, prev, users, n - 1);
        let q = merge(p, node, prev, users, n - 1);
        let user = users[n - 1];
        let args = q.inst(user).args;
        let from = ValueView::Inst(node);
        let a = q.with_args(user, substitute(args, from, ValueView::Inst(prev)));
        let next = merge_user(q, node, prev, user);
        assert(q.insts[user.0 as int].closed_below(q.insts.len()));
        assert(q.insts[prev.0 as int].closed_below(q.insts.len()));
        assert forall|i: int| 0 <= i < next.insts.len() implies (#[trigger] next.insts[i]).closed_below(
            next.insts.len(),
        ) by {
            assert(q.insts[i].closed_below(q.insts.len()));
        }
        assert forall|r: InstRef| p.has(r) implies (#[trigger] next.inst(r)).lhs == p.inst(r).lhs by {
            assert(q.inst(r).lhs == p.inst(r).lhs);
        }
    }
}

/// A computation that the pass has met.
struct Seen {
    op: String,
    args: Vec<Value>,
    inst: InstRef,
}

impl View for Seen {
    type V = SeenView;

    closed spec fn view(&self) -> SeenView {
        SeenView { op: self.op@, args: values_view(self.args@), inst: self.inst }
    }
}

spec fn seen_view(seen: Seq<Seen>) -> Seq<SeenView> {
    seen.map_values(|e: Seen| e@)
}

fn search_seen(seen: &Vec<Seen>, op: &String, args: &Vec<Value>) -> (r: Option<InstRef>)
    ensures
        r == find_seen(seen_view(seen@), op@, values_view(args@)),
{
    let ghost all = seen_view(seen@);
    let mut n: usize = seen.len();
    assert(all.take(n as int) =~= all);
    while n > 0
        invariant
            n <= seen.len(),
            all == seen_view(seen@),
            find_seen(all, op@, values_view(args@)) == find_seen(
                all.take(n as int),
                op@,
                values_view(args@),
            ),
        decreases n,
    {
        let ghost prefix = all.take(n as int);
        assert(prefix.last() == seen@[n - 1]@);
        assert(prefix.drop_last() =~= all.take(n - 1));
        let entry = &seen[n - 1];
        if entry.op == *op && values_eq(&entry.args, args) {
            return Some(entry.inst);
        }
        n -= 1;
    }
    None
}

impl Program {
    /// Redirects `user` from `node` to `prev`.
    fn merge_into(&mut self, node: InstRef, prev: InstRef, user: InstRef)
        requires
            old(self).inv(),
            old(self)@.has(prev),
            old(self)@.has(user),
        ensures
            final(self).inv(),
            final(self)@ == merge_user(old(self)@, node, prev, user),
    {
        let ghost start = self@;
        let ghost args = start.inst(user).args;
        let ghost from = ValueView::Inst(node);
        let ghost to = ValueView::Inst(prev);
        let n = self.args_len(user);
        let mut j: usize = 0;
        proof {
            let unchanged = Seq::new(
                args.len(),
                |x: int|
                    if x < 0 && args[x] == from {
                        to
                    } else {
                        args[x]
                    },
            );
            assert(unchanged =~= args);
            let q = start.with_args(user, unchanged);
            assert(q.insts =~= start.insts);
            assert(q.inst(prev).use_set + Seq::new(count_of(args, from, 0), |i: int| user)
                =~= start.inst(prev).use_set);
            assert(q.with_uses(prev, start.inst(prev).use_set).insts =~= start.insts);
        }
        while j < n
            invariant
                self.inv(),
                start.has(prev),
                start.has(user),
                args == start.inst(user).args,
                from == ValueView::Inst(node),
                to == ValueView::Inst(prev),
                n == args.len(),
                j <= n,
                self@ == ({
                    let q = start.with_args(
                        user,
                        Seq::new(
                            args.len(),
                            |x: int|
                                if x < j && args[x] == from {
                                    to
                                } else {
                                    args[x]
                                },
                        ),
                    );
                    q.with_uses(
                        prev,
                        q.inst(prev).use_set + Seq::new(
                            count_of(args, from, j as int),
                            |i: int| user,
                        ),
                    )
                }),
            decreases n - j,
        {
            let ghost before = self@;
            let ghost next_args = Seq::new(
                args.len(),
                |x: int|
                    if x < j + 1 && args[x] == from {
                        to
                    } else {
                        args[x]
                    },
            );
            assert(before.inst(user).args[j as int] == args[j as int]);
            if names_inst(self.arg(user, j), node) {
                self.set_arg(user, j, Value::Inst(prev));
                self.push_use(prev, user);
            }
            proof {
                let q = start.with_args(user, next_args);
                let uses = q.inst(prev).use_set + Seq::new(
                    count_of(args, from, j + 1),
                    |i: int| user,
                );
                assert(self@.inst(user).args =~= q.with_uses(prev, uses).inst(user).args);
                assert(self@.inst(prev).use_set =~= uses);
                assert(self@.insts =~= q.with_uses(prev, uses).insts);
            }
            j += 1;
        }
        proof {
            let full = Seq::new(
                args.len(),
                |x: int|
                    if x < n && args[x] == from {
                        to
                    } else {
                        args[x]
                    },
            );
            assert(full =~= substitute(args, from, to));
        }
    }

    /// Elimination at `node`.
    fn dedup_at(&mut self, node: InstRef, seen: &mut Vec<Seen>)
        requires
            old(self).inv(),
            old(self)@.has(node),
            forall|i: int| 0 <= i < old(seen)@.len() ==> old(self)@.has(#[trigger] old(seen)@[i].inst),
        ensures
            final(self).inv(),
            (Dedup { prog: final(self)@, seen: seen_view(final(seen)@) }) == dedup_step(
                Dedup { prog: old(self)@, seen: seen_view(old(seen)@) },
                node,
            ),
            forall|i: int|
                0 <= i < final(seen)@.len() ==> final(self)@.has(#[trigger] final(seen)@[i].inst),
            final(self)@.thinned_from(old(self)@),
    {
        proof {
            self.lemma_inv_wf();
        }
        let ghost p = self@;
        let ghost sv = seen_view(seen@);
        let inst = self.get_inst(node);
        let found = search_seen(seen, inst.op(), inst.args());
        match found {
            Some(prev) => {
                proof {
                    lemma_found_is_recorded(sv, p.inst(node).op, p.inst(node).args);
                    let at = choose|i: int| 0 <= i < sv.len() && sv[i].inst == prev;
                    assert(seen@[at]@.inst == prev);
                    assert(seen@[at].inst == prev);
                }
                if is_temp(inst.lhs()) && is_temp(self.get_inst(prev).lhs()) {
                    let users = inst.use_set().clone();
                    let ghost us = p.inst(node).use_set;
                    assert(p.insts[node.0 as int].closed_below(p.insts.len()));
                    let mut j: usize = 0;
                    while j < users.len()
                        invariant
                            self.inv(),
                            p.wf(),
                            p.has(node),
                            p.has(prev),
                            us == p.inst(node).use_set,
                            users@ == us,
                            crate::program::refs_below(us, p.insts.len()),
                            j <= users.len(),
                            self@ == merge(p, node, prev, us, j as int),
                        decreases users.len() - j,
                    {
                        proof {
                            lemma_merge_keeps(p, node, prev, us, j as int);
                        }
                        self.merge_into(node, prev, users[j]);
                        j += 1;
                    }
                    proof {
                        lemma_merge_keeps(p, node, prev, us, j as int);
                        self@.lemma_unlink_thins(node);
                    }
                    self.remove_inst(node);
                }
            },
            None => {
                let entry = Seen { op: inst.op().clone(), args: clone_values(inst.args()), inst: node };
                seen.push(entry);
                assert(seen_view(seen@) =~= sv.push(
                    SeenView { op: p.inst(node).op, args: p.inst(node).args, inst: node },
                ));
            },
        }
    }

    /// Common-subexpression elimination over the whole program.
    pub fn cse(&mut self)
        requires
            old(self).inv(),
        ensures
            final(self).inv(),
            final(self)@ == cse_spec(old(self)@),
            final(self)@.thinned_from(old(self)@),
    {
        let ghost start = self@;
        proof {
            self.lemma_inv_wf();
        }
        let ghost work = self@.order;
        let ghost goal = dedup_from(Dedup { prog: self@, seen: Seq::empty() }, work);
        let ghost mut k: int = 0;
        let ghost mut m: int = 0;
        let mut seen: Vec<Seen> = Vec::new();
        let mut cur = self.first();
        assert(work.skip(0) =~= work);
        assert(seen_view(seen@) =~= Seq::<SeenView>::empty());
        while cur.is_some()
            invariant
                self.inv(),
                self@.wf(),
                0 <= k <= work.len(),
                0 <= m <= self@.order.len(),
                self@.order.skip(m) == work.skip(k),
                cur == (if k < work.len() {
                    Some(work[k])
                } else {
                    None
                }),
                dedup_from(Dedup { prog: self@, seen: seen_view(seen@) }, work.skip(k)) == goal,
                forall|i: int| 0 <= i < seen@.len() ==> self@.has(#[trigger] seen@[i].inst),
                self@.thinned_from(start),
            decreases work.len() - k,
        {
            let node = cur.unwrap();
            proof {
                assert(work.skip(k)[0] == node);
                assert(self@.order.skip(m)[0] == node);
                assert(self@.order.skip(m).len() == work.skip(k).len());
                self@.lemma_successor_at(m);
                if k + 1 < work.len() {
                    assert(work.skip(k)[1] == work[k + 1]);
                    assert(self@.order.skip(m)[1] == self@.order[m + 1]);
                }
                self@.lemma_unlink_at(m);
                assert(work.skip(k).drop_first() =~= work.skip(k + 1));
                assert(self@.order.skip(m + 1) =~= work.skip(k + 1));
                let inst = self@.inst(node);
                assert(self@.insts[node.0 as int].closed_below(self@.insts.len()));
                match find_seen(seen_view(seen@), inst.op, inst.args) {
                    Some(prev) => {
                        lemma_found_is_recorded(seen_view(seen@), inst.op, inst.args);
                        let at = choose|i: int|
                            0 <= i < seen_view(seen@).len() && seen_view(seen@)[i].inst == prev;
                        assert(seen@[at]@.inst == prev);
                        assert(seen@[at].inst == prev);
                        lemma_merge_keeps(
                            self@,
                            node,
                            prev,
                            inst.use_set,
                            inst.use_set.len() as int,
                        );
                    },
                    None => {},
                }
            }
            let next = self.next_of(node);
            let ghost before = self@;
            self.dedup_at(node, &mut seen);
            proof {
                self.lemma_inv_wf();
                if self@.order == before.order {
                    m = m + 1;
                }
                k = k + 1;
            }
            cur = next;
        }
        proof {
            assert(work.skip(work.len() as int) =~= Seq::<InstRef>::empty());
        }
    }
}

/// What is found for a key is the instruction of some record.
pub proof fn lemma_found_is_recorded(seen: Seq<SeenView>, op: Seq<char>, args: Seq<ValueView>)
    ensures
        find_seen(seen, op, args) matches Some(prev) ==> exists|i: int|
            0 <= i < seen.len() && seen[i].inst == prev,
    decreases seen.len(),
{
    if seen.len() > 0 {
        if seen.last().op == op && seen.last().args == args {
            assert(seen[seen.len() - 1].inst == seen.last().inst);
        } else {
            lemma_found_is_recorded(seen.drop_last(), op, args);
            if let Some(prev) = find_seen(seen.drop_last(), op, args) {
                let i = choose|i: int| 0 <= i < seen.drop_last().len() && seen.drop_last()[i].inst == prev;
                assert(seen[i].inst == prev);
            }
        }
    }
}

} // verus!
