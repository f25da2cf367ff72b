//! Dead-code elimination: a temporary that nothing is recorded to use is
//! unlinked.

use vstd::prelude::*;
use crate::analyze::analyze_spec;
use crate::ir::InstRef;
use crate::program::{Program, ProgramView};
use crate::text::{is_temp, is_temp_name};

verus! {

/// Whether `r` is dead: it writes a temporary and has no recorded use.
pub open spec fn is_dead(p: ProgramView, r: InstRef) -> bool {
    is_temp_name(p.inst(r).lhs) && p.inst(r).use_set.len() == 0
}

/// The test that an instruction of `p` is kept.
pub open spec fn kept(p: ProgramView) -> spec_fn(InstRef) -> bool {
    |r: InstRef| !is_dead(p, r)
}

/// The program after elimination: the live instructions that are not dead,
/// in their order. The pass does not repeat itself: what becomes dead by it
/// is left for the next analysis to show.
pub open spec fn dce_spec(p: ProgramView) -> ProgramView {
    ProgramView { order: p.order.filter(kept(p)), ..p }
}

/// Filtering by two tests that agree on the sequence gives the same result.
pub proof fn lemma_filter_agree(s: Seq<InstRef>, f: spec_fn(InstRef) -> bool, g: spec_fn(InstRef) -> bool)
    requires
        forall|i: int| 0 <= i < s.len() ==> f(s[i]) == g(s[i]),
    ensures
        s.filter(f) == s.filter(g),
    decreases s.len(),
{
    reveal(Seq::filter);
    if s.len() > 0 {
        lemma_filter_agree(s.drop_last(), f, g);
    }
}

/// Filtering what has been filtered by the same test changes nothing.
pub proof fn lemma_filter_twice(s: Seq<InstRef>, f: spec_fn(InstRef) -> bool)
    ensures
        s.filter(f).filter(f) == s.filter(f),
    decreases s.len(),
{
    reveal(Seq::filter);
    if s.len() > 0 {
        lemma_filter_twice(s.drop_last(), f);
        if f(s.last()) {
            s.drop_last().filter(f).lemma_filter_push(s.last(), f);
        }
    }
}

/// Elimination is idempotent: a second pass, with no analysis in between,
/// removes nothing more.
pub proof fn lemma_dce_idempotent(p: ProgramView)
    ensures
        dce_spec(dce_spec(p)) == dce_spec(p),
{
    let q = dce_spec(p);
    lemma_filter_agree(q.order, kept(q), kept(p));
    lemma_filter_twice(p.order, kept(p));
}

/// Analysis followed by elimination, with elimination then run once more,
/// gives what analysis followed by one elimination gives.
pub proof fn lemma_analyze_dce_twice(p: ProgramView)
    ensures
        dce_spec(dce_spec(analyze_spec(p))) == dce_spec(analyze_spec(p)),
{
    lemma_dce_idempotent(analyze_spec(p));
}

impl Program {
    /// Dead-code elimination over the whole program.
    pub fn dce(&mut self)
        requires
            old(self).inv(),
        ensures
            final(self).inv(),
            final(self)@ == dce_spec(old(self)@),
            final(self)@.thinned_from(old(self)@),
    {
        proof {
            self.lemma_inv_wf();
            let kept_list = self@.order.filter(kept(self@));
            assert forall|r: InstRef| #[trigger] kept_list.contains(r) implies self@.order.contains(
                r,
            ) by {
                self@.order.lemma_filter_contains_rev(kept(self@), r);
            }
        }
        let ghost start = self@;
        let ghost keep = kept(start);
        let ghost mut k: int = 0;
        let mut cur = self.first();
        proof {
            reveal(Seq::filter);
            assert(start.order.take(0).filter(keep) =~= Seq::<InstRef>::empty());
            assert(start.order.skip(0) =~= start.order);
        }
        while cur.is_some()
            invariant
                self.inv(),
                self@.wf(),
                start.wf(),
                keep == kept(start),
                0 <= k <= start.order.len(),
                self@.insts == start.insts,
                self@.regs == start.regs,
                self@.order == start.order.take(k).filter(keep) + start.order.skip(k),
                cur == (if k < start.order.len() {
                    Some(start.order[k])
                } else {
                    None
                }),
            decreases start.order.len() - k,
        {
            let node = cur.unwrap();
            let ghost done = start.order.take(k).filter(keep);
            let ghost m = done.len() as int;
            proof {
                assert(self@.order[m] == start.order.skip(k)[0]);
                self@.lemma_successor_at(m);
                if k + 1 < start.order.len() {
                    assert(self@.order[m + 1] == start.order.skip(k)[1]);
                }
                self@.lemma_unlink_at(m);
                assert(start.order.take(k + 1) =~= start.order.take(k).push(node));
                start.order.take(k).lemma_filter_push(node, keep);
            }
            let next = self.next_of(node);
            let inst = self.get_inst(node);
            if inst.use_set().len() == 0 && is_temp(inst.lhs()) {
                self.remove_inst(node);
                proof {
                    assert(self@.order =~= done + start.order.skip(k + 1));
                }
            } else {
                proof {
                    assert(self@.order =~= done.push(node) + start.order.skip(k + 1));
                }
            }
            proof {
                self.lemma_inv_wf();
                k = k + 1;
            }
            cur = next;
        }
        proof {
            assert(start.order.take(start.order.len() as int) =~= start.order);
            assert(self@.order =~= start.order.filter(keep));
        }
    }
}

} // verus!
