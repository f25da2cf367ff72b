//! Algebraic simplification: multiplication by one, a fused multiply-add
//! whose second factor is one, and division by a literal.

use vstd::prelude::*;
use crate::floats::{answers_bits, ask_bits, bits_model};
use crate::ir::{canonical_bits, InstRef, Literal, SafeF32, Value, ValueView, ONE_BITS};
use crate::program::{InstView, Program, ProgramView};

verus! {

/// The operand that is the float literal one, bit for bit.
pub open spec fn one_operand() -> ValueView {
    ValueView::Literal(Literal::Float(SafeF32(ONE_BITS)))
}

/// The float literal of pattern `bits`, with NaN made canonical.
pub open spec fn float_operand(bits: u32) -> ValueView {
    ValueView::Literal(Literal::Float(SafeF32(canonical_bits(bits))))
}

/// The instruction after simplification, where `recip` gives the pattern of
/// the reciprocal of a float.
///
/// * `mul_f(1.0, x)` becomes `move(x)`;
/// * `muladd_f(a, 1.0, b)` becomes `add_f(a, b)`;
/// * `div_f(x, k)` with a float literal `k` becomes `mul_f(x, 1/k)`.
///
/// Any other instruction stays as it is.
pub open spec fn simplify_inst(inst: InstView, recip: spec_fn(u32) -> u32) -> InstView {
    if inst.op == "mul_f"@ && inst.args.len() == 2 && inst.args[0] == one_operand() {
        inst.with_op("move"@).with_args(inst.args.remove(0))
    } else if inst.op == "muladd_f"@ && inst.args.len() == 3 && inst.args[1] == one_operand() {
        inst.with_op("add_f"@).with_args(inst.args.remove(1))
    } else if inst.op == "div_f"@ && inst.args.len() == 2 {
        match inst.args[1] {
            ValueView::Literal(Literal::Float(k)) => inst.with_op("mul_f"@).with_args(
                inst.args.update(1, float_operand(recip(k.0))),
            ),
            _ => inst,
        }
    } else {
        inst
    }
}

/// The program after simplification: every live instruction is simplified.
pub open spec fn simplify_spec(p: ProgramView, recip: spec_fn(u32) -> u32) -> ProgramView {
    ProgramView {
        insts: Seq::new(
            p.insts.len(),
            |i: int|
                if p.live(InstRef(i as usize)) {
                    simplify_inst(p.insts[i], recip)
                } else {
                    p.insts[i]
                },
        ),
        ..p
    }
}

fn is_one(v: &Value) -> (b: bool)
    ensures
        b == (v@ == one_operand()),
{
    match v {
        Value::Literal(Literal::Float(f)) => f.0 == ONE_BITS,
        _ => false,
    }
}

impl Program {
    /// Simplifies the instruction `node`.
    fn simplify_at<R: Fn(u32) -> u32>(&mut self, node: InstRef, recip: &R)
        requires
            old(self).inv(),
            old(self)@.has(node),
            answers_bits(recip),
        ensures
            final(self).inv(),
            final(self)@ == old(self)@.with_inst(
                node,
                simplify_inst(old(self)@.inst(node), bits_model(recip)),
            ),
    {
        let ghost p = self@;
        let ghost goal = p.with_inst(node, simplify_inst(p.inst(node), bits_model(recip)));
        let mul_op = String::from_str("mul_f");
        let muladd_op = String::from_str("muladd_f");
        let div_op = String::from_str("div_f");
        let inst = self.get_inst(node);
        let n = inst.args().len();
        if *inst.op() == mul_op && n == 2 && is_one(self.arg(node, 0)) {
            self.set_op(node, String::from_str("move"));
            self.remove_arg(node, 0);
            assert(self@.insts =~= goal.insts);
        } else if *inst.op() == muladd_op && n == 3 && is_one(self.arg(node, 1)) {
            self.set_op(node, String::from_str("add_f"));
            self.remove_arg(node, 1);
            assert(self@.insts =~= goal.insts);
        } else if *inst.op() == div_op && n == 2 {
            match self.arg(node, 1) {
                Value::Literal(Literal::Float(k)) => {
                    let r = SafeF32::from_bits(ask_bits(recip, k.0));
                    self.set_arg(node, 1, Value::Literal(Literal::Float(r)));
                    self.set_op(node, mul_op);
                    assert(self@.insts =~= goal.insts);
                },
                _ => {
                    assert(self@.insts =~= goal.insts);
                },
            }
        } else {
            assert(self@.insts =~= goal.insts);
        }
    }

    /// Algebraic simplification over the whole program. The reciprocal of a
    /// float divisor is the number whose pattern `recip` gives for the
    /// pattern of the divisor.
    pub fn math<R: Fn(u32) -> u32>(&mut self, recip: &R)
        requires
            old(self).inv(),
            answers_bits(recip),
        ensures
            final(self).inv(),
            final(self)@ == simplify_spec(old(self)@, bits_model(recip)),
            final(self)@.thinned_from(old(self)@),
    {
        proof {
            self.lemma_inv_wf();
        }
        let ghost start = self@;
        let ghost goal = simplify_spec(start, bits_model(recip));
        let ghost mut k: int = 0;
        let mut cur = self.first();
        proof {
            start.lemma_mapped_ends(goal);
        }
        while cur.is_some()
            invariant
                self.inv(),
                answers_bits(recip),
                start.wf(),
                start.insts.len() <= usize::MAX,
                start.maps_to(goal),
                goal == simplify_spec(start, bits_model(recip)),
                0 <= k <= start.order.len(),
                self@ == start.mapped_upto(goal, k),
                cur == (if k < start.order.len() {
                    Some(start.order[k])
                } else {
                    None
                }),
            decreases start.order.len() - k,
        {
            let node = cur.unwrap();
            proof {
                self@.lemma_successor_at(k);
                start.lemma_mapped_step(goal, k);
                start.lemma_successor_at(k);
            }
            let next = self.next_of(node);
            self.simplify_at(node, recip);
            proof {
                k = k + 1;
            }
            cur = next;
        }
        proof {
            start.lemma_mapped_ends(goal);
        }
    }
}

} // verus!
