//! The textual form of a program: one line for each live instruction, in
//! program order, as `destination = opcode(operand, operand, ...)`.

use vstd::prelude::*;
use vstd::string::StringExecFns;
use crate::ir::{InstRef, Literal, Value, ValueView};
use crate::program::{Program, ProgramView};
use crate::text::{decimal, push_char, push_decimal};

verus! {

/// How the operand `v` is written: an integer in decimal, a named operand by
/// its name, the result of an instruction by that instruction's destination.
/// A float literal has no written form.
pub open spec fn operand_text(p: ProgramView, v: ValueView) -> Seq<char> {
    match v {
        ValueView::Literal(Literal::Integer(i)) => decimal(i as int),
        ValueView::Literal(Literal::Float(_)) => Seq::empty(),
        ValueView::Variable(name) => name,
        ValueView::Inst(r) => p.inst(r).lhs,
    }
}

/// The first `n` operands of `args`, written with `, ` between them.
pub open spec fn operands_text(p: ProgramView, args: Seq<ValueView>, n: int) -> Seq<char>
    decreases n,
{
    if n <= 0 {
        Seq::empty()
    } else if n == 1 {
        operand_text(p, args[0])
    } else {
        operands_text(p, args, n - 1) + seq![',', ' '] + operand_text(p, args[n - 1])
    }
}

/// The line of the instruction `r`, without a line break.
pub open spec fn line_body(p: ProgramView, r: InstRef) -> Seq<char> {
    let inst = p.inst(r);
    inst.lhs + seq![' ', '=', ' '] + inst.op + seq!['('] + operands_text(
        p,
        inst.args,
        inst.args.len() as int,
    ) + seq![')']
}

/// The line of the instruction `r`, with the line break that ends it.
pub open spec fn line_text(p: ProgramView, r: InstRef) -> Seq<char> {
    line_body(p, r) + seq!['\n']
}

/// The lines of the program, one for each live instruction, in order.
pub open spec fn dump_lines(p: ProgramView) -> Seq<Seq<char>> {
    Seq::new(p.order.len(), |k: int| line_body(p, p.order[k]))
}

/// The lines of the first `k` live instructions.
pub open spec fn dump_upto(p: ProgramView, k: int) -> Seq<char>
    decreases k,
{
    if k <= 0 {
        Seq::empty()
    } else {
        dump_upto(p, k - 1) + line_text(p, p.order[k - 1])
    }
}

/// The text of the program.
pub open spec fn dump_spec(p: ProgramView) -> Seq<char> {
    dump_upto(p, p.order.len() as int)
}

/// Whether no live instruction has a float literal among its operands.
pub open spec fn float_free(p: ProgramView) -> bool {
    forall|k: int, a: int|
        0 <= k < p.order.len() && 0 <= a < p.inst(p.order[k]).args.len() ==> !(#[trigger] p.inst(
            p.order[k],
        ).args[a] is Literal && p.inst(p.order[k]).args[a]->Literal_0 is Float)
}

fn is_float(v: &Value) -> (b: bool)
    ensures
        b == (v@ is Literal && v@->Literal_0 is Float),
{
    match v {
        Value::Literal(Literal::Float(_)) => true,
        _ => false,
    }
}

impl Program {
    /// Whether the program can be written: no live instruction has a float
    /// literal left among its operands.
    pub fn is_float_free(&self) -> (b: bool)
        requires
            self.inv(),
        ensures
            b == float_free(self@),
    {
        proof {
            self.lemma_inv_wf();
        }
        let ghost p = self@;
        let mut cur = self.first();
        let ghost mut k: int = 0;
        while cur.is_some()
            invariant
                self.inv(),
                p == self@,
                p.wf(),
                0 <= k <= p.order.len(),
                cur == (if k < p.order.len() {
                    Some(p.order[k])
                } else {
                    None
                }),
                forall|j: int, a: int|
                    0 <= j < k && 0 <= a < p.inst(p.order[j]).args.len() ==> !(#[trigger] p.inst(
                        p.order[j],
                    ).args[a] is Literal && p.inst(p.order[j]).args[a]->Literal_0 is Float),
            decreases p.order.len() - k,
        {
            let node = cur.unwrap();
            proof {
                p.lemma_successor_at(k);
            }
            let n = self.args_len(node);
            let mut a: usize = 0;
            while a < n
                invariant
                    p == self@,
                    0 <= k < p.order.len(),
                    node == p.order[k],
                    p.has(node),
                    n == p.inst(node).args.len(),
                    a <= n,
                    forall|b: int|
                        0 <= b < a ==> !(#[trigger] p.inst(node).args[b] is Literal && p.inst(
                            node,
                        ).args[b]->Literal_0 is Float),
                decreases n - a,
            {
                if is_float(self.arg(node, a)) {
                    assert(p.inst(p.order[k]).args[a as int] is Literal);
                    return false;
                }
                a += 1;
            }
            cur = self.next_of(node);
            proof {
                k = k + 1;
            }
        }
        true
    }

    /// Writes the operands of `node` to `out`.
    fn dump_operands(&self, node: InstRef, out: &mut String)
        requires
            self.inv(),
            self@.has(node),
            forall|a: int|
                0 <= a < self@.inst(node).args.len() ==> !(#[trigger] self@.inst(node).args[a] is Literal
                    && self@.inst(node).args[a]->Literal_0 is Float),
        ensures
            final(out)@ == old(out)@ + operands_text(
                self@,
                self@.inst(node).args,
                self@.inst(node).args.len() as int,
            ),
    {
        proof {
            self.lemma_inv_wf();
        }
        let ghost p = self@;
        let ghost args = p.inst(node).args;
        let ghost start = out@;
        let n = self.args_len(node);
        let mut a: usize = 0;
        assert(out@ =~= start + operands_text(p, args, 0));
        while a < n
            invariant
                self.inv(),
                p == self@,
                p.wf(),
                p.has(node),
                args == p.inst(node).args,
                n == args.len(),
                a <= n,
                out@ == start + operands_text(p, args, a as int),
                forall|b: int|
                    0 <= b < args.len() ==> !(#[trigger] args[b] is Literal && args[b]->Literal_0 is Float),
            decreases n - a,
        {
            let ghost before = out@;
            if a != 0 {
                push_char(out, ',');
                push_char(out, ' ');
            }
            assert(p.insts[node.0 as int].closed_below(p.insts.len()));
            assert(!(args[a as int] is Literal && args[a as int]->Literal_0 is Float));
            match self.arg(node, a) {
                Value::Literal(Literal::Integer(i)) => {
                    push_decimal(out, *i);
                },
                Value::Literal(Literal::Float(_)) => {
                    assert(false);
                },
                Value::Variable(name) => {
                    out.append(name.as_str());
                },
                Value::Inst(r) => {
                    out.append(self.get_inst(*r).lhs().as_str());
                },
            }
            assert(out@ =~= start + operands_text(p, args, a + 1));
            a += 1;
        }
    }

    /// The text of the program: its live instructions, one on each line, in
    /// program order. No float literal may be left among their operands.
    pub fn dump(&self) -> (res: String)
        requires
            self.inv(),
            float_free(self@),
        ensures
            res@ == dump_spec(self@),
    {
        proof {
            self.lemma_inv_wf();
        }
        let ghost p = self@;
        let mut res = String::new();
        let mut cur = self.first();
        let ghost mut k: int = 0;
        assert(res@ =~= dump_upto(p, 0));
        while cur.is_some()
            invariant
                self.inv(),
                p == self@,
                p.wf(),
                float_free(p),
                0 <= k <= p.order.len(),
                cur == (if k < p.order.len() {
                    Some(p.order[k])
                } else {
                    None
                }),
                res@ == dump_upto(p, k),
            decreases p.order.len() - k,
        {
            let node = cur.unwrap();
            proof {
                p.lemma_successor_at(k);
                assert forall|a: int| 0 <= a < p.inst(node).args.len() implies !(#[trigger] p.inst(
                    node,
                ).args[a] is Literal && p.inst(node).args[a]->Literal_0 is Float) by {
                    assert(!(p.inst(p.order[k]).args[a] is Literal && p.inst(
                        p.order[k],
                    ).args[a]->Literal_0 is Float));
                }
            }
            let ghost before = res@;
            let inst = self.get_inst(node);
            res.append(inst.lhs().as_str());
            push_char(&mut res, ' ');
            push_char(&mut res, '=');
            push_char(&mut res, ' ');
            res.append(inst.op().as_str());
            push_char(&mut res, '(');
            self.dump_operands(node, &mut res);
            push_char(&mut res, ')');
            push_char(&mut res, '\n');
            assert(res@ =~= before + line_text(p, node));
            cur = self.next_of(node);
            proof {
                k = k + 1;
            }
        }
        res
    }
}

} // verus!
