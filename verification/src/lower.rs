//! Immediate lowering: every literal that is left in the program is split
//! into a high field (the bits from position 13 up) and a low field (the low
//! 13 bits), and built by instructions that take such fields.

use std::collections::HashMap;
use vstd::prelude::*;
use crate::floats::{answers_text, ask_text, text_model};
use crate::ir::{InstRef, Literal, Value, ValueView};
use crate::program::{Inst, InstView, Program, ProgramView};
use crate::dump::float_free;
use crate::sharing::{
    lemma_lowered_float_free,
    builds_once,
    built_as,
    built_at_head,
    lemma_placing_step,
    lemma_lowering_ends,
    lemma_lowering_next,
    lemma_lowering_starts,
    lemma_lowering_step,
    lower_built,
    lowering_inv,
};
use crate::text::{
    dots_to_underscores,
    ends_with_imm,
    has_imm_suffix,
    imm_suffix,
    push_without_dots,
    with_imm_suffix,
};

verus! {

broadcast use vstd::std_specs::hash::group_hash_axioms;

/// The high field of `bits`: its bits from position 13 up.
pub open spec fn high_field(bits: u32) -> i32 {
    (bits / 8192) as i32
}

/// The low field of `bits`: its low 13 bits.
pub open spec fn low_field(bits: u32) -> i32 {
    (bits % 8192) as i32
}

/// The 32-bit pattern of `i` in two's complement.
pub open spec fn int_bits(i: i32) -> u32 {
    if i >= 0 {
        i as u32
    } else {
        (i + 0x1_0000_0000) as u32
    }
}

/// The name of the instruction that builds the number whose text is `text`.
pub open spec fn built_name(text: Seq<char>) -> Seq<char> {
    "T_f_"@ + dots_to_underscores(text)
}

/// The name of the instruction that loads the high field of the number whose
/// text is `text`, where its low field is loaded too.
pub open spec fn built_high_name(text: Seq<char>) -> Seq<char> {
    "T_f_hi_"@ + dots_to_underscores(text)
}

/// The operand that holds the integer `i`.
pub open spec fn int_operand(i: i32) -> ValueView {
    ValueView::Literal(Literal::Integer(i))
}

/// The program with the number of pattern `bits` built at its head: one
/// `lu_imm` of the high field where the low field is zero, otherwise that
/// `lu_imm` followed by an `or_i_imm` of its result and the low field. The
/// instruction that holds the number is the first one added to the arena.
pub open spec fn materialize(p: ProgramView, bits: u32, text: Seq<char>) -> ProgramView {
    if low_field(bits) == 0 {
        p.prepend(
            InstView {
                lhs: built_name(text),
                op: "lu_imm"@,
                args: seq![int_operand(high_field(bits))],
                use_set: Seq::empty(),
            },
        )
    } else {
        let ori = InstRef(p.insts.len() as usize);
        let lui = InstRef((p.insts.len() + 1) as usize);
        p.prepend(
            InstView {
                lhs: built_name(text),
                op: "or_i_imm"@,
                args: seq![int_operand(low_field(bits))],
                use_set: Seq::empty(),
            },
        ).prepend(
            InstView {
                lhs: built_high_name(text),
                op: "lu_imm"@,
                args: seq![int_operand(high_field(bits))],
                use_set: Seq::empty(),
            },
        ).with_args(ori, seq![ValueView::Inst(lui), int_operand(low_field(bits))])
    }
}

/// The state of a lowering under way: the program, and for each float
/// pattern met so far the instruction that holds the number.
pub struct Lowering {
    pub prog: ProgramView,
    pub built: Map<u32, InstRef>,
}

/// Whether operand `i` of `inst` can be lowered. A float always can. An
/// integer can where it is the sole operand of a `move` and its low field is
/// zero, or where the opcode takes an immediate or has a form that does
/// (`gt_i`, `sub_i`).
pub open spec fn operand_lowerable(inst: InstView, i: int) -> bool {
    inst.args[i] matches ValueView::Literal(Literal::Integer(n)) ==> if inst.op == "move"@
        && inst.args.len() == 1 {
        low_field(int_bits(n)) == 0
    } else {
        has_imm_suffix(inst.op) || inst.op == "gt_i"@ || inst.op == "sub_i"@
    }
}

/// Whether every operand of `inst` can be lowered.
pub open spec fn inst_lowerable(inst: InstView) -> bool {
    forall|i: int| 0 <= i < inst.args.len() ==> operand_lowerable(inst, i)
}

/// Whether every live instruction of `p` can be lowered.
pub open spec fn lowerable(p: ProgramView) -> bool {
    forall|k: int| 0 <= k < p.order.len() ==> inst_lowerable(#[trigger] p.inst(p.order[k]))
}

/// Lowers operand `i` of `node`.
///
/// A float met for the first time is built at the head of the program and
/// remembered; the operand then names the instruction that holds it. An
/// integer that is the sole operand of a `move` turns the instruction into a
/// `lu_imm` of its high field; any other integer gives the opcode its
/// immediate form.
pub open spec fn lower_operand(
    s: Lowering,
    text: spec_fn(u32) -> Seq<char>,
    node: InstRef,
    i: int,
) -> Lowering {
    let inst = s.prog.inst(node);
    match inst.args[i] {
        ValueView::Literal(Literal::Float(f)) => {
            if s.built.dom().contains(f.0) {
                Lowering {
                    prog: s.prog.with_args(node, inst.args.update(i, ValueView::Inst(s.built[f.0]))),
                    built: s.built,
                }
            } else {
                let r = InstRef(s.prog.insts.len() as usize);
                Lowering {
                    prog: materialize(s.prog, f.0, text(f.0)).with_args(
                        node,
                        inst.args.update(i, ValueView::Inst(r)),
                    ),
                    built: s.built.insert(f.0, r),
                }
            }
        },
        ValueView::Literal(Literal::Integer(n)) => {
            if inst.op == "move"@ && inst.args.len() == 1 {
                Lowering {
                    prog: s.prog.with_op(node, "lu_imm"@).with_args(
                        node,
                        seq![int_operand(high_field(int_bits(n)))],
                    ),
                    built: s.built,
                }
            } else if !has_imm_suffix(inst.op) {
                Lowering { prog: s.prog.with_op(node, inst.op + imm_suffix()), built: s.built }
            } else {
                s
            }
        },
        _ => s,
    }
}

/// Lowers the operands of `node` from `i` up to `n`, in order.
pub open spec fn lower_operands(
    s: Lowering,
    text: spec_fn(u32) -> Seq<char>,
    node: InstRef,
    i: int,
    n: int,
) -> Lowering
    decreases n - i,
{
    if i >= n {
        s
    } else {
        lower_operands(lower_operand(s, text, node, i), text, node, i + 1, n)
    }
}

/// Lowers every operand of `node`.
pub open spec fn lower_inst(s: Lowering, text: spec_fn(u32) -> Seq<char>, node: InstRef) -> Lowering {
    lower_operands(s, text, node, 0, s.prog.inst(node).args.len() as int)
}

/// Lowers the instructions of `work`, in order.
pub open spec fn lower_insts(
    s: Lowering,
    text: spec_fn(u32) -> Seq<char>,
    work: Seq<InstRef>,
) -> Lowering
    decreases work.len(),
{
    if work.len() == 0 {
        s
    } else {
        lower_insts(lower_inst(s, text, work[0]), text, work.drop_first())
    }
}

/// The program after lowering: its live instructions are lowered in program
/// order, each operand in turn, starting with no number built.
pub open spec fn lower_spec(p: ProgramView, text: spec_fn(u32) -> Seq<char>) -> ProgramView {
    lower_insts(Lowering { prog: p, built: Map::empty() }, text, p.order).prog
}

/// An opcode with the immediate suffix appended has the immediate suffix.
pub proof fn lemma_suffix_added(op: Seq<char>)
    ensures
        has_imm_suffix(op + imm_suffix()),
{
    let full = op + imm_suffix();
    assert(full.subrange(full.len() - 4, full.len() as int) =~= imm_suffix());
}

/// The high and the low field of `bits`.
pub(crate) fn split_fields(bits: u32) -> (r: (i32, i32))
    ensures
        r.0 == high_field(bits),
        r.1 == low_field(bits),
{
    let hi: u32 = bits >> 13;
    let lo: u32 = bits & 0x1FFF;
    assert(hi == bits / 8192 && lo == bits % 8192) by (bit_vector)
        requires
            hi == bits >> 13,
            lo == bits & 0x1FFF,
    ;
    (hi as i32, lo as i32)
}

fn bits_of_int(i: i32) -> (r: u32)
    ensures
        r == int_bits(i),
{
    if i >= 0 {
        i as u32
    } else {
        let wide: i64 = i as i64 + 0x1_0000_0000i64;
        wide as u32
    }
}

fn name_of_built(text: &String) -> (r: String)
    ensures
        r@ == built_name(text@),
{
    let mut r = String::from_str("T_f_");
    push_without_dots(&mut r, text.as_str());
    r
}

fn name_of_built_high(text: &String) -> (r: String)
    ensures
        r@ == built_high_name(text@),
{
    let mut r = String::from_str("T_f_hi_");
    push_without_dots(&mut r, text.as_str());
    r
}

fn one_int(i: i32) -> (r: Vec<Value>)
    ensures
        crate::ir::values_view(r@) == seq![int_operand(i)],
{
    let mut v: Vec<Value> = Vec::new();
    v.push(Value::Literal(Literal::Integer(i)));
    assert(crate::ir::values_view(v@) =~= seq![int_operand(i)]);
    v
}

impl Program {
    /// Builds the number of pattern `bits` at the head of the program and
    /// returns the instruction that holds it.
    fn build_float(&mut self, bits: u32, text: &String) -> (r: InstRef)
        requires
            old(self).inv(),
        ensures
            final(self).inv(),
            final(self)@ == materialize(old(self)@, bits, text@),
            r.0 == old(self)@.insts.len(),
            final(self)@.has(r),
    {
        let (hi, lo) = split_fields(bits);
        if lo == 0 {
            self.insert_head(Inst::new(name_of_built(text), String::from_str("lu_imm"), one_int(hi)))
        } else {
            let ori = self.insert_head(
                Inst::new(name_of_built(text), String::from_str("or_i_imm"), one_int(lo)),
            );
            let lui = self.insert_head(
                Inst::new(name_of_built_high(text), String::from_str("lu_imm"), one_int(hi)),
            );
            self.insert_arg(ori, 0, Value::Inst(lui));
            proof {
                let mid = old(self)@.prepend(
                    InstView {
                        lhs: built_name(text@),
                        op: "or_i_imm"@,
                        args: seq![int_operand(low_field(bits))],
                        use_set: Seq::empty(),
                    },
                ).prepend(
                    InstView {
                        lhs: built_high_name(text@),
                        op: "lu_imm"@,
                        args: seq![int_operand(high_field(bits))],
                        use_set: Seq::empty(),
                    },
                );
                assert(mid.inst(ori).args.insert(0, ValueView::Inst(lui)) =~= seq![
                    ValueView::Inst(lui),
                    int_operand(low_field(bits)),
                ]);
            }
            ori
        }
    }

    /// Whether every live instruction can be lowered.
    pub fn can_lower(&self) -> (b: bool)
        requires
            self.inv(),
        ensures
            b == lowerable(self@),
    {
        proof {
            self.lemma_inv_wf();
        }
        let move_op = String::from_str("move");
        let gt_op = String::from_str("gt_i");
        let sub_op = String::from_str("sub_i");
        let mut cur = self.first();
        let ghost mut k: int = 0;
        while cur.is_some()
            invariant
                self.inv(),
                self@.wf(),
                0 <= k <= self@.order.len(),
                cur == (if k < self@.order.len() {
                    Some(self@.order[k])
                } else {
                    None
                }),
                forall|j: int| 0 <= j < k ==> inst_lowerable(#[trigger] self@.inst(self@.order[j])),
                move_op@ == "move"@,
                gt_op@ == "gt_i"@,
                sub_op@ == "sub_i"@,
            decreases self@.order.len() - k,
        {
            let node = cur.unwrap();
            proof {
                self@.lemma_successor_at(k);
            }
            let inst = self.get_inst(node);
            let n = inst.args().len();
            let sole_move = *inst.op() == move_op && n == 1;
            let takes_imm = ends_with_imm(inst.op()) || *inst.op() == gt_op || *inst.op() == sub_op;
            let mut i: usize = 0;
            while i < n
                invariant
                    self@.has(node),
                    0 <= k < self@.order.len(),
                    self@.order[k] == node,
                    inst@ == self@.inst(node),
                    n == inst@.args.len(),
                    i <= n,
                    sole_move == (inst@.op == "move"@ && n == 1),
                    takes_imm == (has_imm_suffix(inst@.op) || inst@.op == "gt_i"@ || inst@.op
                        == "sub_i"@),
                    forall|j: int| 0 <= j < i ==> operand_lowerable(inst@, j),
                decreases n - i,
            {
                match self.arg(node, i) {
                    Value::Literal(Literal::Integer(num)) => {
                        let ok = if sole_move {
                            split_fields(bits_of_int(*num)).1 == 0
                        } else {
                            takes_imm
                        };
                        if !ok {
                            assert(!operand_lowerable(inst@, i as int));
                            assert(!inst_lowerable(self@.inst(self@.order[k])));
                            return false;
                        }
                    },
                    _ => {},
                }
                i += 1;
            }
            cur = self.next_of(node);
            proof {
                k = k + 1;
            }
        }
        true
    }

    /// Lowers the literals of the program.
    ///
    /// Each float literal is replaced by a reference to the instruction that
    /// holds the number; that instruction is built at the head of the
    /// program the first time the number is met, under a name made from the
    /// text that `text` gives for its pattern. Integer literals are handled
    /// in place. No float literal is left. The program must be one that can
    /// be lowered.
    pub fn lower<T: Fn(u32) -> String>(&mut self, text: &T)
        requires
            old(self).inv(),
            answers_text(text),
            lowerable(old(self)@),
        ensures
            final(self).inv(),
            final(self)@ == lower_spec(old(self)@, text_model(text)),
            builds_once(old(self)@, final(self)@, lower_built(old(self)@, text_model(text))),
            built_at_head(old(self)@, final(self)@),
            built_as(final(self)@, lower_built(old(self)@, text_model(text)), text_model(text)),
            float_free(final(self)@),
    {
        proof {
            self.lemma_inv_wf();
            lemma_lowering_starts(self@);
        }
        let ghost tm = text_model(text);
        let ghost start = self@;
        let ghost work = start.order;
        let ghost goal = lower_insts(Lowering { prog: start, built: Map::empty() }, tm, work);
        let ghost mut added: Seq<InstRef> = Seq::empty();
        let ghost mut k: int = 0;
        let move_op = String::from_str("move");
        let mut built: HashMap<u32, InstRef> = HashMap::new();
        let mut cur = self.first();
        assert(work.skip(0) =~= work);
        assert(added + work =~= work);
        while cur.is_some()
            invariant
                self.inv(),
                self@.wf(),
                answers_text(text),
                tm == text_model(text),
                move_op@ == "move"@,
                0 <= k <= work.len(),
                self@.order == added + work,
                start.wf(),
                work == start.order,
                lowering_inv(start, Lowering { prog: self@, built: built@ }, k, 0),
                built_at_head(start, self@),
                built_as(self@, built@, tm),
                cur == (if k < work.len() {
                    Some(work[k])
                } else {
                    None
                }),
                lower_insts(Lowering { prog: self@, built: built@ }, tm, work.skip(k)) == goal,
                forall|j: int| k <= j < work.len() ==> inst_lowerable(#[trigger] self@.inst(work[j])),
                forall|b: u32| built@.dom().contains(b) ==> self@.has(#[trigger] built@[b]),
            decreases work.len() - k,
        {
            let node = cur.unwrap();
            proof {
                assert(self@.order[added.len() + k] == work[k]);
                self@.lemma_successor_at(added.len() + k);
                if k + 1 < work.len() {
                    assert(self@.order[added.len() + k + 1] == work[k + 1]);
                }
                assert(work.skip(k).drop_first() =~= work.skip(k + 1));
                assert(work.skip(k)[0] == node);
            }
            let next = self.next_of(node);
            let n = self.args_len(node);
            let mut i: usize = 0;
            while i < n
                invariant
                    self.inv(),
                    self@.wf(),
                    answers_text(text),
                    tm == text_model(text),
                    move_op@ == "move"@,
                    0 <= k < work.len(),
                    node == work[k],
                    self@.has(node),
                    self@.order == added + work,
                    start.wf(),
                    work == start.order,
                    lowering_inv(start, Lowering { prog: self@, built: built@ }, k, i as int),
                    built_at_head(start, self@),
                    built_as(self@, built@, tm),
                    i <= n,
                    n == self@.inst(node).args.len(),
                    n == start.inst(node).args.len(),
                    lower_insts(
                        lower_operands(Lowering { prog: self@, built: built@ }, tm, node, i as int, n as int),
                        tm,
                        work.skip(k + 1),
                    ) == goal,
                    forall|j: int| i <= j < n ==> operand_lowerable(self@.inst(node), j),
                    forall|j: int|
                        k < j < work.len() ==> inst_lowerable(#[trigger] self@.inst(work[j])),
                    forall|b: u32| built@.dom().contains(b) ==> self@.has(#[trigger] built@[b]),
                decreases n - i,
            {
                let ghost before = Lowering { prog: self@, built: built@ };
                let ghost after = lower_operand(before, tm, node, i as int);
                let ghost inst = self@.inst(node);
                assert(forall|j: int|
                    k < j < work.len() ==> work[j] != node && self@.has(#[trigger] work[j])) by {
                    assert forall|j: int| k < j < work.len() implies work[j] != node && self@.has(
                        #[trigger] work[j],
                    ) by {
                        assert(self@.order[added.len() + j] == work[j]);
                        assert(self@.order[added.len() + k] == work[k]);
                    }
                }
                let arg = self.arg(node, i);
                match arg {
                    Value::Literal(Literal::Float(f)) => {
                        let bits = f.0;
                        let found = match built.get(&bits) {
                            Some(r) => Some(*r),
                            None => None,
                        };
                        match found {
                            Some(r) => {
                                self.set_arg(node, i, Value::Inst(r));
                            },
                            None => {
                                let t = ask_text(text, bits);
                                let ghost pre = self@;
                                let r = self.build_float(bits, &t);
                                proof {
                                    let low = low_field(bits);
                                    if low == 0 {
                                        added = seq![r] + added;
                                    } else {
                                        added = seq![self@.order[0], r] + added;
                                    }
                                    assert(self@.order =~= added + work);
                                    assert(self@.inst(node) == inst);
                                    assert forall|j: int| k < j < work.len() implies self@.inst(
                                        work[j],
                                    ) == pre.inst(work[j]) by {}
                                }
                                built.insert(bits, r);
                                self.set_arg(node, i, Value::Inst(r));
                            },
                        }
                    },
                    Value::Literal(Literal::Integer(num)) => {
                        let num = *num;
                        assert(operand_lowerable(inst, i as int));
                        if *self.get_inst(node).op() == move_op && n == 1 {
                            let (hi, _lo) = split_fields(bits_of_int(num));
                            self.set_op(node, String::from_str("lu_imm"));
                            self.set_args(node, one_int(hi));
                            proof {
                                reveal_strlit("lu_imm");
                                lemma_lu_imm_suffix();
                            }
                        } else if !ends_with_imm(self.get_inst(node).op()) {
                            let op = with_imm_suffix(self.get_inst(node).op());
                            self.set_op(node, op);
                            proof {
                                lemma_suffix_added(inst.op);
                            }
                        }
                    },
                    _ => {},
                }
                assert(self@ == after.prog);
                assert(built@ == after.built);
                assert forall|j: int| k < j < work.len() implies inst_lowerable(
                    #[trigger] self@.inst(work[j]),
                ) by {
                    assert(self@.inst(work[j]) == before.prog.inst(work[j]));
                }
                assert forall|j: int| i < j < n implies operand_lowerable(self@.inst(node), j) by {
                    lemma_move_not_imm();
                    assert(operand_lowerable(inst, j));
                    assert(self@.inst(node).args[j] == inst.args[j]);
                }
                proof {
                    self.lemma_inv_wf();
                    lemma_lowering_step(start, before, tm, k, i as int);
                    lemma_placing_step(start, before, tm, k, i as int);
                }
                i += 1;
            }
            cur = next;
            proof {
                lemma_lowering_next(start, Lowering { prog: self@, built: built@ }, k);
                k = k + 1;
            }
        }
        proof {
            assert(work.skip(work.len() as int) =~= Seq::<InstRef>::empty());
            lemma_lowering_ends(start, Lowering { prog: self@, built: built@ });
            self.lemma_inv_wf();
            lemma_lowered_float_free(start, self@, built@, tm);
        }
    }
}

/// The opcode `move` does not name an immediate form.
pub proof fn lemma_move_not_imm()
    ensures
        !has_imm_suffix("move"@),
{
    reveal_strlit("move");
    let op = "move"@;
    assert(op.subrange(op.len() - 4, op.len() as int)[0] == 'm');
}

/// The opcode `lu_imm` names an immediate form.
pub proof fn lemma_lu_imm_suffix()
    ensures
        has_imm_suffix("lu_imm"@),
{
    reveal_strlit("lu_imm");
    let op = "lu_imm"@;
    assert(op.subrange(op.len() - 4, op.len() as int) =~= imm_suffix());
}

} // verus!
