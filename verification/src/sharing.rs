//! What lowering guarantees of the floats it builds: each number is built
//! once, and every operand that held it names the one instruction that
//! holds it now.

use vstd::prelude::*;
use crate::dump::float_free;
use crate::ir::{InstRef, Literal, ValueView};
use crate::lower::{
    built_high_name,
    built_name,
    high_field,
    int_operand,
    low_field,
    lower_insts,
    lower_operand,
    Lowering,
};
use crate::program::{InstView, ProgramView};

verus! {

/// How many instructions build the number of pattern `bits`.
pub open spec fn built_span(bits: u32) -> int {
    if low_field(bits) == 0 {
        1
    } else {
        2
    }
}

/// Whether `k` and `i` are a live instruction of `p` and one of its operands.
pub open spec fn site(p: ProgramView, k: int, i: int) -> bool {
    0 <= k < p.order.len() && 0 <= i < p.inst(p.order[k]).args.len()
}

/// The pattern of the float literal that is operand `i` of `r`, if that
/// operand is one.
pub open spec fn float_at(p: ProgramView, r: InstRef, i: int) -> Option<u32> {
    match p.inst(r).args[i] {
        ValueView::Literal(Literal::Float(f)) => Some(f.0),
        _ => None,
    }
}

/// Whether some operand of a live instruction of `p` is the float of
/// pattern `bits`.
pub open spec fn occurs(p: ProgramView, bits: u32) -> bool {
    exists|k: int, i: int| site(p, k, i) && #[trigger] float_at(p, p.order[k], i) == Some(bits)
}

/// Whether the arena slot `idx` is one of those that build the number of
/// pattern `bits`.
pub open spec fn holds(built: Map<u32, InstRef>, bits: u32, idx: int) -> bool {
    built.dom().contains(bits) && built[bits].0 <= idx < built[bits].0 + built_span(bits)
}

/// Whether the arena slot `idx` builds one of the numbers of `built`.
pub open spec fn built_by(built: Map<u32, InstRef>, idx: int) -> bool {
    exists|bits: u32| holds(built, bits, idx)
}

/// The instructions that hold the floats of `p` once it is lowered, by
/// pattern.
pub open spec fn lower_built(p: ProgramView, text: spec_fn(u32) -> Seq<char>) -> Map<u32, InstRef> {
    lower_insts(Lowering { prog: p, built: Map::empty() }, text, p.order).built
}

/// Each float of `before` is built once in `after`:
///
/// * every instruction of `before` has as many operands as it had, and none
///   of them is a float literal;
/// * every operand that was a float literal names the instruction that
///   `built` gives for its pattern, so equal floats share one instruction;
/// * `built` holds no pattern but those of the program;
/// * the instructions of a pattern are new, and those of two patterns are
///   apart;
/// * every new instruction is one of those of some pattern.
pub open spec fn builds_once(before: ProgramView, after: ProgramView, built: Map<u32, InstRef>) -> bool {
    &&& forall|k: int|
        0 <= k < before.order.len() ==> (#[trigger] after.inst(before.order[k])).args.len()
            == before.inst(before.order[k]).args.len()
    &&& forall|k: int, i: int|
        #![trigger float_at(after, before.order[k], i)]
        site(before, k, i) ==> float_at(after, before.order[k], i) is None
    &&& forall|k: int, i: int|
        #![trigger float_at(before, before.order[k], i)]
        site(before, k, i) ==> (float_at(before, before.order[k], i) matches Some(b) ==> built.dom().contains(
            b,
        ) && after.inst(before.order[k]).args[i] == ValueView::Inst(built[b]))
    &&& forall|b: u32| #[trigger]
        built.dom().contains(b) ==> occurs(before, b) && before.insts.len() <= built[b].0 && built[b].0
            + built_span(b) <= after.insts.len()
    &&& forall|b1: u32, b2: u32|
        #![trigger built.dom().contains(b1), built.dom().contains(b2)]
        built.dom().contains(b1) && built.dom().contains(b2) && b1 != b2 ==> built[b1].0
            + built_span(b1) <= built[b2].0 || built[b2].0 + built_span(b2) <= built[b1].0
    &&& forall|idx: int| before.insts.len() <= idx < after.insts.len() ==> #[trigger] built_by(built, idx)
}

/// Whether operand `a` of the instruction at position `j` has been lowered
/// when the lowering stands before operand `i` of position `k`.
pub open spec fn done(k: int, i: int, j: int, a: int) -> bool {
    j < k || (j == k && a < i)
}

/// What holds of a lowering of `start` that stands before operand `i` of
/// the instruction at position `k`.
pub open spec fn lowering_inv(start: ProgramView, s: Lowering, k: int, i: int) -> bool {
    &&& start.insts.len() <= s.prog.insts.len()
    &&& forall|j: int|
        0 <= j < start.order.len() ==> (#[trigger] s.prog.inst(start.order[j])).args.len()
            == start.inst(start.order[j]).args.len()
    &&& forall|j: int, a: int|
        #![trigger float_at(s.prog, start.order[j], a)]
        site(start, j, a) && done(k, i, j, a) ==> float_at(s.prog, start.order[j], a) is None
    &&& forall|j: int, a: int|
        #![trigger float_at(start, start.order[j], a)]
        site(start, j, a) ==> {
            let node = start.order[j];
            &&& s.prog.inst(node).args.len() == start.inst(node).args.len()
            &&& if done(k, i, j, a) {
                float_at(start, node, a) matches Some(b) ==> s.built.dom().contains(b)
                    && s.prog.inst(node).args[a] == ValueView::Inst(s.built[b])
            } else {
                s.prog.inst(node).args[a] == start.inst(node).args[a]
            }
        }
    &&& forall|b: u32| #[trigger]
        s.built.dom().contains(b) ==> occurs(start, b) && start.insts.len() <= s.built[b].0
            && s.built[b].0 + built_span(b) <= s.prog.insts.len()
    &&& forall|b1: u32, b2: u32|
        #![trigger s.built.dom().contains(b1), s.built.dom().contains(b2)]
        s.built.dom().contains(b1) && s.built.dom().contains(b2) && b1 != b2 ==> s.built[b1].0
            + built_span(b1) <= s.built[b2].0 || s.built[b2].0 + built_span(b2) <= s.built[b1].0
    &&& forall|idx: int|
        start.insts.len() <= idx < s.prog.insts.len() ==> #[trigger] built_by(s.built, idx)
}

/// Before anything is lowered, nothing is built.
pub proof fn lemma_lowering_starts(start: ProgramView)
    ensures
        lowering_inv(start, Lowering { prog: start, built: Map::empty() }, 0, 0),
{
}

/// When the operands of one instruction are lowered, the lowering stands
/// before the next instruction.
pub proof fn lemma_lowering_next(start: ProgramView, s: Lowering, k: int)
    requires
        0 <= k < start.order.len(),
        lowering_inv(start, s, k, start.inst(start.order[k]).args.len() as int),
    ensures
        lowering_inv(start, s, k + 1, 0),
{
    let n = start.inst(start.order[k]).args.len() as int;
    assert forall|j: int, a: int|
        #![trigger float_at(s.prog, start.order[j], a)]
        site(start, j, a) && done(k + 1, 0, j, a) implies float_at(s.prog, start.order[j], a) is None by {
        assert(done(k, n, j, a));
    }
    assert forall|j: int, a: int|
        #![trigger float_at(start, start.order[j], a)]
        site(start, j, a) implies {
        let node = start.order[j];
        &&& s.prog.inst(node).args.len() == start.inst(node).args.len()
        &&& if done(k + 1, 0, j, a) {
            float_at(start, node, a) matches Some(b) ==> s.built.dom().contains(b) && s.prog.inst(
                node,
            ).args[a] == ValueView::Inst(s.built[b])
        } else {
            s.prog.inst(node).args[a] == start.inst(node).args[a]
        }
    } by {
        assert(done(k + 1, 0, j, a) == done(k, n, j, a));
    }
}

/// When every instruction is lowered, each float is built once.
pub proof fn lemma_lowering_ends(start: ProgramView, s: Lowering)
    requires
        lowering_inv(start, s, start.order.len() as int, 0),
    ensures
        builds_once(start, s.prog, s.built),
{
    assert forall|k: int, i: int|
        #![trigger float_at(s.prog, start.order[k], i)]
        site(start, k, i) implies float_at(s.prog, start.order[k], i) is None by {
        assert(done(start.order.len() as int, 0, k, i));
    }
    assert forall|k: int, i: int|
        #![trigger float_at(start, start.order[k], i)]
        site(start, k, i) implies (float_at(start, start.order[k], i) matches Some(b)
        ==> s.built.dom().contains(b) && s.prog.inst(start.order[k]).args[i] == ValueView::Inst(
        s.built[b],
    )) by {
        assert(done(start.order.len() as int, 0, k, i));
    }
}

/// Lowering one operand keeps what holds of a lowering.
pub proof fn lemma_lowering_step(
    start: ProgramView,
    s: Lowering,
    text: spec_fn(u32) -> Seq<char>,
    k: int,
    i: int,
)
    requires
        start.wf(),
        site(start, k, i),
        lowering_inv(start, s, k, i),
        lower_operand(s, text, start.order[k], i).prog.insts.len() <= usize::MAX,
    ensures
        lowering_inv(start, lower_operand(s, text, start.order[k], i), k, i + 1),
{
    let node = start.order[k];
    let t = lower_operand(s, text, node, i);
    let inst = s.prog.inst(node);
    let len = s.prog.insts.len();
    assert(float_at(start, start.order[k], i) == float_at(start, node, i));
    assert(inst.args.len() == start.inst(node).args.len());
    assert(inst.args[i] == start.inst(node).args[i]);
    assert(node.0 < start.insts.len());
    assert forall|j: int| 0 <= j < start.order.len() && j != k implies start.order[j] != node
        && (#[trigger] start.order[j]).0 < start.insts.len() by {}
    assert(len <= t.prog.insts.len());
    assert forall|j: int| 0 <= j < start.order.len() implies (#[trigger] t.prog.inst(
        start.order[j],
    )).args.len() == start.inst(start.order[j]).args.len() by {
        let n = start.order[j];
        assert(n.0 < len);
        assert(s.prog.inst(n).args.len() == start.inst(n).args.len());
        if j != k {
            assert(t.prog.inst(n) == s.prog.inst(n));
        }
    }
    assert forall|j: int, a: int|
        #![trigger float_at(t.prog, start.order[j], a)]
        site(start, j, a) && done(k, i + 1, j, a) implies float_at(t.prog, start.order[j], a) is None by {
        let n = start.order[j];
        assert(n.0 < len);
        if j != k {
            assert(t.prog.inst(n) == s.prog.inst(n));
            assert(done(k, i, j, a));
            assert(float_at(s.prog, start.order[j], a) is None);
        } else if a < i {
            assert(done(k, i, j, a));
            assert(float_at(s.prog, start.order[j], a) is None);
            assert(t.prog.inst(node).args[a] == s.prog.inst(node).args[a]);
        }
    }
    match inst.args[i] {
        ValueView::Literal(Literal::Float(f)) => {
            let b = f.0;
            if s.built.dom().contains(b) {
                assert forall|j: int, a: int|
                    #![trigger float_at(start, start.order[j], a)]
                    site(start, j, a) implies {
                    let n = start.order[j];
                    &&& t.prog.inst(n).args.len() == start.inst(n).args.len()
                    &&& if done(k, i + 1, j, a) {
                        float_at(start, n, a) matches Some(b) ==> t.built.dom().contains(b)
                            && t.prog.inst(n).args[a] == ValueView::Inst(t.built[b])
                    } else {
                        t.prog.inst(n).args[a] == start.inst(n).args[a]
                    }
                } by {
                    if j != k {
                        assert(t.prog.inst(start.order[j]) == s.prog.inst(start.order[j]));
                    }
                }
            } else {
                let r = InstRef(len as usize);
                assert(t.prog.insts.len() == len + built_span(b));
                assert(r.0 == len);
                assert(occurs(start, b));
                assert forall|j: int, a: int|
                    #![trigger float_at(start, start.order[j], a)]
                    site(start, j, a) implies {
                    let n = start.order[j];
                    &&& t.prog.inst(n).args.len() == start.inst(n).args.len()
                    &&& if done(k, i + 1, j, a) {
                        float_at(start, n, a) matches Some(b) ==> t.built.dom().contains(b)
                            && t.prog.inst(n).args[a] == ValueView::Inst(t.built[b])
                    } else {
                        t.prog.inst(n).args[a] == start.inst(n).args[a]
                    }
                } by {
                    let n = start.order[j];
                    assert(n.0 < len);
                    if j != k {
                        assert(t.prog.inst(n) == s.prog.inst(n));
                    }
                    if done(k, i, j, a) {
                        if let Some(b0) = float_at(start, n, a) {
                            assert(s.built.dom().contains(b0));
                            assert(b0 != b);
                        }
                    }
                }
                assert forall|b0: u32| #[trigger] t.built.dom().contains(b0) implies occurs(start, b0)
                    && start.insts.len() <= t.built[b0].0 && t.built[b0].0 + built_span(b0)
                    <= t.prog.insts.len() by {
                    if b0 != b {
                        assert(s.built.dom().contains(b0));
                    }
                }
                assert forall|b1: u32, b2: u32|
                    #![trigger t.built.dom().contains(b1), t.built.dom().contains(b2)]
                    t.built.dom().contains(b1) && t.built.dom().contains(b2) && b1
                        != b2 implies t.built[b1].0 + built_span(b1) <= t.built[b2].0
                    || t.built[b2].0 + built_span(b2) <= t.built[b1].0 by {
                    if b1 != b {
                        assert(s.built.dom().contains(b1));
                    }
                    if b2 != b {
                        assert(s.built.dom().contains(b2));
                    }
                }
                assert forall|idx: int|
                    start.insts.len() <= idx < t.prog.insts.len() implies #[trigger] built_by(
                    t.built,
                    idx,
                ) by {
                    if idx < len {
                        assert(built_by(s.built, idx));
                        let b0 = choose|b0: u32| holds(s.built, b0, idx);
                        assert(holds(t.built, b0, idx));
                    } else {
                        assert(holds(t.built, b, idx));
                    }
                }
            }
        },
        ValueView::Literal(Literal::Integer(num)) => {
            assert(float_at(start, node, i) is None);
            assert forall|j: int, a: int|
                #![trigger float_at(start, start.order[j], a)]
                site(start, j, a) implies {
                let n = start.order[j];
                &&& t.prog.inst(n).args.len() == start.inst(n).args.len()
                &&& if done(k, i + 1, j, a) {
                    float_at(start, n, a) matches Some(b) ==> t.built.dom().contains(b)
                        && t.prog.inst(n).args[a] == ValueView::Inst(t.built[b])
                } else {
                    t.prog.inst(n).args[a] == start.inst(n).args[a]
                }
            } by {
                if j != k {
                    assert(t.prog.inst(start.order[j]) == s.prog.inst(start.order[j]));
                }
            }
        },
        _ => {
            assert(float_at(start, node, i) is None);
            assert forall|j: int, a: int|
                #![trigger float_at(start, start.order[j], a)]
                site(start, j, a) implies {
                let n = start.order[j];
                &&& t.prog.inst(n).args.len() == start.inst(n).args.len()
                &&& if done(k, i + 1, j, a) {
                    float_at(start, n, a) matches Some(b) ==> t.built.dom().contains(b)
                        && t.prog.inst(n).args[a] == ValueView::Inst(t.built[b])
                } else {
                    t.prog.inst(n).args[a] == start.inst(n).args[a]
                }
            } by {}
        },
    }
}


/// The instructions that lowering added to `before` stand at the head of
/// `after`, the latest first, and the instructions of `before` follow them in
/// their order. So whatever names a built instruction comes after it.
pub open spec fn built_at_head(before: ProgramView, after: ProgramView) -> bool {
    let added = after.insts.len() - before.insts.len();
    &&& added >= 0
    &&& after.order.len() == before.order.len() + added
    &&& forall|j: int| 0 <= j < added ==> (#[trigger] after.order[j]).0 == after.insts.len() - 1 - j
    &&& forall|j: int| 0 <= j < before.order.len() ==> #[trigger] after.order[added + j] == before.order[j]
}

/// Whether `r` holds the number of pattern `bits` and text `text`: it is a
/// `lu_imm` of the high field where the low field is zero; otherwise an
/// `or_i_imm` of the low field and of the instruction made just after it,
/// which is the `lu_imm` of the high field.
pub open spec fn holds_number(after: ProgramView, r: InstRef, bits: u32, text: Seq<char>) -> bool {
    if low_field(bits) == 0 {
        after.inst(r) == (InstView {
            lhs: built_name(text),
            op: "lu_imm"@,
            args: seq![int_operand(high_field(bits))],
            use_set: Seq::empty(),
        })
    } else {
        let high = InstRef((r.0 + 1) as usize);
        &&& after.inst(r) == (InstView {
            lhs: built_name(text),
            op: "or_i_imm"@,
            args: seq![ValueView::Inst(high), int_operand(low_field(bits))],
            use_set: Seq::empty(),
        })
        &&& after.inst(high) == (InstView {
            lhs: built_high_name(text),
            op: "lu_imm"@,
            args: seq![int_operand(high_field(bits))],
            use_set: Seq::empty(),
        })
    }
}

/// Whether every instruction of `built` holds the number of its pattern,
/// under the name made from the text that `text` gives for the pattern.
pub open spec fn built_as(
    after: ProgramView,
    built: Map<u32, InstRef>,
    text: spec_fn(u32) -> Seq<char>,
) -> bool {
    forall|b: u32| #[trigger] built.dom().contains(b) ==> holds_number(after, built[b], b, text(b))
}

/// Lowering one operand keeps the built instructions at the head and as
/// they were made.
pub proof fn lemma_placing_step(
    start: ProgramView,
    s: Lowering,
    text: spec_fn(u32) -> Seq<char>,
    k: int,
    i: int,
)
    requires
        start.wf(),
        site(start, k, i),
        lowering_inv(start, s, k, i),
        built_at_head(start, s.prog),
        built_as(s.prog, s.built, text),
        lower_operand(s, text, start.order[k], i).prog.insts.len() <= usize::MAX,
    ensures
        built_at_head(start, lower_operand(s, text, start.order[k], i).prog),
        built_as(
            lower_operand(s, text, start.order[k], i).prog,
            lower_operand(s, text, start.order[k], i).built,
            text,
        ),
{
    let node = start.order[k];
    let t = lower_operand(s, text, node, i);
    let inst = s.prog.inst(node);
    let len = s.prog.insts.len();
    assert(float_at(start, start.order[k], i) == float_at(start, node, i));
    assert(inst.args[i] == start.inst(node).args[i]);
    assert(node.0 < start.insts.len());
    match inst.args[i] {
        ValueView::Literal(Literal::Float(f)) => {
            let b = f.0;
            if s.built.dom().contains(b) {
                assert forall|b0: u32| #[trigger] t.built.dom().contains(b0) implies holds_number(
                    t.prog,
                    t.built[b0],
                    b0,
                    text(b0),
                ) by {
                    assert(s.built.dom().contains(b0));
                    assert(holds_number(s.prog, s.built[b0], b0, text(b0)));
                }
            } else {
                let r = InstRef(len as usize);
                let span = built_span(b);
                assert(t.prog.insts.len() == len + span);
                assert(r.0 == len);
                let added = len - start.insts.len();
                assert forall|j: int| 0 <= j < added + span implies (#[trigger] t.prog.order[j]).0
                    == t.prog.insts.len() - 1 - j by {
                    if j >= span {
                        assert(t.prog.order[j] == s.prog.order[j - span]);
                    }
                }
                assert forall|j: int| 0 <= j < start.order.len() implies #[trigger] t.prog.order[added
                    + span + j] == start.order[j] by {
                    assert(t.prog.order[added + span + j] == s.prog.order[added + j]);
                }
                assert forall|b0: u32| #[trigger] t.built.dom().contains(b0) implies holds_number(
                    t.prog,
                    t.built[b0],
                    b0,
                    text(b0),
                ) by {
                    if b0 != b {
                        assert(s.built.dom().contains(b0));
                        assert(holds_number(s.prog, s.built[b0], b0, text(b0)));
                        assert(s.built[b0].0 + built_span(b0) <= len);
                    }
                }
            }
        },
        _ => {
            assert forall|b0: u32| #[trigger] t.built.dom().contains(b0) implies holds_number(
                t.prog,
                t.built[b0],
                b0,
                text(b0),
            ) by {
                assert(s.built.dom().contains(b0));
                assert(holds_number(s.prog, s.built[b0], b0, text(b0)));
            }
        },
    }
}


/// Lowering leaves no float literal among the operands of the live
/// instructions: those that were there name built instructions, and the
/// built instructions take integers and each other.
pub proof fn lemma_lowered_float_free(
    before: ProgramView,
    after: ProgramView,
    built: Map<u32, InstRef>,
    text: spec_fn(u32) -> Seq<char>,
)
    requires
        builds_once(before, after, built),
        built_at_head(before, after),
        built_as(after, built, text),
        after.insts.len() <= usize::MAX,
    ensures
        float_free(after),
{
    let added = after.insts.len() - before.insts.len();
    assert forall|k: int, a: int|
        0 <= k < after.order.len() && 0 <= a < after.inst(after.order[k]).args.len() implies !(
    #[trigger] after.inst(after.order[k]).args[a] is Literal && after.inst(
        after.order[k],
    ).args[a]->Literal_0 is Float) by {
        let r = after.order[k];
        if k < added {
            let idx = r.0 as int;
            assert(idx == after.insts.len() - 1 - k);
            assert(built_by(built, idx));
            let b = choose|b: u32| holds(built, b, idx);
            assert(built.dom().contains(b));
            assert(holds_number(after, built[b], b, text(b)));
            if idx == built[b].0 {
                assert(r == built[b]);
            } else {
                assert(r == InstRef((built[b].0 + 1) as usize));
            }
        } else {
            let j = k - added;
            assert(after.order[added + j] == before.order[j]);
            assert(after.inst(before.order[j]).args.len() == before.inst(before.order[j]).args.len());
            assert(site(before, j, a));
            assert(float_at(after, before.order[j], a) is None);
        }
    }
}

} // verus!
