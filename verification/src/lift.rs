//! Lifting of literals into named constants, under a budget of 32 names.
//!
//! The names that the program already uses are counted, the literals that
//! would be costly to build are ranked by that cost, and as many of the
//! costliest as the budget allows are replaced, wherever they occur, by a
//! named operand whose name is made from the value.

use vstd::prelude::*;
use crate::floats::{answers_text, ask_text, text_model};
use crate::ir::{InstRef, Literal, Value, ValueView};
use crate::lower::{low_field, split_fields};
use crate::program::{Program, ProgramView};
use crate::text::{
    decimal,
    dots_to_underscores,
    is_temp,
    is_temp_name,
    push_decimal,
    push_without_dots,
    texts_view,
};

verus! {

/// The number of named values that a program may use.
pub const NAME_SLOTS: usize = 32;

/// The members of `s`, each once, in the order in which they first occur.
pub open spec fn distinct<A>(s: Seq<A>) -> Seq<A>
    decreases s.len(),
{
    if s.len() == 0 {
        Seq::empty()
    } else {
        let before = distinct(s.drop_last());
        if before.contains(s.last()) {
            before
        } else {
            before.push(s.last())
        }
    }
}

/// The names among the first `n` operands of `args`.
pub open spec fn operand_names(args: Seq<ValueView>, n: int) -> Seq<Seq<char>>
    decreases n,
{
    if n <= 0 {
        Seq::empty()
    } else {
        match args[n - 1] {
            ValueView::Variable(name) => operand_names(args, n - 1).push(name),
            _ => operand_names(args, n - 1),
        }
    }
}

/// The external names that the instruction `r` uses: its named operands, and
/// its destination unless that is a temporary.
pub open spec fn inst_names(p: ProgramView, r: InstRef) -> Seq<Seq<char>> {
    let inst = p.inst(r);
    let named = operand_names(inst.args, inst.args.len() as int);
    if is_temp_name(inst.lhs) {
        named
    } else {
        named.push(inst.lhs)
    }
}

/// The external names that the first `k` live instructions use, with repeats.
pub open spec fn names_used(p: ProgramView, k: int) -> Seq<Seq<char>>
    decreases k,
{
    if k <= 0 {
        Seq::empty()
    } else {
        names_used(p, k - 1) + inst_names(p, p.order[k - 1])
    }
}

/// What is left of the 32 names once those that the program uses are
/// counted, each once. It may be negative.
pub open spec fn budget(p: ProgramView) -> int {
    NAME_SLOTS - distinct(names_used(p, p.order.len() as int)).len()
}

/// What it costs to build `l` where it is used: a float costs one instruction
/// if its low field is zero and two otherwise; an integer that needs more
/// than the low field costs two, and any other integer nothing.
pub open spec fn lift_cost(l: Literal) -> nat {
    match l {
        Literal::Float(f) => if low_field(f.0) == 0 {
            1
        } else {
            2
        },
        Literal::Integer(i) => if 0 <= i < 8192 {
            0
        } else {
            2
        },
    }
}

/// The costly literals among the first `n` operands of `args`.
pub open spec fn operand_literals(args: Seq<ValueView>, n: int) -> Seq<Literal>
    decreases n,
{
    if n <= 0 {
        Seq::empty()
    } else {
        match args[n - 1] {
            ValueView::Literal(l) => if lift_cost(l) > 0 {
                operand_literals(args, n - 1).push(l)
            } else {
                operand_literals(args, n - 1)
            },
            _ => operand_literals(args, n - 1),
        }
    }
}

/// The costly literals of the first `k` live instructions, with repeats.
pub open spec fn literals_used(p: ProgramView, k: int) -> Seq<Literal>
    decreases k,
{
    if k <= 0 {
        Seq::empty()
    } else {
        let inst = p.inst(p.order[k - 1]);
        literals_used(p, k - 1) + operand_literals(inst.args, inst.args.len() as int)
    }
}

/// The literals that may be lifted: the costly ones, each once, in the order
/// in which the program first uses them.
pub open spec fn candidates(p: ProgramView) -> Seq<Literal> {
    distinct(literals_used(p, p.order.len() as int))
}

/// `cands` by falling cost: those of cost two, then those of cost one, each
/// group in the order of `cands`.
pub open spec fn ranked(cands: Seq<Literal>) -> Seq<Literal> {
    cands.filter(|l: Literal| lift_cost(l) == 2) + cands.filter(|l: Literal| lift_cost(l) == 1)
}

/// The literals chosen for lifting: the first `avail` of `cands` by falling
/// cost, or all of them if there are fewer.
pub open spec fn chosen(cands: Seq<Literal>, avail: int) -> Seq<Literal> {
    let r = ranked(cands);
    if avail <= 0 {
        Seq::empty()
    } else if avail < r.len() {
        r.take(avail)
    } else {
        r
    }
}

/// The name of the constant that holds `l`.
pub open spec fn lifted_name(l: Literal, text: spec_fn(u32) -> Seq<char>) -> Seq<char> {
    match l {
        Literal::Float(f) => "C_f_"@ + dots_to_underscores(text(f.0)),
        Literal::Integer(i) => "C_i_"@ + decimal(i as int),
    }
}

/// The operand `v` after lifting: a chosen literal becomes its constant.
pub open spec fn lift_value(
    v: ValueView,
    sel: Seq<Literal>,
    text: spec_fn(u32) -> Seq<char>,
) -> ValueView {
    match v {
        ValueView::Literal(l) => if sel.contains(l) {
            ValueView::Variable(lifted_name(l, text))
        } else {
            v
        },
        _ => v,
    }
}

/// The operands `args` after lifting.
pub open spec fn lift_args(
    args: Seq<ValueView>,
    sel: Seq<Literal>,
    text: spec_fn(u32) -> Seq<char>,
) -> Seq<ValueView> {
    args.map_values(|v: ValueView| lift_value(v, sel, text))
}

/// The program with the literals of `sel` lifted in every live instruction.
pub open spec fn replace_literals(
    p: ProgramView,
    sel: Seq<Literal>,
    text: spec_fn(u32) -> Seq<char>,
) -> ProgramView {
    ProgramView {
        insts: Seq::new(
            p.insts.len(),
            |i: int|
                if p.live(InstRef(i as usize)) {
                    p.insts[i].with_args(lift_args(p.insts[i].args, sel, text))
                } else {
                    p.insts[i]
                },
        ),
        ..p
    }
}

/// The program after lifting: unchanged where no name is left, otherwise
/// with the chosen literals replaced by their constants.
pub open spec fn lift_spec(p: ProgramView, text: spec_fn(u32) -> Seq<char>) -> ProgramView {
    if budget(p) <= 0 {
        p
    } else {
        replace_literals(p, chosen(candidates(p), budget(p)), text)
    }
}

/// No more literals are chosen than the budget allows, none is left out while
/// the budget lasts, and no literal left out costs more than one chosen.
pub proof fn lemma_chosen_by_cost(cands: Seq<Literal>, avail: int)
    requires
        forall|i: int| 0 <= i < cands.len() ==> 1 <= lift_cost(#[trigger] cands[i]) <= 2,
    ensures
        chosen(cands, avail).len() == (if avail <= 0 {
            0
        } else if avail < cands.len() {
            avail
        } else {
            cands.len() as int
        }),
        forall|l: Literal| chosen(cands, avail).contains(l) ==> cands.contains(l),
        forall|a: Literal, b: Literal|
            chosen(cands, avail).contains(a) && cands.contains(b) && !chosen(cands, avail).contains(
                b,
            ) ==> lift_cost(a) >= lift_cost(b),
{
    let two = |l: Literal| lift_cost(l) == 2;
    let one = |l: Literal| lift_cost(l) == 1;
    let r = ranked(cands);
    lemma_split_len(cands);
    let sel = chosen(cands, avail);
    assert forall|l: Literal| r.contains(l) implies cands.contains(l) by {
        let i = r.index_of(l);
        assert(r[i] == l);
        if i < cands.filter(two).len() {
            assert(cands.filter(two).contains(l));
            cands.lemma_filter_contains_rev(two, l);
        } else {
            assert(cands.filter(one)[i - cands.filter(two).len()] == l);
            assert(cands.filter(one).contains(l));
            cands.lemma_filter_contains_rev(one, l);
        }
    }
    assert forall|l: Literal| sel.contains(l) implies r.contains(l) by {
        let i = sel.index_of(l);
        assert(sel[i] == l);
        assert(r[i] == l);
    }
    assert forall|a: Literal, b: Literal|
        sel.contains(a) && cands.contains(b) && !sel.contains(b) implies lift_cost(a) >= lift_cost(
        b,
    ) by {
        if lift_cost(a) < lift_cost(b) {
            let n2 = cands.filter(two).len();
            let i = sel.index_of(a);
            assert(sel[i] == a && r[i] == a);
            if i < n2 {
                assert(cands.filter(two).contains(a));
                cands.lemma_filter_contains_rev(two, a);
            }
            assert(i >= n2);
            let jb = cands.index_of(b);
            assert(cands[jb] == b);
            cands.lemma_filter_contains(two, jb);
            let j = cands.filter(two).index_of(b);
            assert(cands.filter(two)[j] == b);
            assert(r[j] == b);
            assert(sel[j] == b);
        }
    }
}

/// Every candidate has cost one or two, so the two ranks hold them all.
pub proof fn lemma_split_len(cands: Seq<Literal>)
    requires
        forall|i: int| 0 <= i < cands.len() ==> 1 <= lift_cost(#[trigger] cands[i]) <= 2,
    ensures
        ranked(cands).len() == cands.len(),
    decreases cands.len(),
{
    let two = |l: Literal| lift_cost(l) == 2;
    let one = |l: Literal| lift_cost(l) == 1;
    reveal(Seq::filter);
    if cands.len() > 0 {
        lemma_split_len(cands.drop_last());
    }
}


/// What `distinct` keeps are members of the sequence, and it keeps none
/// twice.
pub proof fn lemma_distinct<A>(s: Seq<A>)
    ensures
        forall|x: A| distinct(s).contains(x) <==> s.contains(x),
        distinct(s).no_duplicates(),
        distinct(s).len() <= s.len(),
    decreases s.len(),
{
    if s.len() > 0 {
        let before = distinct(s.drop_last());
        lemma_distinct(s.drop_last());
        assert forall|x: A| distinct(s).contains(x) <==> s.contains(x) by {
            if s.contains(x) {
                let i = s.index_of(x);
                assert(s[i] == x);
                if i < s.len() - 1 {
                    assert(s.drop_last()[i] == x);
                    assert(s.drop_last().contains(x));
                    assert(before.contains(x));
                    let j = before.index_of(x);
                    assert(distinct(s)[j] == x);
                } else {
                    if !before.contains(x) {
                        assert(distinct(s)[before.len() as int] == x);
                    }
                }
            }
            if distinct(s).contains(x) {
                let j = distinct(s).index_of(x);
                assert(distinct(s)[j] == x);
                if j < before.len() {
                    assert(before[j] == x);
                    assert(s.drop_last().contains(x));
                    let i = s.drop_last().index_of(x);
                    assert(s[i] == x);
                } else {
                    assert(s[s.len() - 1] == x);
                }
            }
        }
    }
}

/// Only costly literals are gathered from operands.
pub proof fn lemma_operand_literals_cost(args: Seq<ValueView>, n: int)
    ensures
        forall|i: int|
            0 <= i < operand_literals(args, n).len() ==> lift_cost(
                #[trigger] operand_literals(args, n)[i],
            ) > 0,
    decreases n,
{
    if n > 0 {
        lemma_operand_literals_cost(args, n - 1);
        let shorter = operand_literals(args, n - 1);
        let all = operand_literals(args, n);
        assert forall|i: int| 0 <= i < all.len() implies lift_cost(#[trigger] all[i]) > 0 by {
            if i < shorter.len() {
                assert(all[i] == shorter[i]);
            }
        }
    }
}

/// Only costly literals are gathered from the program.
pub proof fn lemma_literals_used_cost(p: ProgramView, k: int)
    ensures
        forall|i: int|
            0 <= i < literals_used(p, k).len() ==> lift_cost(#[trigger] literals_used(p, k)[i]) > 0,
    decreases k,
{
    if k > 0 {
        lemma_literals_used_cost(p, k - 1);
        let inst = p.inst(p.order[k - 1]);
        lemma_operand_literals_cost(inst.args, inst.args.len() as int);
        let shorter = literals_used(p, k - 1);
        let more = operand_literals(inst.args, inst.args.len() as int);
        let all = literals_used(p, k);
        assert forall|i: int| 0 <= i < all.len() implies lift_cost(#[trigger] all[i]) > 0 by {
            if i < shorter.len() {
                assert(all[i] == shorter[i]);
            } else {
                assert(all[i] == more[i - shorter.len()]);
            }
        }
    }
}

/// The lifting budget is kept, and the costliest literals go first: no more
/// literals are chosen than names are left of the 32; as long as names are
/// left no candidate is passed over; and no candidate that is passed over
/// costs more than one that is chosen.
pub proof fn lemma_lifting_keeps_budget(p: ProgramView)
    ensures
        chosen(candidates(p), budget(p)).len() == (if budget(p) <= 0 {
            0
        } else if budget(p) < candidates(p).len() {
            budget(p)
        } else {
            candidates(p).len() as int
        }),
        forall|l: Literal|
            chosen(candidates(p), budget(p)).contains(l) ==> candidates(p).contains(l) && lift_cost(
                l,
            ) > 0,
        forall|a: Literal, b: Literal|
            chosen(candidates(p), budget(p)).contains(a) && candidates(p).contains(b) && !chosen(
                candidates(p),
                budget(p),
            ).contains(b) ==> lift_cost(a) >= lift_cost(b),
{
    let used = literals_used(p, p.order.len() as int);
    let cands = candidates(p);
    lemma_distinct(used);
    lemma_literals_used_cost(p, p.order.len() as int);
    assert forall|i: int| 0 <= i < cands.len() implies 1 <= lift_cost(#[trigger] cands[i]) <= 2 by {
        assert(distinct(used).contains(cands[i]));
        assert(used.contains(cands[i]));
        let j = used.index_of(cands[i]);
        assert(used[j] == cands[i]);
    }
    lemma_chosen_by_cost(cands, budget(p));
    assert forall|l: Literal| chosen(cands, budget(p)).contains(l) implies lift_cost(l) > 0 by {
        assert(cands.contains(l));
        let j = cands.index_of(l);
        assert(cands[j] == l);
    }
}

fn holds_name(names: &Vec<String>, name: &String) -> (r: bool)
    ensures
        r == texts_view(names@).contains(name@),
{
    let mut i: usize = 0;
    while i < names.len()
        invariant
            i <= names.len(),
            forall|j: int| 0 <= j < i ==> texts_view(names@)[j] != name@,
        decreases names.len() - i,
    {
        if names[i] == *name {
            assert(texts_view(names@)[i as int] == name@);
            return true;
        }
        i += 1;
    }
    false
}

/// Adds `name` to `names` unless it is there.
fn note_name(names: &mut Vec<String>, name: &String, Ghost(stream): Ghost<Seq<Seq<char>>>)
    requires
        texts_view(old(names)@) == distinct(stream),
    ensures
        texts_view(final(names)@) == distinct(stream.push(name@)),
{
    assert(stream.push(name@).drop_last() =~= stream);
    if !holds_name(names, name) {
        names.push(name.clone());
        assert(texts_view(names@) =~= texts_view(old(names)@).push(name@));
    }
}

/// Adds `l` to `lits` unless it is there.
fn note_literal(lits: &mut Vec<Literal>, l: Literal, Ghost(stream): Ghost<Seq<Literal>>)
    requires
        old(lits)@ == distinct(stream),
    ensures
        final(lits)@ == distinct(stream.push(l)),
{
    assert(stream.push(l).drop_last() =~= stream);
    if !holds_literal(lits, l) {
        lits.push(l);
    }
}

fn holds_literal(lits: &Vec<Literal>, l: Literal) -> (r: bool)
    ensures
        r == lits@.contains(l),
{
    let mut i: usize = 0;
    while i < lits.len()
        invariant
            i <= lits.len(),
            forall|j: int| 0 <= j < i ==> lits@[j] != l,
        decreases lits.len() - i,
    {
        if lits[i] == l {
            return true;
        }
        i += 1;
    }
    false
}

fn cost_of(l: Literal) -> (c: u8)
    ensures
        c == lift_cost(l),
{
    match l {
        Literal::Float(f) => {
            let (_hi, lo) = split_fields(f.0);
            if lo == 0 {
                1
            } else {
                2
            }
        },
        Literal::Integer(i) => {
            if 0 <= i && i < 8192 {
                0
            } else {
                2
            }
        },
    }
}

/// The first `avail` of `cands` by falling cost.
fn choose_by_cost(cands: &Vec<Literal>, avail: usize) -> (sel: Vec<Literal>)
    requires
        avail > 0,
    ensures
        sel@ == chosen(cands@, avail as int),
{
    let ghost two = |l: Literal| lift_cost(l) == 2;
    let ghost one = |l: Literal| lift_cost(l) == 1;
    let mut sel: Vec<Literal> = Vec::new();
    let mut i: usize = 0;
    proof {
        reveal(Seq::filter);
        assert(cands@.take(0).filter(two) =~= Seq::<Literal>::empty());
    }
    while i < cands.len()
        invariant
            i <= cands.len(),
            two == |l: Literal| lift_cost(l) == 2,
            sel@ == cands@.take(i as int).filter(two),
        decreases cands.len() - i,
    {
        proof {
            assert(cands@.take(i + 1) =~= cands@.take(i as int).push(cands@[i as int]));
            cands@.take(i as int).lemma_filter_push(cands@[i as int], two);
        }
        if cost_of(cands[i]) == 2 {
            sel.push(cands[i]);
        }
        i += 1;
    }
    let ghost first = sel@;
    assert(cands@.take(cands.len() as int) =~= cands@);
    let mut i: usize = 0;
    proof {
        reveal(Seq::filter);
        assert(cands@.take(0).filter(one) =~= Seq::<Literal>::empty());
    }
    while i < cands.len()
        invariant
            i <= cands.len(),
            one == |l: Literal| lift_cost(l) == 1,
            first == cands@.filter(|l: Literal| lift_cost(l) == 2),
            sel@ == first + cands@.take(i as int).filter(one),
        decreases cands.len() - i,
    {
        proof {
            assert(cands@.take(i + 1) =~= cands@.take(i as int).push(cands@[i as int]));
            cands@.take(i as int).lemma_filter_push(cands@[i as int], one);
        }
        if cost_of(cands[i]) == 1 {
            sel.push(cands[i]);
        }
        i += 1;
    }
    assert(sel@ == ranked(cands@));
    if avail < sel.len() {
        sel.truncate(avail);
        assert(sel@ =~= ranked(cands@).take(avail as int));
    }
    sel
}

fn name_of_constant<T: Fn(u32) -> String>(l: Literal, text: &T) -> (r: String)
    requires
        answers_text(text),
    ensures
        r@ == lifted_name(l, text_model(text)),
{
    match l {
        Literal::Float(f) => {
            let t = ask_text(text, f.0);
            let mut r = String::from_str("C_f_");
            push_without_dots(&mut r, t.as_str());
            r
        },
        Literal::Integer(i) => {
            let mut r = String::from_str("C_i_");
            push_decimal(&mut r, i);
            r
        },
    }
}

impl Program {
    /// The number of external names in use: the named operands and the
    /// destinations that are not temporaries, each name counted once.
    pub fn used_names(&self) -> (n: usize)
        requires
            self.inv(),
        ensures
            n == distinct(names_used(self@, self@.order.len() as int)).len(),
    {
        proof {
            self.lemma_inv_wf();
        }
        let ghost p = self@;
        let mut names: Vec<String> = Vec::new();
        let mut cur = self.first();
        let ghost mut k: int = 0;
        assert(texts_view(names@) =~= distinct(names_used(p, 0)));
        while cur.is_some()
            invariant
                self.inv(),
                p == self@,
                p.wf(),
                0 <= k <= p.order.len(),
                cur == (if k < p.order.len() {
                    Some(p.order[k])
                } else {
                    None
                }),
                texts_view(names@) == distinct(names_used(p, k)),
            decreases p.order.len() - k,
        {
            let node = cur.unwrap();
            proof {
                p.lemma_successor_at(k);
            }
            let inst = self.get_inst(node);
            let args = inst.args();
            let n = args.len();
            let mut i: usize = 0;
            assert(names_used(p, k) + operand_names(inst@.args, 0) =~= names_used(p, k));
            while i < n
                invariant
                    p == self@,
                    p.has(node),
                    inst@ == p.inst(node),
                    n == inst@.args.len(),
                    crate::ir::values_view(args@) == inst@.args,
                    i <= n,
                    texts_view(names@) == distinct(
                        names_used(p, k) + operand_names(inst@.args, i as int),
                    ),
                decreases n - i,
            {
                let ghost stream = names_used(p, k) + operand_names(inst@.args, i as int);
                assert(args[i as int]@ == inst@.args[i as int]);
                match &args[i] {
                    Value::Variable(name) => {
                        note_name(&mut names, name, Ghost(stream));
                        assert(stream.push(name@) =~= names_used(p, k) + operand_names(
                            inst@.args,
                            i + 1,
                        ));
                    },
                    _ => {},
                }
                i += 1;
            }
            let ghost stream = names_used(p, k) + operand_names(inst@.args, n as int);
            if !is_temp(inst.lhs()) {
                note_name(&mut names, inst.lhs(), Ghost(stream));
                assert(stream.push(inst@.lhs) =~= names_used(p, k + 1));
            } else {
                assert(stream =~= names_used(p, k + 1));
            }
            cur = self.next_of(node);
            proof {
                k = k + 1;
            }
        }
        names.len()
    }

    /// The literals that may be lifted: the costly ones, each once, in the
    /// order in which the program first uses them.
    pub fn lift_candidates(&self) -> (cands: Vec<Literal>)
        requires
            self.inv(),
        ensures
            cands@ == candidates(self@),
    {
        proof {
            self.lemma_inv_wf();
        }
        let ghost p = self@;
        let mut lits: Vec<Literal> = Vec::new();
        let mut cur = self.first();
        let ghost mut k: int = 0;
        assert(lits@ =~= distinct(literals_used(p, 0)));
        while cur.is_some()
            invariant
                self.inv(),
                p == self@,
                p.wf(),
                0 <= k <= p.order.len(),
                cur == (if k < p.order.len() {
                    Some(p.order[k])
                } else {
                    None
                }),
                lits@ == distinct(literals_used(p, k)),
            decreases p.order.len() - k,
        {
            let node = cur.unwrap();
            proof {
                p.lemma_successor_at(k);
            }
            let inst = self.get_inst(node);
            let args = inst.args();
            let n = args.len();
            let mut i: usize = 0;
            assert(literals_used(p, k) + operand_literals(inst@.args, 0) =~= literals_used(p, k));
            while i < n
                invariant
                    p == self@,
                    p.has(node),
                    inst@ == p.inst(node),
                    n == inst@.args.len(),
                    crate::ir::values_view(args@) == inst@.args,
                    i <= n,
                    lits@ == distinct(literals_used(p, k) + operand_literals(inst@.args, i as int)),
                decreases n - i,
            {
                let ghost stream = literals_used(p, k) + operand_literals(inst@.args, i as int);
                assert(args[i as int]@ == inst@.args[i as int]);
                match &args[i] {
                    Value::Literal(l) => {
                        if cost_of(*l) > 0 {
                            note_literal(&mut lits, *l, Ghost(stream));
                            assert(stream.push(*l) =~= literals_used(p, k) + operand_literals(
                                inst@.args,
                                i + 1,
                            ));
                        }
                    },
                    _ => {},
                }
                i += 1;
            }
            cur = self.next_of(node);
            proof {
                k = k + 1;
            }
        }
        lits
    }

    /// Replaces the literals of `sel`, in every live instruction, by their
    /// constants.
    pub fn lift_literals<T: Fn(u32) -> String>(&mut self, sel: &Vec<Literal>, text: &T)
        requires
            old(self).inv(),
            answers_text(text),
        ensures
            final(self).inv(),
            final(self)@ == replace_literals(old(self)@, sel@, text_model(text)),
    {
        proof {
            self.lemma_inv_wf();
        }
        let ghost tm = text_model(text);
        let ghost start = self@;
        let ghost goal = replace_literals(start, sel@, tm);
        let mut cur = self.first();
        let ghost mut k: int = 0;
        while cur.is_some()
            invariant
                self.inv(),
                self@.wf(),
                answers_text(text),
                tm == text_model(text),
                goal == replace_literals(start, sel@, tm),
                start.wf(),
                start.insts.len() <= usize::MAX,
                self@.order == start.order,
                self@.regs == start.regs,
                self@.insts.len() == start.insts.len(),
                0 <= k <= start.order.len(),
                cur == (if k < start.order.len() {
                    Some(start.order[k])
                } else {
                    None
                }),
                forall|i: int|
                    0 <= i < start.insts.len() ==> #[trigger] self@.insts[i] == (if start.order.take(
                        k,
                    ).contains(InstRef(i as usize)) {
                        goal.insts[i]
                    } else {
                        start.insts[i]
                    }),
            decreases start.order.len() - k,
        {
            let node = cur.unwrap();
            proof {
                self@.lemma_successor_at(k);
                assert(!start.order.take(k).contains(node)) by {
                    if start.order.take(k).contains(node) {
                        let j = start.order.take(k).index_of(node);
                        assert(start.order[j] == node);
                    }
                }
                assert(start.live(node));
            }
            let next = self.next_of(node);
            let n = self.args_len(node);
            let ghost orig = start.inst(node).args;
            let mut i: usize = 0;
            assert(self@.inst(node).args =~= Seq::new(
                orig.len(),
                |j: int|
                    if j < 0 {
                        lift_value(orig[j], sel@, tm)
                    } else {
                        orig[j]
                    },
            ));
            while i < n
                invariant
                    self.inv(),
                    answers_text(text),
                    tm == text_model(text),
                    self@.has(node),
                    node.0 < start.insts.len(),
                    orig == start.inst(node).args,
                    n == orig.len(),
                    i <= n,
                    self@.order == start.order,
                    self@.regs == start.regs,
                    self@.insts.len() == start.insts.len(),
                    self@.inst(node) == start.inst(node).with_args(
                        Seq::new(
                            orig.len(),
                            |j: int|
                                if j < i {
                                    lift_value(orig[j], sel@, tm)
                                } else {
                                    orig[j]
                                },
                        ),
                    ),
                    forall|r: int|
                        0 <= r < start.insts.len() && r != node.0 ==> #[trigger] self@.insts[r] == (
                        if start.order.take(k).contains(InstRef(r as usize)) {
                            goal.insts[r]
                        } else {
                            start.insts[r]
                        }),
                decreases n - i,
            {
                let ghost before = self@;
                match self.arg(node, i) {
                    Value::Literal(l) => {
                        let l = *l;
                        if holds_literal(sel, l) {
                            let name = name_of_constant(l, text);
                            self.set_arg(node, i, Value::Variable(name));
                        }
                    },
                    _ => {},
                }
                assert(self@.inst(node).args =~= Seq::new(
                    orig.len(),
                    |j: int|
                        if j < i + 1 {
                            lift_value(orig[j], sel@, tm)
                        } else {
                            orig[j]
                        },
                ));
                assert forall|r: int|
                    0 <= r < start.insts.len() && r != node.0 implies #[trigger] self@.insts[r]
                    == before.insts[r] by {}
                i += 1;
            }
            proof {
                self.lemma_inv_wf();
                assert(self@.inst(node).args =~= lift_args(orig, sel@, tm));
                assert(start.order.take(k + 1) =~= start.order.take(k).push(node));
                assert forall|i: int| 0 <= i < start.insts.len() implies #[trigger] self@.insts[i]
                    == (if start.order.take(k + 1).contains(InstRef(i as usize)) {
                    goal.insts[i]
                } else {
                    start.insts[i]
                }) by {
                    let x = InstRef(i as usize);
                    if i == node.0 {
                        assert(start.order.take(k + 1)[k] == node);
                    } else {
                        if start.order.take(k).contains(x) {
                            let j = start.order.take(k).index_of(x);
                            assert(start.order.take(k + 1)[j] == x);
                        }
                        if start.order.take(k + 1).contains(x) {
                            let j = start.order.take(k + 1).index_of(x);
                            assert(start.order.take(k + 1)[j] == x);
                            assert(j != k);
                            assert(start.order.take(k)[j] == x);
                        }
                    }
                }
                k = k + 1;
            }
            cur = next;
        }
        proof {
            assert(start.order.take(start.order.len() as int) =~= start.order);
            assert(self@.insts =~= goal.insts);
        }
    }

    /// Lifts the costliest literals into named constants, as far as names
    /// are left of the 32. The name of a lifted float is made from the text
    /// that `text` gives for its pattern.
    pub fn literal_to_mem<T: Fn(u32) -> String>(&mut self, text: &T)
        requires
            old(self).inv(),
            answers_text(text),
        ensures
            final(self).inv(),
            final(self)@ == lift_spec(old(self)@, text_model(text)),
            final(self)@.thinned_from(old(self)@),
    {
        let used = self.used_names();
        if used >= NAME_SLOTS {
            return ;
        }
        let avail = NAME_SLOTS - used;
        let cands = self.lift_candidates();
        let sel = choose_by_cost(&cands, avail);
        self.lift_literals(&sel, text);
    }
}

} // verus!
