//! Reading back what was written: the lines of a dumped program, read in
//! order into an empty program, give the same instructions in the same
//! order.

use vstd::prelude::*;
use crate::dump::{dump_lines, dump_spec, dump_upto, line_body, line_text, operand_text, operands_text};
use crate::ir::{InstRef, Literal, Value, ValueView};
use crate::parse::{
    line_parts,
    operand_value,
    operand_values,
    parse_line_spec,
    parse_lines_spec,
    with_line,
    LineParts,
    ParseError,
};
use crate::program::{lookup_reg, value_below, InstView, Program, ProgramView};
use crate::text::{is_temp, is_temp_name};
use crate::scan::{
    chars_of,
    is_numeric,
    is_whitespace,
    numeric,
    all_digits,
    digit_value,
    digits_value,
    int_literal,
    is_digit,
    lemma_split_count,
    closed_once,
    free_of,
    split_on,
    trim,
    trim_end,
    trim_start,
    whitespace,
};
use crate::text::{decimal, digit_char, digits};

verus! {

/// Whether `c` is one of the characters that shape a line, none of which
/// can stand in an operand.
pub open spec fn is_mark(c: char) -> bool {
    c == '=' || c == '(' || c == ')' || c == ',' || c == '\n'
}

/// Whether `c` cannot stand in a destination: it would end the destination
/// or the line.
pub open spec fn is_lhs_mark(c: char) -> bool {
    c == '=' || c == '\n'
}

/// Whether `c` cannot stand in an opcode: it would end the destination, the
/// opcode or the line.
pub open spec fn is_op_mark(c: char) -> bool {
    c == '=' || c == '(' || c == '\n'
}

/// Whether `s` neither begins nor ends with white space.
pub open spec fn close_cut(s: Seq<char>) -> bool {
    s.len() > 0 ==> !whitespace(s[0]) && !whitespace(s.last())
}

/// Whether `s` can stand as an operand as it is: it holds none of the
/// characters that shape a line, and no white space at either end.
pub open spec fn tidy(s: Seq<char>) -> bool {
    &&& forall|i: int| 0 <= i < s.len() ==> !is_mark(#[trigger] s[i])
    &&& close_cut(s)
}

/// Whether `s` can stand as a destination as it is.
pub open spec fn tidy_lhs(s: Seq<char>) -> bool {
    &&& forall|i: int| 0 <= i < s.len() ==> !is_lhs_mark(#[trigger] s[i])
    &&& close_cut(s)
}

/// Whether `s` can stand as an opcode as it is.
pub open spec fn tidy_op(s: Seq<char>) -> bool {
    &&& forall|i: int| 0 <= i < s.len() ==> !is_op_mark(#[trigger] s[i])
    &&& close_cut(s)
}

/// The digits of a number are digits, they are not empty, and they write
/// the number.
pub proof fn lemma_digits_read_back(n: nat)
    ensures
        digits(n).len() > 0,
        all_digits(digits(n)),
        digits_value(digits(n)) == n,
    decreases n,
{
    if n < 10 {
        let s = digits(n);
        assert(s.drop_last() =~= Seq::<char>::empty());
        assert(digits_value(s.drop_last()) == 0);
        assert(digit_value(digit_char(n as int)) == n);
    } else {
        lemma_digits_read_back(n / 10);
        let s = digits(n);
        let d = digit_char((n % 10) as int);
        assert(s.drop_last() =~= digits(n / 10));
        assert(s.last() == d);
        assert(digit_value(d) == n % 10);
        assert forall|i: int| 0 <= i < s.len() implies is_digit(#[trigger] s[i]) by {
            if i < s.len() - 1 {
                assert(s[i] == digits(n / 10)[i]);
            }
        }
    }
}

/// An integer that is not negative is read back from its decimal form.
pub proof fn lemma_decimal_reads_back(i: i32)
    requires
        i >= 0,
    ensures
        int_literal(decimal(i as int)) == Some(i),
        decimal(i as int).len() > 0,
        is_digit(decimal(i as int)[0]),
        tidy(decimal(i as int)),
{
    lemma_digits_read_back(i as nat);
    let s = decimal(i as int);
    assert(is_digit(s[0]));
    assert(is_digit(s.last()));
    assert forall|k: int| 0 <= k < s.len() implies !is_mark(#[trigger] s[k]) by {
        assert(is_digit(s[k]));
    }
}

/// A text in which the character does not occur is its own single piece.
pub proof fn lemma_split_none(s: Seq<char>, c: char)
    requires
        free_of(s, c),
    ensures
        split_on(s, c) == seq![s],
    decreases s.len(),
{
    if s.len() == 0 {
        assert(s =~= Seq::<char>::empty());
    } else {
        lemma_split_none(s.drop_last(), c);
        let parts = split_on(s.drop_last(), c);
        assert(parts.last().push(s.last()) =~= s);
        assert(parts.drop_last().push(s) =~= seq![s]);
    }
}

/// The pieces of two texts joined by the character are the pieces of the
/// first followed by the pieces of the second.
pub proof fn lemma_split_cat(a: Seq<char>, b: Seq<char>, c: char)
    ensures
        split_on(a + seq![c] + b, c) == split_on(a, c) + split_on(b, c),
    decreases b.len(),
{
    let s = a + seq![c] + b;
    if b.len() == 0 {
        assert(s.drop_last() =~= a);
        assert(split_on(a, c).push(Seq::empty()) =~= split_on(a, c) + split_on(b, c));
    } else {
        lemma_split_cat(a, b.drop_last(), c);
        lemma_split_count(b.drop_last(), c);
        assert(s.drop_last() =~= a + seq![c] + b.drop_last());
        assert(s.last() == b.last());
        let q = split_on(b.drop_last(), c);
        let p = split_on(a, c) + q;
        if b.last() == c {
            assert(p.push(Seq::empty()) =~= split_on(a, c) + q.push(Seq::empty()));
        } else {
            assert(p.last() == q.last());
            assert(p.drop_last() =~= split_on(a, c) + q.drop_last());
            assert(p.drop_last().push(p.last().push(b.last())) =~= split_on(a, c)
                + q.drop_last().push(q.last().push(b.last())));
        }
    }
}

/// Two texts in which the character does not occur, joined by it, split
/// into the two.
pub proof fn lemma_split_pair(a: Seq<char>, b: Seq<char>, c: char)
    requires
        free_of(a, c),
        free_of(b, c),
    ensures
        split_on(a + seq![c] + b, c) == seq![a, b],
{
    lemma_split_cat(a, b, c);
    lemma_split_none(a, c);
    lemma_split_none(b, c);
    assert(seq![a] + seq![b] =~= seq![a, b]);
}

/// A text without white space at its ends is its own trimmed form, with or
/// without a space added at either end.
pub proof fn lemma_trim_close_cut(s: Seq<char>)
    requires
        close_cut(s),
    ensures
        trim(s) == s,
        trim(seq![' '] + s) == s,
        trim(s + seq![' ']) == s,
{
    let lead = seq![' '] + s;
    let trail = s + seq![' '];
    assert(lead.drop_first() =~= s);
    assert(trail.drop_last() =~= s);
    assert(whitespace(' '));
    assert(trim_start(s) == s);
    assert(trim_end(s) == s);
    assert(lead[0] == ' ');
    assert(trim_start(lead) == trim_start(s));
    if s.len() == 0 {
        assert(trail[0] == ' ');
        assert(trail.drop_first() =~= s);
        assert(trim_start(trail) == trim_start(s));
    } else {
        assert(trail[0] == s[0]);
        assert(trim_start(trail) == trail);
        assert(trail.last() == ' ');
        assert(trim_end(trail) == trim_end(s));
    }
}


/// The position of the latest of the first `k` live instructions that
/// defines the temporary `name`.
pub open spec fn last_def(p: ProgramView, name: Seq<char>, k: int) -> Option<int>
    decreases k,
{
    if k <= 0 {
        None
    } else if is_temp_name(name) && p.inst(p.order[k - 1]).lhs == name {
        Some(k - 1)
    } else {
        last_def(p, name, k - 1)
    }
}

/// Whether the operand `v` of the instruction at position `k` is read back
/// as it is written: an integer that is not negative; a name that is tidy,
/// does not begin like a number and is no temporary; or the result of the
/// instruction that last defined its temporary before position `k`, where
/// the name of that temporary is tidy.
pub open spec fn operand_printable(p: ProgramView, k: int, v: ValueView) -> bool {
    match v {
        ValueView::Literal(Literal::Integer(i)) => i >= 0,
        ValueView::Literal(Literal::Float(_)) => false,
        ValueView::Variable(name) => tidy(name) && name.len() > 0 && !numeric(name[0])
            && !is_temp_name(name),
        ValueView::Inst(r) => tidy(p.inst(r).lhs) && (last_def(p, p.inst(r).lhs, k) matches Some(j)
            && p.order[j] == r),
    }
}

/// Whether the instruction at position `k` is read back as it is written:
/// its destination and opcode can stand as they are, it has an operand,
/// and each of its operands is read back.
pub open spec fn inst_printable(p: ProgramView, k: int) -> bool {
    let inst = p.inst(p.order[k]);
    &&& tidy_lhs(inst.lhs)
    &&& tidy_op(inst.op)
    &&& inst.args.len() > 0
    &&& forall|a: int| 0 <= a < inst.args.len() ==> operand_printable(p, k, #[trigger] inst.args[a])
}

/// Whether every live instruction of `p` is read back as it is written.
pub open spec fn printable(p: ProgramView) -> bool {
    forall|k: int| 0 <= k < p.order.len() ==> #[trigger] inst_printable(p, k)
}

/// The latest definition of a name lies before the position asked for, and
/// defines that name, which is a temporary.
pub proof fn lemma_last_def(p: ProgramView, name: Seq<char>, k: int)
    ensures
        last_def(p, name, k) matches Some(j) ==> 0 <= j < k && is_temp_name(name) && p.inst(
            p.order[j],
        ).lhs == name,
    decreases k,
{
    if k > 0 {
        lemma_last_def(p, name, k - 1);
    }
}

/// What is written for an operand that is read back is tidy and not empty.
pub proof fn lemma_operand_text_tidy(p: ProgramView, k: int, v: ValueView)
    requires
        printable(p),
        0 <= k < p.order.len(),
        operand_printable(p, k, v),
    ensures
        tidy(operand_text(p, v)),
        operand_text(p, v).len() > 0,
{
    match v {
        ValueView::Literal(Literal::Integer(i)) => {
            lemma_decimal_reads_back(i);
        },
        ValueView::Inst(r) => {
            lemma_last_def(p, p.inst(r).lhs, k);
        },
        _ => {},
    }
}

/// The texts of the first `n` operands of `args`, as `split_on` finds them
/// in the written list: the first as it is, the others after a space.
pub open spec fn spaced_texts(p: ProgramView, args: Seq<ValueView>, n: int) -> Seq<Seq<char>> {
    Seq::new(
        n as nat,
        |a: int|
            if a == 0 {
                operand_text(p, args[0])
            } else {
                seq![' '] + operand_text(p, args[a])
            },
    )
}

/// The written list of operands splits at the commas into the texts of the
/// operands; it holds no `=` and no bracket; and it ends as its last
/// operand ends.
pub proof fn lemma_operands_split(p: ProgramView, args: Seq<ValueView>, n: int)
    requires
        1 <= n <= args.len(),
        forall|a: int|
            0 <= a < n ==> tidy(#[trigger] operand_text(p, args[a])) && operand_text(
                p,
                args[a],
            ).len() > 0,
    ensures
        split_on(operands_text(p, args, n), ',') == spaced_texts(p, args, n),
        operands_text(p, args, n).len() > 0,
        operands_text(p, args, n).last() == operand_text(p, args[n - 1]).last(),
        free_of(operands_text(p, args, n), '='),
        free_of(operands_text(p, args, n), '('),
        free_of(operands_text(p, args, n), ')'),
    decreases n,
{
    let joined = operands_text(p, args, n);
    let t = operand_text(p, args[n - 1]);
    assert(tidy(t) && t.len() > 0);
    assert forall|i: int| 0 <= i < t.len() implies t[i] != ',' && t[i] != '=' && t[i] != '(' && t[i]
        != ')' by {
        assert(!is_mark(t[i]));
    }
    if n == 1 {
        lemma_split_none(t, ',');
        assert(seq![t] =~= spaced_texts(p, args, 1));
    } else {
        lemma_operands_split(p, args, n - 1);
        let before = operands_text(p, args, n - 1);
        let piece = seq![' '] + t;
        assert(joined =~= before + seq![','] + piece);
        lemma_split_cat(before, piece, ',');
        assert(free_of(piece, ','));
        lemma_split_none(piece, ',');
        assert(spaced_texts(p, args, n - 1) + seq![piece] =~= spaced_texts(p, args, n));
        assert(joined.last() == t.last());
    }
}

/// The line written for an instruction that is read back splits into its
/// destination, its opcode and the texts of its operands.
pub proof fn lemma_line_parts(p: ProgramView, k: int)
    requires
        printable(p),
        0 <= k < p.order.len(),
    ensures
        line_parts(line_body(p, p.order[k])) == Ok::<LineParts, ParseError>(
            LineParts {
                lhs: p.inst(p.order[k]).lhs,
                op: p.inst(p.order[k]).op,
                args: Seq::new(
                    p.inst(p.order[k]).args.len(),
                    |a: int| operand_text(p, p.inst(p.order[k]).args[a]),
                ),
            },
        ),
{
    let inst = p.inst(p.order[k]);
    let n = inst.args.len() as int;
    assert(inst_printable(p, k));
    assert forall|a: int| 0 <= a < n implies tidy(#[trigger] operand_text(p, inst.args[a]))
        && operand_text(p, inst.args[a]).len() > 0 by {
        assert(operand_printable(p, k, inst.args[a]));
        lemma_operand_text_tidy(p, k, inst.args[a]);
    }
    lemma_operands_split(p, inst.args, n);
    let joined = operands_text(p, inst.args, n);
    let line = line_body(p, p.order[k]);
    let left = inst.lhs + seq![' '];
    let rest = joined + seq![')'];
    let body = inst.op + seq!['('] + rest;
    let right = seq![' '] + body;
    assert(line =~= left + seq!['='] + right);
    assert forall|i: int| 0 <= i < inst.lhs.len() implies inst.lhs[i] != '=' by {
        assert(!is_lhs_mark(inst.lhs[i]));
    }
    assert forall|i: int| 0 <= i < inst.op.len() implies inst.op[i] != '=' && inst.op[i] != '(' by {
        assert(!is_op_mark(inst.op[i]));
    }
    assert(free_of(left, '='));
    assert(free_of(right, '='));
    lemma_split_pair(left, right, '=');
    let sides = split_on(line, '=');
    assert(sides[0] == left && sides[1] == right);
    lemma_trim_close_cut(inst.lhs);
    // The right side, trimmed, is the call.
    assert(!whitespace('(') && !whitespace(')'));
    assert(body.last() == ')');
    assert(body[0] == (if inst.op.len() > 0 {
        inst.op[0]
    } else {
        '('
    }));
    assert(close_cut(body));
    lemma_trim_close_cut(body);
    assert(trim(right) == body);
    assert(free_of(inst.op, '('));
    assert(free_of(rest, '('));
    lemma_split_pair(inst.op, rest, '(');
    let call = split_on(body, '(');
    assert(call[0] == inst.op && call[1] == rest);
    lemma_trim_close_cut(inst.op);
    // The closing bracket goes, and the operands stay.
    assert(rest.drop_last() =~= joined);
    assert(rest.last() == ')');
    assert(closed_once(rest));
    let pieces = split_on(joined, ',');
    let texts = Seq::new(n as nat, |a: int| operand_text(p, inst.args[a]));
    assert forall|a: int| 0 <= a < n implies trim(#[trigger] pieces[a]) == texts[a] by {
        let t = operand_text(p, inst.args[a]);
        assert(tidy(t));
        lemma_trim_close_cut(t);
    }
    assert(pieces.map_values(|t: Seq<char>| trim(t)) =~= texts);
}


/// The operand `v` with the instruction it names, if it names one, known by
/// its position in program order.
pub open spec fn renumber(p: ProgramView, v: ValueView) -> ValueView {
    match v {
        ValueView::Inst(r) => ValueView::Inst(InstRef(p.order.index_of(r) as usize)),
        _ => v,
    }
}

/// The instruction at position `k` as it is read back: the same
/// destination and opcode, the same operands with instructions known by
/// position, and no recorded use.
pub open spec fn reread_inst(p: ProgramView, k: int) -> InstView {
    let inst = p.inst(p.order[k]);
    InstView {
        lhs: inst.lhs,
        op: inst.op,
        args: inst.args.map_values(|v: ValueView| renumber(p, v)),
        use_set: Seq::empty(),
    }
}

/// The temporaries that the first `k` live instructions define, each with
/// its position, in order.
pub open spec fn bindings(p: ProgramView, k: int) -> Seq<(Seq<char>, InstRef)>
    decreases k,
{
    if k <= 0 {
        Seq::empty()
    } else if is_temp_name(p.inst(p.order[k - 1]).lhs) {
        bindings(p, k - 1).push((p.inst(p.order[k - 1]).lhs, InstRef((k - 1) as usize)))
    } else {
        bindings(p, k - 1)
    }
}

/// The program that reading back the first `k` lines gives: the first `k`
/// live instructions of `p`, in the same order, each in the arena slot of
/// its position.
pub open spec fn reread(p: ProgramView, k: int) -> ProgramView {
    ProgramView {
        insts: Seq::new(k as nat, |j: int| reread_inst(p, j)),
        order: Seq::new(k as nat, |j: int| InstRef(j as usize)),
        regs: bindings(p, k),
    }
}

/// A temporary is looked up among the bindings as the position of its
/// latest definition.
pub proof fn lemma_lookup_bindings(p: ProgramView, name: Seq<char>, k: int)
    ensures
        lookup_reg(bindings(p, k), name) == (match last_def(p, name, k) {
            Some(j) => Some(InstRef(j as usize)),
            None => None,
        }),
        !is_temp_name(name) ==> lookup_reg(bindings(p, k), name) is None,
    decreases k,
{
    if k > 0 {
        lemma_lookup_bindings(p, name, k - 1);
        let lhs = p.inst(p.order[k - 1]).lhs;
        if is_temp_name(lhs) {
            let b = bindings(p, k);
            assert(b.last() == (lhs, InstRef((k - 1) as usize)));
            assert(b.drop_last() =~= bindings(p, k - 1));
        }
    }
}

/// An operand that is read back is read as itself, with the instruction it
/// names known by position.
pub proof fn lemma_operand_reads_back(
    p: ProgramView,
    k: int,
    v: ValueView,
    float: spec_fn(Seq<char>) -> Option<u32>,
)
    requires
        p.wf(),
        printable(p),
        0 <= k < p.order.len(),
        operand_printable(p, k, v),
    ensures
        operand_value(bindings(p, k), operand_text(p, v), float) == Ok::<ValueView, ParseError>(
            renumber(p, v),
        ),
{
    lemma_operand_text_tidy(p, k, v);
    match v {
        ValueView::Literal(Literal::Integer(i)) => {
            lemma_decimal_reads_back(i);
        },
        ValueView::Inst(r) => {
            let name = p.inst(r).lhs;
            lemma_last_def(p, name, k);
            lemma_lookup_bindings(p, name, k);
            let j = last_def(p, name, k)->Some_0;
            p.lemma_successor_at(j);
            assert(name[0] == 'T');
            assert(!numeric(name[0]));
        },
        _ => {},
    }
}

/// The operands of an instruction that is read back are read as
/// themselves.
pub proof fn lemma_operands_read_back(
    p: ProgramView,
    k: int,
    float: spec_fn(Seq<char>) -> Option<u32>,
    n: int,
)
    requires
        p.wf(),
        printable(p),
        0 <= k < p.order.len(),
        0 <= n <= p.inst(p.order[k]).args.len(),
    ensures
        operand_values(
            bindings(p, k),
            Seq::new(
                p.inst(p.order[k]).args.len(),
                |a: int| operand_text(p, p.inst(p.order[k]).args[a]),
            ),
            float,
            n,
        ) == Ok::<Seq<ValueView>, ParseError>(
            p.inst(p.order[k]).args.take(n).map_values(|v: ValueView| renumber(p, v)),
        ),
    decreases n,
{
    let args = p.inst(p.order[k]).args;
    let texts = Seq::new(args.len(), |a: int| operand_text(p, args[a]));
    if n <= 0 {
        assert(args.take(0).map_values(|v: ValueView| renumber(p, v)) =~= Seq::<ValueView>::empty());
    } else {
        lemma_operands_read_back(p, k, float, n - 1);
        assert(inst_printable(p, k));
        assert(operand_printable(p, k, args[n - 1]));
        lemma_operand_reads_back(p, k, args[n - 1], float);
        assert(texts[n - 1] == operand_text(p, args[n - 1]));
        assert(args.take(n - 1).map_values(|v: ValueView| renumber(p, v)).push(
            renumber(p, args[n - 1]),
        ) =~= args.take(n).map_values(|v: ValueView| renumber(p, v)));
    }
}

/// Reading back the first `k` lines of a program gives its first `k` live
/// instructions.
pub proof fn lemma_lines_read_back(
    p: ProgramView,
    float: spec_fn(Seq<char>) -> Option<u32>,
    k: int,
)
    requires
        p.wf(),
        printable(p),
        p.order.len() <= usize::MAX,
        0 <= k <= p.order.len(),
    ensures
        parse_lines_spec(ProgramView::empty(), dump_lines(p), float, k) == Ok::<
            ProgramView,
            ParseError,
        >(reread(p, k)),
    decreases k,
{
    if k <= 0 {
        assert(reread(p, 0).insts =~= ProgramView::empty().insts);
        assert(reread(p, 0).order =~= ProgramView::empty().order);
    } else {
        lemma_lines_read_back(p, float, k - 1);
        let q = reread(p, k - 1);
        let inst = p.inst(p.order[k - 1]);
        lemma_line_parts(p, k - 1);
        lemma_operands_read_back(p, k - 1, float, inst.args.len() as int);
        assert(inst.args.take(inst.args.len() as int) =~= inst.args);
        assert(dump_lines(p)[k - 1] == line_body(p, p.order[k - 1]));
        let read = reread_inst(p, k - 1);
        assert(parse_line_spec(q, dump_lines(p)[k - 1], float) == Ok::<ProgramView, ParseError>(
            with_line(q, read),
        ));
        let next = with_line(q, read);
        assert(next.insts =~= reread(p, k).insts);
        assert(next.order =~= reread(p, k).order);
        assert(next.regs =~= reread(p, k).regs);
    }
}


/// No line of a program that is read back as it is written holds a line
/// break.
pub proof fn lemma_line_unbroken(p: ProgramView, k: int)
    requires
        printable(p),
        0 <= k < p.order.len(),
    ensures
        free_of(line_body(p, p.order[k]), '\n'),
{
    let inst = p.inst(p.order[k]);
    let n = inst.args.len() as int;
    assert(inst_printable(p, k));
    assert forall|a: int| 0 <= a < n implies free_of(#[trigger] operand_text(p, inst.args[a]), '\n') by {
        assert(operand_printable(p, k, inst.args[a]));
        lemma_operand_text_tidy(p, k, inst.args[a]);
        let t = operand_text(p, inst.args[a]);
        assert forall|i: int| 0 <= i < t.len() implies t[i] != '\n' by {
            assert(!is_mark(t[i]));
        }
    }
    lemma_operands_unbroken(p, inst.args, n);
    assert forall|i: int| 0 <= i < inst.lhs.len() implies inst.lhs[i] != '\n' by {
        assert(!is_lhs_mark(inst.lhs[i]));
    }
    assert forall|i: int| 0 <= i < inst.op.len() implies inst.op[i] != '\n' by {
        assert(!is_op_mark(inst.op[i]));
    }
}

/// A written list of operands holds no line break if no operand does.
pub proof fn lemma_operands_unbroken(p: ProgramView, args: Seq<ValueView>, n: int)
    requires
        0 <= n <= args.len(),
        forall|a: int| 0 <= a < n ==> free_of(#[trigger] operand_text(p, args[a]), '\n'),
    ensures
        free_of(operands_text(p, args, n), '\n'),
    decreases n,
{
    if n > 0 {
        lemma_operands_unbroken(p, args, n - 1);
        assert(free_of(operand_text(p, args[n - 1]), '\n'));
    }
}

/// The text of the first `k` live instructions, without the line break at
/// its end, splits at the line breaks into their lines.
pub proof fn lemma_text_splits(p: ProgramView, k: int)
    requires
        printable(p),
        1 <= k <= p.order.len(),
    ensures
        split_on(dump_upto(p, k - 1) + line_body(p, p.order[k - 1]), '\n') == dump_lines(p).take(k),
        dump_upto(p, k) == dump_upto(p, k - 1) + line_body(p, p.order[k - 1]) + seq!['\n'],
    decreases k,
{
    let line = line_body(p, p.order[k - 1]);
    lemma_line_unbroken(p, k - 1);
    assert(dump_upto(p, k) =~= dump_upto(p, k - 1) + line + seq!['\n']);
    if k == 1 {
        assert(dump_upto(p, 0) + line =~= line);
        lemma_split_none(line, '\n');
        assert(seq![line] =~= dump_lines(p).take(1));
    } else {
        lemma_text_splits(p, k - 1);
        let before = dump_upto(p, k - 2) + line_body(p, p.order[k - 2]);
        assert(dump_upto(p, k - 1) + line =~= before + seq!['\n'] + line);
        lemma_split_cat(before, line, '\n');
        lemma_split_none(line, '\n');
        assert(dump_lines(p).take(k - 1) + seq![line] =~= dump_lines(p).take(k));
    }
}

/// What is written for an operand that was read back is what was written
/// for it before.
pub proof fn lemma_operands_written_alike(p: ProgramView, k: int, m: int)
    requires
        p.wf(),
        printable(p),
        p.order.len() <= usize::MAX,
        0 <= k < p.order.len(),
        0 <= m <= p.inst(p.order[k]).args.len(),
    ensures
        operands_text(
            reread(p, p.order.len() as int),
            reread_inst(p, k).args,
            m,
        ) == operands_text(p, p.inst(p.order[k]).args, m),
    decreases m,
{
    let n = p.order.len() as int;
    let q = reread(p, n);
    let args = p.inst(p.order[k]).args;
    let read = reread_inst(p, k).args;
    if m > 0 {
        lemma_operands_written_alike(p, k, m - 1);
        assert forall|a: int| 0 <= a < m implies operand_text(q, #[trigger] read[a]) == operand_text(
            p,
            args[a],
        ) by {
            assert(inst_printable(p, k));
            assert(operand_printable(p, k, args[a]));
            assert(read[a] == renumber(p, args[a]));
            match args[a] {
                ValueView::Inst(r) => {
                    let name = p.inst(r).lhs;
                    lemma_last_def(p, name, k);
                    let j = last_def(p, name, k)->Some_0;
                    p.lemma_successor_at(j);
                    assert(q.inst(InstRef(j as usize)) == reread_inst(p, j));
                },
                _ => {},
            }
        }
    }
}

/// The first `m` lines of what was read back are the first `m` lines of
/// what was written.
pub proof fn lemma_written_alike(p: ProgramView, m: int)
    requires
        p.wf(),
        printable(p),
        p.order.len() <= usize::MAX,
        0 <= m <= p.order.len(),
    ensures
        dump_upto(reread(p, p.order.len() as int), m) == dump_upto(p, m),
    decreases m,
{
    let n = p.order.len() as int;
    let q = reread(p, n);
    if m > 0 {
        lemma_written_alike(p, m - 1);
        let k = m - 1;
        assert(q.order[k] == InstRef(k as usize));
        assert(q.inst(q.order[k]) == reread_inst(p, k));
        lemma_operands_written_alike(p, k, p.inst(p.order[k]).args.len() as int);
        assert(line_body(q, q.order[k]) == line_body(p, p.order[k]));
    }
}

/// Writing a program and reading it back gives the same instructions in
/// the same order.
///
/// For a program that is read back as it is written, the text of the dump
/// splits at the line breaks into one line for each live instruction,
/// followed by nothing; and these lines, read in order into the empty
/// program, give a program with the same destinations, opcodes and operands
/// in the same order, where an operand that named an instruction names the
/// instruction at the same position; and what was read back is written as
/// the same text.
pub proof fn lemma_dump_parse_round_trip(p: ProgramView, float: spec_fn(Seq<char>) -> Option<u32>)
    requires
        p.wf(),
        printable(p),
        p.order.len() <= usize::MAX,
    ensures
        split_on(dump_spec(p), '\n') == dump_lines(p).push(Seq::empty()),
        parse_lines_spec(ProgramView::empty(), dump_lines(p), float, p.order.len() as int) == Ok::<
            ProgramView,
            ParseError,
        >(reread(p, p.order.len() as int)),
        reread(p, p.order.len() as int).order.len() == p.order.len(),
        dump_spec(reread(p, p.order.len() as int)) == dump_spec(p),
        forall|k: int|
            #![trigger p.order[k]]
            0 <= k < p.order.len() ==> {
                let back = reread(p, p.order.len() as int);
                let read = back.inst(back.order[k]);
                let written = p.inst(p.order[k]);
                &&& read.lhs == written.lhs
                &&& read.op == written.op
                &&& read.args == written.args.map_values(|v: ValueView| renumber(p, v))
            },
{
    let n = p.order.len() as int;
    lemma_lines_read_back(p, float, n);
    lemma_written_alike(p, n);
    if n == 0 {
        assert(dump_lines(p).push(Seq::empty()) =~= seq![Seq::<char>::empty()]);
    } else {
        lemma_text_splits(p, n);
        let body = dump_upto(p, n - 1) + line_body(p, p.order[n - 1]);
        assert(dump_spec(p) =~= body + seq!['\n'] + Seq::<char>::empty());
        lemma_split_cat(body, Seq::empty(), '\n');
        assert(dump_lines(p).take(n) =~= dump_lines(p));
        assert(dump_lines(p) + seq![Seq::<char>::empty()] =~= dump_lines(p).push(Seq::empty()));
    }
}


fn is_close_cut(s: &Vec<char>) -> (r: bool)
    ensures
        r == close_cut(s@),
{
    s.len() == 0 || (!is_whitespace(s[0]) && !is_whitespace(s[s.len() - 1]))
}

/// Whether `s` can stand as an operand as it is.
fn is_tidy(s: &Vec<char>) -> (r: bool)
    ensures
        r == tidy(s@),
{
    let mut i: usize = 0;
    while i < s.len()
        invariant
            i <= s.len(),
            forall|j: int| 0 <= j < i ==> !is_mark(#[trigger] s@[j]),
        decreases s.len() - i,
    {
        let c = s[i];
        if c == '=' || c == '(' || c == ')' || c == ',' || c == '\n' {
            assert(is_mark(s@[i as int]));
            return false;
        }
        i += 1;
    }
    is_close_cut(s)
}

/// Whether `s` can stand as a destination as it is.
fn is_tidy_lhs(s: &Vec<char>) -> (r: bool)
    ensures
        r == tidy_lhs(s@),
{
    let mut i: usize = 0;
    while i < s.len()
        invariant
            i <= s.len(),
            forall|j: int| 0 <= j < i ==> !is_lhs_mark(#[trigger] s@[j]),
        decreases s.len() - i,
    {
        let c = s[i];
        if c == '=' || c == '\n' {
            assert(is_lhs_mark(s@[i as int]));
            return false;
        }
        i += 1;
    }
    is_close_cut(s)
}

/// Whether `s` can stand as an opcode as it is.
fn is_tidy_op(s: &Vec<char>) -> (r: bool)
    ensures
        r == tidy_op(s@),
{
    let mut i: usize = 0;
    while i < s.len()
        invariant
            i <= s.len(),
            forall|j: int| 0 <= j < i ==> !is_op_mark(#[trigger] s@[j]),
        decreases s.len() - i,
    {
        let c = s[i];
        if c == '=' || c == '(' || c == '\n' {
            assert(is_op_mark(s@[i as int]));
            return false;
        }
        i += 1;
    }
    is_close_cut(s)
}

impl Program {
    /// The position of the latest of the first `k` live instructions that
    /// defines the temporary `name`.
    fn latest_def(&self, live: &Vec<InstRef>, name: &String, k: usize) -> (r: Option<usize>)
        requires
            self.inv(),
            live@ == self@.order,
            k <= live.len(),
        ensures
            r matches Some(j) ==> j < k,
            last_def(self@, name@, k as int) == (match r {
                Some(j) => Some(j as int),
                None => None,
            }),
    {
        proof {
            self.lemma_inv_wf();
            lemma_last_def(self@, name@, k as int);
        }
        if !is_temp(name) {
            return None;
        }
        let mut j: usize = k;
        while j > 0
            invariant
                self.inv(),
                self@.wf(),
                live@ == self@.order,
                j <= k,
                k <= live.len(),
                is_temp_name(name@),
                last_def(self@, name@, k as int) == last_def(self@, name@, j as int),
            decreases j,
        {
            assert(self@.order[j - 1] == live[j - 1]);
            if *self.get_inst(live[j - 1]).lhs() == *name {
                return Some(j - 1);
            }
            j -= 1;
        }
        None
    }

    /// Whether the operand `v` of the instruction at position `k` is read
    /// back as it is written.
    fn operand_is_printable(&self, live: &Vec<InstRef>, k: usize, v: &Value) -> (b: bool)
        requires
            self.inv(),
            live@ == self@.order,
            k < live.len(),
            value_below(v@, self@.insts.len()),
        ensures
            b == operand_printable(self@, k as int, v@),
    {
        match v {
            Value::Literal(Literal::Integer(i)) => *i >= 0,
            Value::Literal(Literal::Float(_)) => false,
            Value::Variable(name) => {
                let c = chars_of(name.as_str());
                is_tidy(&c) && c.len() > 0 && !is_numeric(c[0]) && !is_temp(name)
            },
            Value::Inst(r) => {
                let lhs = self.get_inst(*r).lhs();
                let c = chars_of(lhs.as_str());
                if !is_tidy(&c) {
                    return false;
                }
                match self.latest_def(live, lhs, k) {
                    Some(j) => live[j] == *r,
                    None => false,
                }
            },
        }
    }

    /// Whether the program is read back as it is written: whether its dump,
    /// read line by line into an empty program, gives the same instructions
    /// in the same order.
    pub fn is_printable(&self) -> (b: bool)
        requires
            self.inv(),
        ensures
            b == printable(self@),
    {
        proof {
            self.lemma_inv_wf();
        }
        let ghost p = self@;
        let live = self.live_order();
        let mut k: usize = 0;
        while k < live.len()
            invariant
                self.inv(),
                p == self@,
                p.wf(),
                live@ == p.order,
                k <= live.len(),
                forall|j: int| 0 <= j < k ==> #[trigger] inst_printable(p, j),
            decreases live.len() - k,
        {
            let node = live[k];
            assert(p.order[k as int] == node);
            let inst = self.get_inst(node);
            let lhs = chars_of(inst.lhs().as_str());
            let op = chars_of(inst.op().as_str());
            let n = self.args_len(node);
            if !is_tidy_lhs(&lhs) || !is_tidy_op(&op) || n == 0 {
                assert(!inst_printable(p, k as int));
                return false;
            }
            let mut a: usize = 0;
            while a < n
                invariant
                    self.inv(),
                    p == self@,
                    p.wf(),
                    live@ == p.order,
                    k < live.len(),
                    node == p.order[k as int],
                    p.has(node),
                    n == p.inst(node).args.len(),
                    a <= n,
                    forall|b: int|
                        0 <= b < a ==> operand_printable(p, k as int, #[trigger] p.inst(node).args[b]),
                decreases n - a,
            {
                assert(p.insts[node.0 as int].closed_below(p.insts.len()));
                if !self.operand_is_printable(&live, k, self.arg(node, a)) {
                    assert(!operand_printable(p, k as int, p.inst(node).args[a as int]));
                    assert(!inst_printable(p, k as int));
                    return false;
                }
                a += 1;
            }
            assert(inst_printable(p, k as int));
            k += 1;
        }
        true
    }
}

} // verus!
