//! The reading of a program from text, one instruction on each line:
//! `destination = opcode(operand, operand, ...)`.

use vstd::prelude::*;
use vstd::string::StringExecFns;
use crate::floats::{answers_parse, ask_parse, parse_model};
use crate::ir::{canonical_bits, values_view, InstRef, Literal, SafeF32, Value, ValueView};
use crate::program::{args_below, lookup_reg, Inst, InstView, Program, ProgramView};
use crate::scan::{
    chars_of,
    closed_once,
    free_of,
    is_closed_once,
    int_literal,
    is_numeric,
    lemma_split_count,
    occurrences,
    parts_view,
    read_int,
    split_chars,
    split_on,
    string_of,
    trim,
    trim_chars,
    numeric,
};
use crate::text::{is_temp, is_temp_name, texts_view};

verus! {

/// Why a line is not an instruction.
#[derive(Copy, Clone, PartialEq, Eq, Debug, Structural)]
pub enum ParseError {
    /// The line does not hold exactly one `=`.
    Assignment,
    /// What follows the `=` is not an opcode, one `(`, operands and one `)`
    /// at the end.
    Call,
    /// An operand is empty.
    EmptyOperand,
    /// An operand begins like a number and is neither an integer nor a float.
    InvalidLiteral,
    /// An operand names a temporary that no earlier line defines.
    UndefinedTemporary,
}

impl ParseError {
    /// What the error says, in words.
    pub open spec fn text(self) -> Seq<char> {
        match self {
            ParseError::Assignment => "a line must hold exactly one `=`"@,
            ParseError::Call => "an instruction must hold one `(` and end in its one `)`"@,
            ParseError::EmptyOperand => "an operand is empty"@,
            ParseError::InvalidLiteral => "invalid literal"@,
            ParseError::UndefinedTemporary => "temporary used before definition"@,
        }
    }

    /// What the error says, in words.
    pub fn message(&self) -> (r: String)
        ensures
            r@ == self.text(),
    {
        match self {
            ParseError::Assignment => String::from_str("a line must hold exactly one `=`"),
            ParseError::Call => String::from_str("an instruction must hold one `(` and end in its one `)`"),
            ParseError::EmptyOperand => String::from_str("an operand is empty"),
            ParseError::InvalidLiteral => String::from_str("invalid literal"),
            ParseError::UndefinedTemporary => String::from_str("temporary used before definition"),
        }
    }
}

/// The parts of a line: destination, opcode and operands, each trimmed.
pub struct LineParts {
    pub lhs: Seq<char>,
    pub op: Seq<char>,
    pub args: Seq<Seq<char>>,
}

/// The parts of `line`. The line must hold exactly one `=`. What follows
/// it, trimmed, must hold exactly one `(`, end in `)` and hold no other `)`.
/// The operands are what stands between the two brackets, split at each
/// comma.
pub open spec fn line_parts(line: Seq<char>) -> Result<LineParts, ParseError> {
    let sides = split_on(line, '=');
    if sides.len() != 2 {
        Err(ParseError::Assignment)
    } else {
        let call = split_on(trim(sides[1]), '(');
        if call.len() != 2 || !closed_once(call[1]) {
            Err(ParseError::Call)
        } else {
            Ok(
                LineParts {
                    lhs: trim(sides[0]),
                    op: trim(call[0]),
                    args: split_on(call[1].drop_last(), ',').map_values(|t: Seq<char>| trim(t)),
                },
            )
        }
    }
}

/// The operand that `token` writes. One that begins with a numeric
/// character is a literal: an integer if it reads as one, else the float
/// that `float` reads it as. One that begins with the prefix of temporaries
/// is the instruction that last defined that temporary. Any other is a named
/// operand.
pub open spec fn operand_value(
    regs: Seq<(Seq<char>, InstRef)>,
    token: Seq<char>,
    float: spec_fn(Seq<char>) -> Option<u32>,
) -> Result<ValueView, ParseError> {
    if token.len() == 0 {
        Err(ParseError::EmptyOperand)
    } else if numeric(token[0]) {
        match int_literal(token) {
            Some(i) => Ok(ValueView::Literal(Literal::Integer(i))),
            None => match float(token) {
                Some(bits) => Ok(ValueView::Literal(Literal::Float(SafeF32(canonical_bits(bits))))),
                None => Err(ParseError::InvalidLiteral),
            },
        }
    } else if is_temp_name(token) {
        match lookup_reg(regs, token) {
            Some(r) => Ok(ValueView::Inst(r)),
            None => Err(ParseError::UndefinedTemporary),
        }
    } else {
        Ok(ValueView::Variable(token))
    }
}

/// The operands that the first `n` of `tokens` write, or the error of the
/// first of them that writes none.
pub open spec fn operand_values(
    regs: Seq<(Seq<char>, InstRef)>,
    tokens: Seq<Seq<char>>,
    float: spec_fn(Seq<char>) -> Option<u32>,
    n: int,
) -> Result<Seq<ValueView>, ParseError>
    decreases n,
{
    if n <= 0 {
        Ok(Seq::empty())
    } else {
        match operand_values(regs, tokens, float, n - 1) {
            Err(e) => Err(e),
            Ok(values) => match operand_value(regs, tokens[n - 1], float) {
                Err(e) => Err(e),
                Ok(v) => Ok(values.push(v)),
            },
        }
    }
}

/// The instruction that `line` writes in the program `p`.
pub open spec fn line_inst(
    p: ProgramView,
    line: Seq<char>,
    float: spec_fn(Seq<char>) -> Option<u32>,
) -> Result<InstView, ParseError> {
    match line_parts(line) {
        Err(e) => Err(e),
        Ok(parts) => match operand_values(p.regs, parts.args, float, parts.args.len() as int) {
            Err(e) => Err(e),
            Ok(args) => Ok(
                InstView { lhs: parts.lhs, op: parts.op, args, use_set: Seq::empty() },
            ),
        },
    }
}

/// The program with `inst` put last, and bound to its destination where
/// that is a temporary.
pub open spec fn with_line(p: ProgramView, inst: InstView) -> ProgramView {
    let r = InstRef(p.insts.len() as usize);
    if is_temp_name(inst.lhs) {
        p.append(inst).bind(inst.lhs, r)
    } else {
        p.append(inst)
    }
}

/// The program after `line` is read, or why the line is not an instruction.
pub open spec fn parse_line_spec(
    p: ProgramView,
    line: Seq<char>,
    float: spec_fn(Seq<char>) -> Option<u32>,
) -> Result<ProgramView, ParseError> {
    match line_inst(p, line, float) {
        Err(e) => Err(e),
        Ok(inst) => Ok(with_line(p, inst)),
    }
}

/// The program after the first `n` of `lines` are read in turn, or the error
/// of the first line that is not an instruction.
pub open spec fn parse_lines_spec(
    p: ProgramView,
    lines: Seq<Seq<char>>,
    float: spec_fn(Seq<char>) -> Option<u32>,
    n: int,
) -> Result<ProgramView, ParseError>
    decreases n,
{
    if n <= 0 {
        Ok(p)
    } else {
        match parse_lines_spec(p, lines, float, n - 1) {
            Err(e) => Err(e),
            Ok(q) => parse_line_spec(q, lines[n - 1], float),
        }
    }
}

/// The program that reading the first `n` of `lines` leaves: the lines are
/// read in turn up to the first that is no instruction, which adds nothing.
pub open spec fn parse_lines_state(
    p: ProgramView,
    lines: Seq<Seq<char>>,
    float: spec_fn(Seq<char>) -> Option<u32>,
    n: int,
) -> ProgramView
    decreases n,
{
    if n <= 0 {
        p
    } else {
        match parse_lines_spec(p, lines, float, n - 1) {
            Err(_) => parse_lines_state(p, lines, float, n - 1),
            Ok(q) => match parse_line_spec(q, lines[n - 1], float) {
                Err(_) => q,
                Ok(r) => r,
            },
        }
    }
}

/// A line that does not hold exactly one `=` is no instruction, whatever
/// else it holds: one with none, and one with two or more, is refused.
pub proof fn lemma_needs_one_assignment(
    p: ProgramView,
    line: Seq<char>,
    float: spec_fn(Seq<char>) -> Option<u32>,
)
    requires
        occurrences(line, '=') != 1,
    ensures
        parse_line_spec(p, line, float) == Err::<ProgramView, ParseError>(ParseError::Assignment),
{
    lemma_split_count(line, '=');
}

/// A line whose right side does not end in a closing bracket is no
/// instruction: the bracket that was opened must be closed.
pub proof fn lemma_needs_closing_bracket(
    p: ProgramView,
    line: Seq<char>,
    float: spec_fn(Seq<char>) -> Option<u32>,
)
    requires
        split_on(line, '=').len() == 2,
        trim(split_on(line, '=')[1]).len() == 0 || trim(split_on(line, '=')[1]).last() != ')',
    ensures
        parse_line_spec(p, line, float) == Err::<ProgramView, ParseError>(ParseError::Call),
{
    let right = trim(split_on(line, '=')[1]);
    if right.len() > 0 {
        // The last piece ends as the text ends, unless the text ends in `(`.
        lemma_split_count(right.drop_last(), '(');
    }
}

/// A line with a closing bracket before the last character of its right
/// side is no instruction.
pub proof fn lemma_needs_one_closing_bracket(
    p: ProgramView,
    line: Seq<char>,
    float: spec_fn(Seq<char>) -> Option<u32>,
)
    requires
        split_on(line, '=').len() == 2,
        split_on(trim(split_on(line, '=')[1]), '(').len() == 2,
        !free_of(split_on(trim(split_on(line, '=')[1]), '(')[1].drop_last(), ')'),
    ensures
        parse_line_spec(p, line, float) == Err::<ProgramView, ParseError>(ParseError::Call),
{
}

/// A line that is refused is refused for every program and adds nothing to
/// it; a list of lines with such a line gives no program.
pub proof fn lemma_bad_line_gives_no_program(
    p: ProgramView,
    lines: Seq<Seq<char>>,
    float: spec_fn(Seq<char>) -> Option<u32>,
    at: int,
)
    requires
        0 <= at < lines.len(),
        occurrences(lines[at], '=') != 1,
    ensures
        parse_lines_spec(p, lines, float, lines.len() as int) is Err,
{
    lemma_split_count(lines[at], '=');
    match parse_lines_spec(p, lines, float, at) {
        Ok(q) => {
            assert(parse_lines_spec(p, lines, float, at + 1) is Err);
            lemma_first_line_error(p, lines, float, at + 1, lines.len() as int);
        },
        Err(_) => {
            lemma_first_line_error(p, lines, float, at, lines.len() as int);
        },
    }
}

/// An empty operand writes no value, and neither does a temporary that no
/// binding defines. Any other operand that does not begin like a number is
/// a named operand.
pub proof fn lemma_operand_without_number(
    regs: Seq<(Seq<char>, InstRef)>,
    token: Seq<char>,
    float: spec_fn(Seq<char>) -> Option<u32>,
)
    requires
        token.len() == 0 || !numeric(token[0]),
    ensures
        operand_value(regs, token, float) == (if token.len() == 0 {
            Err::<ValueView, ParseError>(ParseError::EmptyOperand)
        } else if is_temp_name(token) {
            match lookup_reg(regs, token) {
                Some(r) => Ok(ValueView::Inst(r)),
                None => Err(ParseError::UndefinedTemporary),
            }
        } else {
            Ok(ValueView::Variable(token))
        }),
{
}

impl Program {
    /// The operand that `token` writes.
    fn read_operand<P: Fn(&str) -> Option<u32>>(&self, token: &Vec<char>, float: &P) -> (r: Result<
        Value,
        ParseError,
    >)
        requires
            self.inv(),
            answers_parse(float),
        ensures
            match operand_value(self@.regs, token@, parse_model(float)) {
                Ok(v) => r is Ok && r->Ok_0@ == v && crate::program::value_below(
                    v,
                    self@.insts.len(),
                ),
                Err(e) => r == Err::<Value, ParseError>(e),
            },
    {
        if token.len() == 0 {
            return Err(ParseError::EmptyOperand);
        }
        assert(token@.subrange(0, token.len() as int) =~= token@);
        if is_numeric(token[0]) {
            match read_int(token) {
                Some(i) => Ok(Value::Literal(Literal::Integer(i))),
                None => {
                    let text = string_of(token, 0, token.len());
                    match ask_parse(float, text.as_str()) {
                        Some(bits) => Ok(Value::Literal(Literal::Float(SafeF32::from_bits(bits)))),
                        None => Err(ParseError::InvalidLiteral),
                    }
                },
            }
        } else {
            let name = string_of(token, 0, token.len());
            if is_temp(&name) {
                match self.lookup_temp(&name) {
                    Some(r) => Ok(Value::Inst(r)),
                    None => Err(ParseError::UndefinedTemporary),
                }
            } else {
                Ok(Value::Variable(name))
            }
        }
    }

    /// Reads one line and puts its instruction last. A destination that is
    /// a temporary is bound to the instruction for the lines that follow. A
    /// line that is no instruction leaves the program as it was.
    pub fn parse_line<P: Fn(&str) -> Option<u32>>(&mut self, line: &str, float: &P) -> (r: Result<
        (),
        ParseError,
    >)
        requires
            old(self).inv(),
            answers_parse(float),
        ensures
            final(self).inv(),
            match parse_line_spec(old(self)@, line@, parse_model(float)) {
                Ok(q) => r is Ok && final(self)@ == q,
                Err(e) => r == Err::<(), ParseError>(e) && final(self)@ == old(self)@,
            },
    {
        let ghost fm = parse_model(float);
        let ghost p = self@;
        let chars = chars_of(line);
        assert(chars@.subrange(0, chars.len() as int) =~= chars@);
        let sides = split_chars(&chars, 0, chars.len(), '=');
        if sides.len() != 2 {
            return Err(ParseError::Assignment);
        }
        assert(parts_view(sides@)[0] == sides[0]@ && parts_view(sides@)[1] == sides[1]@);
        let lhs = trim_chars(&sides[0]);
        let rhs = trim_chars(&sides[1]);
        assert(rhs@.subrange(0, rhs.len() as int) =~= rhs@);
        let call = split_chars(&rhs, 0, rhs.len(), '(');
        if call.len() != 2 {
            return Err(ParseError::Call);
        }
        assert(parts_view(call@)[0] == call[0]@ && parts_view(call@)[1] == call[1]@);
        let op = trim_chars(&call[0]);
        let inner = &call[1];
        if !is_closed_once(inner) {
            return Err(ParseError::Call);
        }
        let end = inner.len() - 1;
        assert(inner@.subrange(0, end as int) =~= inner@.drop_last());
        let tokens = split_chars(inner, 0, end, ',');
        let ghost raw = split_on(call[1]@.drop_last(), ',');
        let ghost trimmed = raw.map_values(|t: Seq<char>| trim(t));
        assert(line_parts(line@) == Ok::<LineParts, ParseError>(
            LineParts { lhs: lhs@, op: op@, args: trimmed },
        ));
        let mut args: Vec<Value> = Vec::new();
        let mut i: usize = 0;
        assert(values_view(args@) =~= Seq::<ValueView>::empty());
        while i < tokens.len()
            invariant
                self.inv(),
                self@ == p,
                p == old(self)@,
                answers_parse(float),
                fm == parse_model(float),
                line_parts(line@) == Ok::<LineParts, ParseError>(
                    LineParts { lhs: lhs@, op: op@, args: trimmed },
                ),
                i <= tokens.len(),
                parts_view(tokens@) == raw,
                trimmed == raw.map_values(|t: Seq<char>| trim(t)),
                operand_values(p.regs, trimmed, fm, i as int) == Ok::<Seq<ValueView>, ParseError>(
                    values_view(args@),
                ),
                args_below(values_view(args@), p.insts.len()),
            decreases tokens.len() - i,
        {
            assert(parts_view(tokens@)[i as int] == tokens[i as int]@);
            let token = trim_chars(&tokens[i]);
            assert(token@ == trimmed[i as int]);
            match self.read_operand(&token, float) {
                Ok(v) => {
                    let ghost before = values_view(args@);
                    args.push(v);
                    assert(values_view(args@) =~= before.push(v@));
                },
                Err(e) => {
                    proof {
                        assert(operand_value(p.regs, trimmed[i as int], fm) == Err::<
                            ValueView,
                            ParseError,
                        >(e));
                        assert(operand_values(p.regs, trimmed, fm, i + 1) == Err::<
                            Seq<ValueView>,
                            ParseError,
                        >(e));
                        assert(trimmed.len() == tokens.len());
                        lemma_first_error(p.regs, trimmed, fm, i + 1, trimmed.len() as int);
                    }
                    return Err(e);
                },
            }
            i += 1;
        }
        assert(lhs@.subrange(0, lhs.len() as int) =~= lhs@);
        assert(op@.subrange(0, op.len() as int) =~= op@);
        let name = string_of(&lhs, 0, lhs.len());
        let temp = is_temp(&name);
        let inst = Inst::new(name.clone(), string_of(&op, 0, op.len()), args);
        let r = self.insert_tail(inst);
        if temp {
            self.bind_temp(name, r);
        }
        Ok(())
    }

    /// Reads `lines` in turn. At the first that is no instruction the
    /// reading stops with its error, and the program holds the lines before
    /// it.
    pub fn parse<P: Fn(&str) -> Option<u32>>(&mut self, lines: &Vec<String>, float: &P) -> (r: Result<
        (),
        ParseError,
    >)
        requires
            old(self).inv(),
            answers_parse(float),
        ensures
            final(self).inv(),
            match parse_lines_spec(
                old(self)@,
                texts_view(lines@),
                parse_model(float),
                lines@.len() as int,
            ) {
                Ok(q) => r is Ok && final(self)@ == q,
                Err(e) => r == Err::<(), ParseError>(e),
            },
            final(self)@ == parse_lines_state(
                old(self)@,
                texts_view(lines@),
                parse_model(float),
                lines@.len() as int,
            ),
    {
        let ghost fm = parse_model(float);
        let ghost p = self@;
        let ghost texts = texts_view(lines@);
        let mut i: usize = 0;
        while i < lines.len()
            invariant
                self.inv(),
                p == old(self)@,
                answers_parse(float),
                fm == parse_model(float),
                texts == texts_view(lines@),
                i <= lines.len(),
                parse_lines_spec(p, texts, fm, i as int) == Ok::<ProgramView, ParseError>(self@),
                parse_lines_state(p, texts, fm, i as int) == self@,
            decreases lines.len() - i,
        {
            assert(texts[i as int] == lines[i as int]@);
            let ghost before = self@;
            match self.parse_line(lines[i].as_str(), float) {
                Ok(()) => {},
                Err(e) => {
                    proof {
                        assert(parse_line_spec(before, texts[i as int], fm) == Err::<
                            ProgramView,
                            ParseError,
                        >(e));
                        assert(parse_lines_spec(p, texts, fm, i + 1) == Err::<
                            ProgramView,
                            ParseError,
                        >(e));
                        assert(texts.len() == lines.len());
                        lemma_first_line_error(p, texts, fm, i + 1, texts.len() as int);
                        assert(parse_lines_state(p, texts, fm, i + 1) == self@);
                        lemma_state_after_error(p, texts, fm, i + 1, texts.len() as int);
                    }
                    return Err(e);
                },
            }
            i += 1;
        }
        Ok(())
    }
}

/// Once an operand writes no value, no more operands are read: the error
/// stays that of the first such operand.
pub proof fn lemma_first_error(
    regs: Seq<(Seq<char>, InstRef)>,
    tokens: Seq<Seq<char>>,
    float: spec_fn(Seq<char>) -> Option<u32>,
    n: int,
    m: int,
)
    requires
        0 <= n <= m,
        operand_values(regs, tokens, float, n) is Err,
    ensures
        operand_values(regs, tokens, float, m) == operand_values(regs, tokens, float, n),
    decreases m - n,
{
    if n < m {
        lemma_first_error(regs, tokens, float, n, m - 1);
    }
}

/// Once a line is no instruction, the program stays as that line found it.
pub proof fn lemma_state_after_error(
    p: ProgramView,
    lines: Seq<Seq<char>>,
    float: spec_fn(Seq<char>) -> Option<u32>,
    n: int,
    m: int,
)
    requires
        0 <= n <= m,
        parse_lines_spec(p, lines, float, n) is Err,
    ensures
        parse_lines_state(p, lines, float, m) == parse_lines_state(p, lines, float, n),
    decreases m - n,
{
    if n < m {
        lemma_state_after_error(p, lines, float, n, m - 1);
        lemma_first_line_error(p, lines, float, n, m - 1);
    }
}

/// Once a line is no instruction, no more lines are read: the error stays
/// that of the first such line.
pub proof fn lemma_first_line_error(
    p: ProgramView,
    lines: Seq<Seq<char>>,
    float: spec_fn(Seq<char>) -> Option<u32>,
    n: int,
    m: int,
)
    requires
        0 <= n <= m,
        parse_lines_spec(p, lines, float, n) is Err,
    ensures
        parse_lines_spec(p, lines, float, m) == parse_lines_spec(p, lines, float, n),
    decreases m - n,
{
    if n < m {
        lemma_first_line_error(p, lines, float, n, m - 1);
    }
}

} // verus!
