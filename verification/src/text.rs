//! Names and numbers as text: the reserved prefix of temporaries, the opcode
//! suffix of immediate forms, and the decimal form of integers.

use vstd::prelude::*;

verus! {

/// Appends `c` to `s`.
///
/// Trusted: this is `String::push` of the standard library, which appends the
/// given character to the end of the string.
#[verifier::external_body]
pub(crate) fn push_char(s: &mut String, c: char)
    ensures
        final(s)@ == old(s)@.push(c),
{
    s.push(c)
}

/// The texts that `v` holds.
pub open spec fn texts_view(v: Seq<String>) -> Seq<Seq<char>> {
    v.map_values(|s: String| s@)
}

/// Whether `name` is a temporary: it begins with the reserved prefix `T_`.
pub open spec fn is_temp_name(name: Seq<char>) -> bool {
    name.len() >= 2 && name[0] == 'T' && name[1] == '_'
}

/// Whether `name` begins with the reserved prefix of temporaries.
pub fn is_temp(name: &String) -> (r: bool)
    ensures
        r == is_temp_name(name@),
{
    let s = name.as_str();
    let n = s.unicode_len();
    n >= 2 && s.get_char(0) == 'T' && s.get_char(1) == '_'
}

/// The suffix that marks an opcode as taking an immediate operand.
pub open spec fn imm_suffix() -> Seq<char> {
    seq!['_', 'i', 'm', 'm']
}

/// Whether the opcode `op` already names an immediate form.
pub open spec fn has_imm_suffix(op: Seq<char>) -> bool {
    op.len() >= 4 && op.subrange(op.len() - 4, op.len() as int) == imm_suffix()
}

/// Whether `op` ends in `_imm`.
pub fn ends_with_imm(op: &String) -> (r: bool)
    ensures
        r == has_imm_suffix(op@),
{
    let s = op.as_str();
    let n = s.unicode_len();
    if n < 4 {
        return false;
    }
    let r = s.get_char(n - 4) == '_' && s.get_char(n - 3) == 'i' && s.get_char(n - 2) == 'm'
        && s.get_char(n - 1) == 'm';
    proof {
        let tail = op@.subrange(op@.len() - 4, op@.len() as int);
        assert(tail[0] == op@[n - 4] && tail[1] == op@[n - 3] && tail[2] == op@[n - 2] && tail[3]
            == op@[n - 1]);
        if r {
            assert(tail =~= imm_suffix());
        }
    }
    r
}

/// `op` with `_imm` appended.
pub fn with_imm_suffix(op: &String) -> (r: String)
    ensures
        r@ == op@ + imm_suffix(),
{
    let mut r = op.clone();
    push_char(&mut r, '_');
    push_char(&mut r, 'i');
    push_char(&mut r, 'm');
    push_char(&mut r, 'm');
    assert(r@ =~= op@ + imm_suffix());
    r
}

/// `s` with every `.` replaced by `_`.
pub open spec fn dots_to_underscores(s: Seq<char>) -> Seq<char> {
    s.map_values(
        |c: char|
            if c == '.' {
                '_'
            } else {
                c
            },
    )
}

/// Appends to `out` the text `s` with every `.` replaced by `_`.
pub fn push_without_dots(out: &mut String, s: &str)
    ensures
        final(out)@ == old(out)@ + dots_to_underscores(s@),
{
    let ghost start = out@;
    for c in it: s.chars()
        invariant
            it.seq() == s@,
            out@ == start + dots_to_underscores(s@.take(it.index() as int)),
    {
        let ghost before = s@.take(it.index() as int);
        let ghost after = s@.take(it.index() + 1);
        assert(dots_to_underscores(after) =~= dots_to_underscores(before).push(
            if c == '.' {
                '_'
            } else {
                c
            },
        ));
        if c == '.' {
            push_char(out, '_');
        } else {
            push_char(out, c);
        }
        assert(out@ =~= start + dots_to_underscores(after));
    }
    assert(s@.take(s@.len() as int) =~= s@);
}

/// The character of the decimal digit `d`.
pub open spec fn digit_char(d: int) -> char {
    if d == 0 {
        '0'
    } else if d == 1 {
        '1'
    } else if d == 2 {
        '2'
    } else if d == 3 {
        '3'
    } else if d == 4 {
        '4'
    } else if d == 5 {
        '5'
    } else if d == 6 {
        '6'
    } else if d == 7 {
        '7'
    } else if d == 8 {
        '8'
    } else {
        '9'
    }
}

/// The decimal digits of `n`, most significant first, without leading zeros.
pub open spec fn digits(n: nat) -> Seq<char>
    decreases n,
{
    if n < 10 {
        seq![digit_char(n as int)]
    } else {
        digits(n / 10).push(digit_char((n % 10) as int))
    }
}

/// The decimal form of `i`: a minus sign if it is negative, then the digits
/// of its magnitude.
pub open spec fn decimal(i: int) -> Seq<char> {
    if i < 0 {
        seq!['-'] + digits((-i) as nat)
    } else {
        digits(i as nat)
    }
}

fn digit_to_char(d: u32) -> (c: char)
    requires
        d < 10,
    ensures
        c == digit_char(d as int),
{
    if d == 0 {
        '0'
    } else if d == 1 {
        '1'
    } else if d == 2 {
        '2'
    } else if d == 3 {
        '3'
    } else if d == 4 {
        '4'
    } else if d == 5 {
        '5'
    } else if d == 6 {
        '6'
    } else if d == 7 {
        '7'
    } else if d == 8 {
        '8'
    } else {
        '9'
    }
}

/// Appends the digits of `n` to `out`.
fn push_digits(out: &mut String, n: u32)
    ensures
        final(out)@ == old(out)@ + digits(n as nat),
    decreases n,
{
    if n < 10 {
        push_char(out, digit_to_char(n));
        assert(out@ =~= old(out)@ + digits(n as nat));
    } else {
        push_digits(out, n / 10);
        push_char(out, digit_to_char(n % 10));
        assert(out@ =~= old(out)@ + digits(n as nat));
    }
}

/// Appends the decimal form of `i` to `out`.
pub fn push_decimal(out: &mut String, i: i32)
    ensures
        final(out)@ == old(out)@ + decimal(i as int),
{
    if i < 0 {
        push_char(out, '-');
        let magnitude: u32 = if i == i32::MIN {
            0x8000_0000u32
        } else {
            (-i) as u32
        };
        push_digits(out, magnitude);
        assert(out@ =~= old(out)@ + decimal(i as int));
    } else {
        push_digits(out, i as u32);
    }
}

} // verus!
