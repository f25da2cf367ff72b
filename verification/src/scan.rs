//! Scanning of text: splitting at a character, trimming of white space, and
//! the reading of decimal integers.

use vstd::prelude::*;
use crate::text::push_char;

verus! {

/// Whether `c`, a character beyond ASCII, is white space. This names what
/// `char::is_whitespace` of the standard library answers: whether the
/// character has the Unicode property White_Space.
pub uninterp spec fn unicode_whitespace(c: char) -> bool;

/// Whether `c`, a character beyond ASCII, is numeric. This names what
/// `char::is_numeric` of the standard library answers: whether the character
/// is in one of the Unicode general categories for numbers.
pub uninterp spec fn unicode_numeric(c: char) -> bool;

/// Whether `c` is white space.
///
/// Trusted: this is `char::is_whitespace` of the standard library, and the
/// contract only gives its answer a name.
#[verifier::external_body]
fn is_unicode_whitespace(c: char) -> (r: bool)
    ensures
        r == unicode_whitespace(c),
{
    c.is_whitespace()
}

/// Whether `c` is numeric.
///
/// Trusted: this is `char::is_numeric` of the standard library, and the
/// contract only gives its answer a name.
#[verifier::external_body]
fn is_unicode_numeric(c: char) -> (r: bool)
    ensures
        r == unicode_numeric(c),
{
    c.is_numeric()
}

/// Whether `c` is an ASCII character.
pub open spec fn is_ascii_char(c: char) -> bool {
    c as u32 <= 0x7f
}

/// Whether `c` is white space: among the ASCII characters the space and the
/// controls from the tabulator to the carriage return, and beyond ASCII what
/// Unicode calls white space.
pub open spec fn whitespace(c: char) -> bool {
    if is_ascii_char(c) {
        c == ' ' || 0x09 <= c as u32 <= 0x0d
    } else {
        unicode_whitespace(c)
    }
}

/// Whether `c` is numeric: among the ASCII characters the digits, and
/// beyond ASCII what Unicode calls numeric.
pub open spec fn numeric(c: char) -> bool {
    if is_ascii_char(c) {
        is_digit(c)
    } else {
        unicode_numeric(c)
    }
}

/// Whether `c` is white space.
pub fn is_whitespace(c: char) -> (r: bool)
    ensures
        r == whitespace(c),
{
    let code = c as u32;
    if code <= 0x7f {
        c == ' ' || (0x09 <= code && code <= 0x0d)
    } else {
        is_unicode_whitespace(c)
    }
}

/// Whether `c` is numeric.
pub fn is_numeric(c: char) -> (r: bool)
    ensures
        r == numeric(c),
{
    let code = c as u32;
    if code <= 0x7f {
        '0' <= c && c <= '9'
    } else {
        is_unicode_numeric(c)
    }
}

/// The characters of `s`.
pub fn chars_of(s: &str) -> (r: Vec<char>)
    ensures
        r@ == s@,
{
    let mut v: Vec<char> = Vec::new();
    for c in it: s.chars()
        invariant
            v@ == it.seq().take(it.index() as int),
            it.seq() == s@,
    {
        v.push(c);
    }
    v
}

/// The text made of the characters `from..to` of `v`.
pub fn string_of(v: &Vec<char>, from: usize, to: usize) -> (r: String)
    requires
        from <= to <= v.len(),
    ensures
        r@ == v@.subrange(from as int, to as int),
{
    let mut r = String::new();
    let mut i: usize = from;
    while i < to
        invariant
            from <= i <= to,
            to <= v.len(),
            r@ == v@.subrange(from as int, i as int),
        decreases to - i,
    {
        push_char(&mut r, v[i]);
        assert(r@ =~= v@.subrange(from as int, i + 1));
        i += 1;
    }
    r
}

/// The pieces of `s` between the occurrences of `c`: one more than there are
/// occurrences, some of them empty where two occurrences meet or one stands
/// at an end.
pub open spec fn split_on(s: Seq<char>, c: char) -> Seq<Seq<char>>
    decreases s.len(),
{
    if s.len() == 0 {
        seq![Seq::empty()]
    } else {
        let parts = split_on(s.drop_last(), c);
        if s.last() == c {
            parts.push(Seq::empty())
        } else {
            parts.drop_last().push(parts.last().push(s.last()))
        }
    }
}

/// How often `c` occurs in `s`.
pub open spec fn occurrences(s: Seq<char>, c: char) -> nat
    decreases s.len(),
{
    if s.len() == 0 {
        0
    } else if s.last() == c {
        occurrences(s.drop_last(), c) + 1
    } else {
        occurrences(s.drop_last(), c)
    }
}

/// A split has one piece more than there are occurrences of the character.
pub proof fn lemma_split_count(s: Seq<char>, c: char)
    ensures
        split_on(s, c).len() == occurrences(s, c) + 1,
    decreases s.len(),
{
    if s.len() > 0 {
        lemma_split_count(s.drop_last(), c);
    }
}

/// The texts that `parts` holds.
pub open spec fn parts_view(parts: Seq<Vec<char>>) -> Seq<Seq<char>> {
    parts.map_values(|p: Vec<char>| p@)
}

/// Splits the characters `from..to` of `s` at each `c`.
pub fn split_chars(s: &Vec<char>, from: usize, to: usize, c: char) -> (parts: Vec<Vec<char>>)
    requires
        from <= to <= s.len(),
    ensures
        parts_view(parts@) == split_on(s@.subrange(from as int, to as int), c),
        parts.len() >= 1,
{
    let mut parts: Vec<Vec<char>> = Vec::new();
    parts.push(Vec::new());
    let mut i: usize = from;
    assert(parts_view(parts@) =~= split_on(s@.subrange(from as int, from as int), c));
    while i < to
        invariant
            from <= i <= to,
            to <= s.len(),
            parts.len() >= 1,
            parts_view(parts@) == split_on(s@.subrange(from as int, i as int), c),
        decreases to - i,
    {
        let ghost before = parts_view(parts@);
        let ghost longer = s@.subrange(from as int, i + 1);
        assert(longer.drop_last() =~= s@.subrange(from as int, i as int));
        assert(longer.last() == s@[i as int]);
        if s[i] == c {
            parts.push(Vec::new());
            assert(parts_view(parts@) =~= before.push(Seq::empty()));
        } else {
            let last = parts.len() - 1;
            parts[last].push(s[i]);
            assert(parts_view(parts@) =~= before.drop_last().push(before.last().push(s@[i as int])));
        }
        i += 1;
    }
    parts
}

/// `s` without the white space at its start.
pub open spec fn trim_start(s: Seq<char>) -> Seq<char>
    decreases s.len(),
{
    if s.len() > 0 && whitespace(s[0]) {
        trim_start(s.drop_first())
    } else {
        s
    }
}

/// `s` without the white space at its end.
pub open spec fn trim_end(s: Seq<char>) -> Seq<char>
    decreases s.len(),
{
    if s.len() > 0 && whitespace(s.last()) {
        trim_end(s.drop_last())
    } else {
        s
    }
}

/// `s` without the white space at either end.
pub open spec fn trim(s: Seq<char>) -> Seq<char> {
    trim_end(trim_start(s))
}

/// Whether `c` does not occur in `s`.
pub open spec fn free_of(s: Seq<char>, c: char) -> bool {
    forall|i: int| 0 <= i < s.len() ==> #[trigger] s[i] != c
}

/// Whether `s` ends in a closing bracket and holds no other.
pub open spec fn closed_once(s: Seq<char>) -> bool {
    s.len() > 0 && s.last() == ')' && free_of(s.drop_last(), ')')
}

/// The bounds of the characters `from..to` of `s` once trimmed.
pub fn trim_bounds(s: &Vec<char>, from: usize, to: usize) -> (r: (usize, usize))
    requires
        from <= to <= s.len(),
    ensures
        from <= r.0 <= r.1 <= to,
        s@.subrange(r.0 as int, r.1 as int) == trim(s@.subrange(from as int, to as int)),
{
    let mut i: usize = from;
    while i < to && is_whitespace(s[i])
        invariant
            from <= i <= to,
            to <= s.len(),
            trim_start(s@.subrange(from as int, to as int)) == trim_start(
                s@.subrange(i as int, to as int),
            ),
        decreases to - i,
    {
        assert(s@.subrange(i as int, to as int).drop_first() =~= s@.subrange(i + 1, to as int));
        i += 1;
    }
    assert(trim_start(s@.subrange(i as int, to as int)) == s@.subrange(i as int, to as int));
    let mut j: usize = to;
    while j > i && is_whitespace(s[j - 1])
        invariant
            i <= j <= to,
            to <= s.len(),
            trim_end(s@.subrange(i as int, to as int)) == trim_end(s@.subrange(i as int, j as int)),
        decreases j,
    {
        assert(s@.subrange(i as int, j as int).drop_last() =~= s@.subrange(i as int, j - 1));
        j -= 1;
    }
    assert(trim_end(s@.subrange(i as int, j as int)) == s@.subrange(i as int, j as int));
    (i, j)
}

/// The characters of `s` once trimmed.
pub fn trim_chars(s: &Vec<char>) -> (r: Vec<char>)
    ensures
        r@ == trim(s@),
{
    assert(s@.subrange(0, s.len() as int) =~= s@);
    let (i, j) = trim_bounds(s, 0, s.len());
    let mut r: Vec<char> = Vec::new();
    let mut k: usize = i;
    while k < j
        invariant
            i <= k <= j,
            j <= s.len(),
            r@ == s@.subrange(i as int, k as int),
        decreases j - k,
    {
        r.push(s[k]);
        assert(r@ =~= s@.subrange(i as int, k + 1));
        k += 1;
    }
    r
}

/// Whether `s` ends in a closing bracket and holds no other.
pub fn is_closed_once(s: &Vec<char>) -> (r: bool)
    ensures
        r == closed_once(s@),
{
    let n = s.len();
    if n == 0 || s[n - 1] != ')' {
        return false;
    }
    let mut i: usize = 0;
    while i < n - 1
        invariant
            n == s.len(),
            n > 0,
            i <= n - 1,
            forall|j: int| 0 <= j < i ==> s@[j] != ')',
        decreases n - 1 - i,
    {
        if s[i] == ')' {
            assert(s@.drop_last()[i as int] == ')');
            return false;
        }
        i += 1;
    }
    assert forall|j: int| 0 <= j < s@.drop_last().len() implies #[trigger] s@.drop_last()[j] != ')' by {
        assert(s@.drop_last()[j] == s@[j]);
    }
    true
}

/// Whether `c` is one of the digits `0` to `9`.
pub open spec fn is_digit(c: char) -> bool {
    '0' <= c <= '9'
}

/// The number that the digit `c` stands for.
pub open spec fn digit_value(c: char) -> int {
    c as int - '0' as int
}

/// Whether `s` is made of digits only.
pub open spec fn all_digits(s: Seq<char>) -> bool {
    forall|i: int| 0 <= i < s.len() ==> is_digit(#[trigger] s[i])
}

/// The number that the digits `s` write in decimal.
pub open spec fn digits_value(s: Seq<char>) -> nat
    decreases s.len(),
{
    if s.len() == 0 {
        0
    } else {
        (digits_value(s.drop_last()) * 10 + digit_value(s.last())) as nat
    }
}

/// The integer that `s` writes, where `s` begins with no sign: `s` must be
/// one or more digits, and the number must be one that 32 signed bits hold.
pub open spec fn int_literal(s: Seq<char>) -> Option<i32> {
    if s.len() > 0 && all_digits(s) && digits_value(s) <= i32::MAX {
        Some(digits_value(s) as i32)
    } else {
        None
    }
}

/// The value of a text of digits is no less than that of any of its
/// beginnings.
pub proof fn lemma_digits_grow(s: Seq<char>, n: int)
    requires
        all_digits(s),
        0 <= n <= s.len(),
    ensures
        digits_value(s.take(n)) <= digits_value(s),
    decreases s.len() - n,
{
    if n < s.len() {
        lemma_digits_grow(s, n + 1);
        assert(s.take(n + 1).drop_last() =~= s.take(n));
        assert(is_digit(s[n]));
        assert(s.take(n + 1).last() == s[n]);
    } else {
        assert(s.take(n) =~= s);
    }
}

/// Reads `s` as a decimal integer without a sign.
pub fn read_int(s: &Vec<char>) -> (r: Option<i32>)
    ensures
        r == int_literal(s@),
{
    if s.len() == 0 {
        return None;
    }
    let mut acc: i64 = 0;
    let mut i: usize = 0;
    assert(s@.take(0) =~= Seq::<char>::empty());
    while i < s.len()
        invariant
            i <= s.len(),
            all_digits(s@.take(i as int)),
            acc == digits_value(s@.take(i as int)),
            0 <= acc <= i32::MAX,
        decreases s.len() - i,
    {
        let c = s[i];
        if !('0' <= c && c <= '9') {
            assert(!is_digit(s@[i as int]));
            return None;
        }
        let d: i64 = (c as u32 - '0' as u32) as i64;
        proof {
            assert(s@.take(i + 1).drop_last() =~= s@.take(i as int));
            assert(s@.take(i + 1).last() == c);
            assert forall|k: int| 0 <= k < i + 1 implies is_digit(#[trigger] s@.take(i + 1)[k]) by {
                if k < i {
                    assert(s@.take(i as int)[k] == s@[k]);
                }
            }
        }
        let next: i64 = acc * 10 + d;
        if next > 0x7fff_ffff {
            proof {
                if all_digits(s@) {
                    lemma_digits_grow(s@, i + 1);
                }
            }
            return None;
        }
        acc = next;
        i += 1;
    }
    assert(s@.take(s.len() as int) =~= s@);
    Some(acc as i32)
}

} // verus!
