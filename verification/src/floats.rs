//! The arithmetic and the text of 32-bit floating-point numbers are not
//! computed here: a pass that needs them is handed a function over bit
//! patterns by its caller. This module says what is asked of such a function
//! and names the answers it gives.

use vstd::prelude::*;

verus! {

/// `f` answers every bit pattern, and the same pattern always with the same
/// text.
pub open spec fn answers_text<T: Fn(u32) -> String>(f: &T) -> bool {
    &&& forall|bits: u32| f.requires((bits,))
    &&& forall|bits: u32, s1: String, s2: String|
        f.ensures((bits,), s1) && f.ensures((bits,), s2) ==> s1@ == s2@
}

/// The text that `f` gives for `bits`.
pub open spec fn text_of<T: Fn(u32) -> String>(f: &T, bits: u32) -> Seq<char> {
    (choose|s: String| f.ensures((bits,), s))@
}

/// The function from bit patterns to text that `f` computes.
pub open spec fn text_model<T: Fn(u32) -> String>(f: &T) -> spec_fn(u32) -> Seq<char> {
    |bits: u32| text_of(f, bits)
}

/// Asks `f` for the text of `bits`.
pub fn ask_text<T: Fn(u32) -> String>(f: &T, bits: u32) -> (s: String)
    requires
        answers_text(f),
    ensures
        s@ == text_of(f, bits),
        s@ == text_model(f)(bits),
{
    f(bits)
}

/// `f` answers every bit pattern, and the same pattern always with the same
/// pattern.
pub open spec fn answers_bits<R: Fn(u32) -> u32>(f: &R) -> bool {
    &&& forall|bits: u32| f.requires((bits,))
    &&& forall|bits: u32, r1: u32, r2: u32|
        f.ensures((bits,), r1) && f.ensures((bits,), r2) ==> r1 == r2
}

/// The pattern that `f` gives for `bits`.
pub open spec fn bits_of<R: Fn(u32) -> u32>(f: &R, bits: u32) -> u32 {
    choose|r: u32| f.ensures((bits,), r)
}

/// The function on bit patterns that `f` computes.
pub open spec fn bits_model<R: Fn(u32) -> u32>(f: &R) -> spec_fn(u32) -> u32 {
    |bits: u32| bits_of(f, bits)
}

/// Asks `f` for its answer on `bits`.
pub fn ask_bits<R: Fn(u32) -> u32>(f: &R, bits: u32) -> (r: u32)
    requires
        answers_bits(f),
    ensures
        r == bits_of(f, bits),
        r == bits_model(f)(bits),
{
    f(bits)
}


/// `f` answers every text, and texts with the same characters always with
/// the same answer.
pub open spec fn answers_parse<P: Fn(&str) -> Option<u32>>(f: &P) -> bool {
    &&& forall|s: &str| f.requires((s,))
    &&& forall|s1: &str, s2: &str, r1: Option<u32>, r2: Option<u32>|
        s1@ == s2@ && f.ensures((s1,), r1) && f.ensures((s2,), r2) ==> r1 == r2
}

/// Whether `r` is an answer of `f` on a text with the characters `text`.
pub open spec fn parse_answer<P: Fn(&str) -> Option<u32>>(
    f: &P,
    text: Seq<char>,
    r: Option<u32>,
) -> bool {
    exists|s: &str| s@ == text && f.ensures((s,), r)
}

/// The answer that `f` gives for `text`: the pattern of the float that the
/// text denotes, if it denotes one.
pub open spec fn parsed_of<P: Fn(&str) -> Option<u32>>(f: &P, text: Seq<char>) -> Option<u32> {
    choose|r: Option<u32>| parse_answer(f, text, r)
}

/// The function from text to float patterns that `f` computes.
pub open spec fn parse_model<P: Fn(&str) -> Option<u32>>(f: &P) -> spec_fn(Seq<char>) -> Option<
    u32,
> {
    |text: Seq<char>| parsed_of(f, text)
}

/// Asks `f` for the float that `s` denotes.
pub fn ask_parse<P: Fn(&str) -> Option<u32>>(f: &P, s: &str) -> (r: Option<u32>)
    requires
        answers_parse(f),
    ensures
        r == parsed_of(f, s@),
        r == parse_model(f)(s@),
{
    let r = f(s);
    proof {
        assert(parse_answer(f, s@, r));
        let chosen = parsed_of(f, s@);
        assert(parse_answer(f, s@, chosen));
        let witness = choose|w: &str| w@ == s@ && f.ensures((w,), chosen);
        assert(witness@ == s@ && f.ensures((witness,), chosen));
    }
    r
}

} // verus!
