//! The optimization driver: a fixed number of rounds of the passes.

use vstd::prelude::*;
use crate::analyze::analyze_spec;
use crate::cse::cse_spec;
use crate::dce::dce_spec;
use crate::floats::{answers_bits, answers_text, bits_model, text_model};
use crate::fuse::fuse_spec;
use crate::lift::lift_spec;
use crate::peephole::peephole_spec;
use crate::program::{Program, ProgramView};
use crate::simplify::simplify_spec;

verus! {

/// The number of rounds that an optimization runs, whatever they change.
pub const ROUNDS: usize = 5;

/// The program after one round: analysis, fusion, simplification,
/// dead-code elimination, the peephole passes, common-subexpression
/// elimination and lifting, in that order.
pub open spec fn round_spec(
    p: ProgramView,
    recip: spec_fn(u32) -> u32,
    text: spec_fn(u32) -> Seq<char>,
) -> ProgramView {
    lift_spec(
        cse_spec(peephole_spec(dce_spec(simplify_spec(fuse_spec(analyze_spec(p)), recip)))),
        text,
    )
}

/// The program after `n` rounds.
pub open spec fn rounds_spec(
    p: ProgramView,
    recip: spec_fn(u32) -> u32,
    text: spec_fn(u32) -> Seq<char>,
    n: nat,
) -> ProgramView
    decreases n,
{
    if n == 0 {
        p
    } else {
        round_spec(rounds_spec(p, recip, text, (n - 1) as nat), recip, text)
    }
}

/// The program after optimization: five rounds.
pub open spec fn optimize_spec(
    p: ProgramView,
    recip: spec_fn(u32) -> u32,
    text: spec_fn(u32) -> Seq<char>,
) -> ProgramView {
    rounds_spec(p, recip, text, ROUNDS as nat)
}

impl Program {
    /// Optimizes the program: exactly five rounds of the passes. `recip`
    /// gives the pattern of the reciprocal of a float, and `text` the text
    /// from which the name of a lifted float is made.
    pub fn optimize<R: Fn(u32) -> u32, T: Fn(u32) -> String>(&mut self, recip: &R, text: &T)
        requires
            old(self).inv(),
            answers_bits(recip),
            answers_text(text),
        ensures
            final(self).inv(),
            final(self)@ == optimize_spec(old(self)@, bits_model(recip), text_model(text)),
            final(self)@.thinned_from(old(self)@),
    {
        let ghost start = self@;
        let mut round: usize = 0;
        while round < ROUNDS
            invariant
                self.inv(),
                answers_bits(recip),
                answers_text(text),
                round <= ROUNDS,
                self@ == rounds_spec(start, bits_model(recip), text_model(text), round as nat),
                self@.thinned_from(start),
            decreases ROUNDS - round,
        {
            self.analyze();
            self.fma();
            self.math(recip);
            self.dce();
            self.peephole();
            self.cse();
            self.literal_to_mem(text);
            round += 1;
        }
    }
}

} // verus!
