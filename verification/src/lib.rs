//! An optimizing back end for a flat, branch-free sequence of arithmetic
//! instructions in single-assignment style.
//!
//! A [`Program`] owns every instruction ever created in an append-only
//! arena, keeps the live ones in an ordered list, and records for each
//! instruction which others use its result. The passes rewrite the program
//! in place:
//!
//! * [`Program::analyze`] recomputes the recorded uses;
//! * [`Program::fma`] fuses a multiply into the add or subtract that uses it;
//! * [`Program::math`] simplifies trivial arithmetic;
//! * [`Program::dce`] unlinks unused temporaries;
//! * [`Program::peephole`] removes `move` instructions;
//! * [`Program::cse`] merges repeated computations;
//! * [`Program::literal_to_mem`] lifts costly literals into named constants;
//! * [`Program::lower`] builds the literals that are left from immediates;
//! * [`Program::optimize`] runs five rounds of the passes.
//!
//! [`Program::parse`] reads a program from text and [`Program::dump`] writes
//! it.
//!
//! Every function states what it does over the mathematical view of the
//! program ([`program::ProgramView`]), and is proved to do so.
//!
//! Floats are held by their bit patterns. Where a pass needs the value of a
//! float (its reciprocal, its text, the number that a token writes), the
//! caller hands it a function over bit patterns: see [`floats`].

pub mod analyze;
pub mod cse;
pub mod dce;
pub mod driver;
pub mod dump;
pub mod floats;
pub mod fuse;
pub mod ir;
pub mod lift;
pub mod lower;
pub mod parse;
pub mod peephole;
pub mod program;
pub mod roundtrip;
pub mod scan;
pub mod sharing;
pub mod simplify;
pub mod text;

pub use ir::{InstRef, Literal, SafeF32, Value};
pub use parse::ParseError;
pub use program::{Inst, Program};
