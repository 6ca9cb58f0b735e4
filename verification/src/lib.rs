//! Assembly snippets for bit-level operations on a stack machine, with a model of that
//! machine and proofs of what each snippet computes.
//!
//! - `ops`: the generators (truncation, bitwise not/and/or/xor, shifts, rotations by a
//!   constant or by a count on the stack, remainder), each returning the text of its snippet.
//! - `program`: the words and lines of the assembly, and how they are written out.
//! - `decimal`: decimal notation of numbers.
//! - `parse`: reading assembly text back into lines, and into its words.
//! - `vm`: the stack machine, as spec functions and as an interpreter (`run`).
//! - `moves`: running a piece of a program wherever it stands.
//! - `bits`: powers of two, rotations and bitwise operations on numbers.
//! - `laws`: what each snippet computes.
//! - `prover`: re-reading evaluations as Merkle-tree leaves.
use vstd::prelude::*;

pub mod bits;
pub mod decimal;
pub mod laws;
pub mod moves;
pub mod ops;
pub mod parse;
pub mod program;
pub mod prover;
pub mod vm;

verus! {

} // verus!
