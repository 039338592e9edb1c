//! A CHIP-8 interpreter core and a small assembler that emits CHIP-8 code.
use vstd::prelude::*;

pub mod bits;
pub mod stack;
pub mod cpu;
pub mod table;
pub mod assembler;
pub mod laws;
pub mod programs;
pub mod semantics;

verus! {
} // verus!
