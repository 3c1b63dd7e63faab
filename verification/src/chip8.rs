//! A CHIP-8 virtual machine: the instruction set, an interpreter over any
//! platform (screen, timers, keypad, random numbers), and a platform kept
//! in memory.
pub mod data;
pub mod image;
pub mod interpreter;
pub mod laws;
pub mod managed_interpreter;
pub mod platform;

use vstd::prelude::*;

verus! {

/// Why an instruction could not run.
#[derive(Clone, Copy, Debug, PartialEq, Eq, Structural)]
pub enum Error {
    /// The two bytes at the program counter are no instruction.
    UnknownOpCode(data::OpCode),
    /// The instruction at the program counter cannot run in this state: it
    /// would read or write memory past its end, return with an empty call
    /// stack, or name a key above 15.
    InvalidState,
}

} // verus!
