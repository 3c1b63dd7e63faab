//! A program for the machine.
use vstd::prelude::*;
use crate::chip8::data::Address;

verus! {

/// A program: what it puts in memory, and where it starts.
pub trait Image {
    /// The memory after the program is written into `memory`.
    spec fn loaded(&self, memory: Seq<u8>) -> Seq<u8>;

    /// The address of the first instruction.
    spec fn entry(&self) -> int;

    /// Writes the program into the machine's memory (all zeros before).
    fn load_into_memory(&self, memory: &mut [u8; 4096])
        ensures
            final(memory)@ == self.loaded(old(memory)@),
    ;

    /// The address of the first instruction.
    fn entry_point(&self) -> (a: Address)
        ensures
            a.value() == self.entry(),
    ;
}

} // verus!
