//! The register file: eight 32-bit words, numbered 0 to 7.

use vstd::prelude::*;

verus! {

/// The eight general-purpose registers of a machine.
#[derive(Debug)]
pub struct Registers {
    words: [u32; 8],
}

impl View for Registers {
    type V = Seq<u32>;

    closed spec fn view(&self) -> Seq<u32> {
        self.words@
    }
}

impl Registers {
    /// There are always exactly eight registers.
    pub proof fn lemma_len(&self)
        ensures
            self@.len() == 8,
    {
    }

    /// A register file with every register zero.
    pub fn new() -> (registers: Registers)
        ensures
            registers@ == Seq::new(8, |i: int| 0u32),
    {
        let registers = Registers { words: [0u32; 8] };
        assert(registers@ =~= Seq::new(8, |i: int| 0u32));
        registers
    }

    /// The value of register `index`.
    pub fn get(&self, index: u32) -> (value: u32)
        requires
            index < 8,
        ensures
            value == self@[index as int],
    {
        self.words[index as usize]
    }

    /// Sets register `index` to `value` and leaves the others as they are.
    pub fn set(&mut self, index: u32, value: u32)
        requires
            index < 8,
        ensures
            final(self)@ == old(self)@.update(index as int, value),
    {
        self.words[index as usize] = value;
        assert(self@ =~= old(self)@.update(index as int, value));
    }
}

} // verus!
