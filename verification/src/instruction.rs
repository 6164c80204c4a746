//! Instruction words and their decoding.
//!
//! A word carries its operation in the top four bits. Every operation but
//! the immediate load names three registers in the low nine bits; the
//! immediate load names one register in bits 27..25 and carries a 25-bit
//! unsigned value in the rest.

use vstd::prelude::*;

verus! {

/// The fourteen operations, in the order of their numbers.
#[derive(Clone, Copy, Debug, PartialEq, Eq, Structural)]
pub enum Opcode {
    CMov,
    Load,
    Store,
    Add,
    Mul,
    Div,
    Nand,
    Halt,
    MapSegment,
    UnmapSegment,
    Output,
    Input,
    LoadProgram,
    LoadValue,
}

impl Opcode {
    /// The number that stands for this operation in an instruction word.
    pub open spec fn number(self) -> int {
        match self {
            Opcode::CMov => 0,
            Opcode::Load => 1,
            Opcode::Store => 2,
            Opcode::Add => 3,
            Opcode::Mul => 4,
            Opcode::Div => 5,
            Opcode::Nand => 6,
            Opcode::Halt => 7,
            Opcode::MapSegment => 8,
            Opcode::UnmapSegment => 9,
            Opcode::Output => 10,
            Opcode::Input => 11,
            Opcode::LoadProgram => 12,
            Opcode::LoadValue => 13,
        }
    }

    /// The operation that a number stands for; 14 and above stand for none.
    pub open spec fn from_number(n: int) -> Option<Opcode> {
        if n == 0 {
            Some(Opcode::CMov)
        } else if n == 1 {
            Some(Opcode::Load)
        } else if n == 2 {
            Some(Opcode::Store)
        } else if n == 3 {
            Some(Opcode::Add)
        } else if n == 4 {
            Some(Opcode::Mul)
        } else if n == 5 {
            Some(Opcode::Div)
        } else if n == 6 {
            Some(Opcode::Nand)
        } else if n == 7 {
            Some(Opcode::Halt)
        } else if n == 8 {
            Some(Opcode::MapSegment)
        } else if n == 9 {
            Some(Opcode::UnmapSegment)
        } else if n == 10 {
            Some(Opcode::Output)
        } else if n == 11 {
            Some(Opcode::Input)
        } else if n == 12 {
            Some(Opcode::LoadProgram)
        } else if n == 13 {
            Some(Opcode::LoadValue)
        } else {
            None
        }
    }
}

/// The operation named by the top four bits of `word`, if there is one.
pub open spec fn spec_parse_opcode(word: u32) -> Option<Opcode> {
    Opcode::from_number((word >> 28) as int)
}

/// Reads the operation out of an instruction word. The numbers 14 and 15
/// name no operation.
pub fn parse_opcode(word: u32) -> (op: Option<Opcode>)
    ensures
        op == spec_parse_opcode(word),
        op is None <==> word >> 28 >= 14,
        op matches Some(o) ==> o.number() == word >> 28,
{
    let n: u32 = word >> 28;
    assert(word >> 28 < 16) by (bit_vector);
    match n {
        0 => Some(Opcode::CMov),
        1 => Some(Opcode::Load),
        2 => Some(Opcode::Store),
        3 => Some(Opcode::Add),
        4 => Some(Opcode::Mul),
        5 => Some(Opcode::Div),
        6 => Some(Opcode::Nand),
        7 => Some(Opcode::Halt),
        8 => Some(Opcode::MapSegment),
        9 => Some(Opcode::UnmapSegment),
        10 => Some(Opcode::Output),
        11 => Some(Opcode::Input),
        12 => Some(Opcode::LoadProgram),
        13 => Some(Opcode::LoadValue),
        _ => None,
    }
}

/// A decoded instruction. It lives for one cycle only.
#[derive(Clone, Copy, Debug, PartialEq, Eq, Structural)]
pub struct Instruction {
    pub opcode: Opcode,
    pub ra: u32,
    pub rb: u32,
    pub rc: u32,
    pub value: u32,
}

impl Instruction {
    /// Register operands are 3-bit fields and the immediate is a 25-bit
    /// field.
    pub open spec fn wf(self) -> bool {
        &&& self.ra < 8
        &&& self.rb < 8
        &&& self.rc < 8
        &&& self.value < 0x200_0000
    }

    /// What a word decodes to. The fields that an operation does not use
    /// are zero.
    pub open spec fn spec_decode(word: u32) -> Option<Instruction> {
        match spec_parse_opcode(word) {
            None => None,
            Some(Opcode::LoadValue) => Some(
                Instruction {
                    opcode: Opcode::LoadValue,
                    ra: (word >> 25) & 7,
                    rb: 0,
                    rc: 0,
                    value: word & 0x1ff_ffff,
                },
            ),
            Some(opcode) => Some(
                Instruction {
                    opcode,
                    ra: (word >> 6) & 7,
                    rb: (word >> 3) & 7,
                    rc: word & 7,
                    value: 0,
                },
            ),
        }
    }

    /// Every decoded instruction has its operands in range.
    pub proof fn lemma_decode_wf(word: u32)
        ensures
            Self::spec_decode(word) matches Some(i) ==> i.wf(),
    {
        assert((word >> 25) & 7 < 8) by (bit_vector);
        assert((word >> 6) & 7 < 8) by (bit_vector);
        assert((word >> 3) & 7 < 8) by (bit_vector);
        assert(word & 7 < 8) by (bit_vector);
        assert(word & 0x1ff_ffff < 0x200_0000) by (bit_vector);
    }

    /// Decodes an instruction word, or returns `None` when its top four
    /// bits name no operation. Decoding reads nothing but the word.
    pub fn decode(word: u32) -> (instruction: Option<Instruction>)
        ensures
            instruction == Self::spec_decode(word),
            instruction is None <==> word >> 28 >= 14,
            instruction matches Some(i) ==> i.wf(),
    {
        proof {
            Self::lemma_decode_wf(word);
        }
        match parse_opcode(word) {
            None => None,
            Some(Opcode::LoadValue) => Some(
                Instruction {
                    opcode: Opcode::LoadValue,
                    ra: (word >> 25) & 7,
                    rb: 0,
                    rc: 0,
                    value: word & 0x1ff_ffff,
                },
            ),
            Some(opcode) => Some(
                Instruction {
                    opcode,
                    ra: (word >> 6) & 7,
                    rb: (word >> 3) & 7,
                    rc: word & 7,
                    value: 0,
                },
            ),
        }
    }
}

} // verus!
