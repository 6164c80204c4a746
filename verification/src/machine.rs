//! The execution engine.
//!
//! A [`Machine`] owns the registers, the program counter and the memory. It
//! is driven one cycle at a time by [`Machine::step`], which fetches,
//! decodes and executes one instruction and tells the host what, if
//! anything, is to be done with the byte streams. [`run`] drives a machine
//! over in-memory streams for a bounded number of cycles.

use crate::instruction::{Instruction, Opcode};
use crate::memory::{Memory, MemoryFault, MemoryView};
use crate::registers::Registers;
use vstd::prelude::*;

verus! {

/// An unrecoverable condition. A machine that has raised one runs no more.
#[derive(Clone, Copy, Debug, PartialEq, Eq)]
pub enum Fault {
    /// The top four bits of the fetched word name no operation.
    IllegalInstruction,
    /// The memory manager refused an access, an allocation or a
    /// deallocation; a fetch beyond the end of the program is among these.
    Memory(MemoryFault),
    /// A division whose divisor register holds zero.
    DivisionByZero,
    /// An output of a value above 255.
    OutputOutOfRange,
}

/// Where a machine stands between two calls.
#[derive(Clone, Copy, Debug, PartialEq, Eq)]
pub enum Status {
    /// The next cycle will fetch at the program counter.
    Running,
    /// An input instruction has been executed and the byte for the named
    /// register has not been supplied yet.
    AwaitingInput(u32),
    /// A halt instruction has been executed.
    Halted,
    /// A fault has been raised.
    Faulted(Fault),
}

/// What one cycle asks of the host.
#[derive(Clone, Copy, Debug, PartialEq, Eq)]
pub enum Action {
    /// Nothing: go on with the next cycle.
    Continue,
    /// Write this byte to the output stream.
    Output(u8),
    /// Read one byte from the input stream and supply it, or supply the end
    /// of the stream.
    Input,
    /// The program has halted.
    Halt,
    /// The program has faulted.
    Fault(Fault),
}

/// The value that an input instruction stores: the byte, or all bits set at
/// the end of the stream.
pub open spec fn input_word(byte: Option<u8>) -> u32 {
    match byte {
        Some(b) => b as u32,
        None => 0xffff_ffff,
    }
}

/// The mathematical state of a machine.
pub struct MachineView {
    pub registers: Seq<u32>,
    pub pc: u32,
    pub memory: MemoryView,
    pub status: Status,
    /// The number of instructions executed so far; it stops counting at
    /// 2^64 - 1.
    pub executed: u64,
}

impl MachineView {
    /// There are eight registers, the memory is well formed, and a register
    /// that awaits input exists.
    pub open spec fn wf(self) -> bool {
        &&& self.registers.len() == 8
        &&& self.memory.wf()
        &&& self.status matches Status::AwaitingInput(register) ==> register < 8
    }

    /// A machine that has just been started on `program`: running at
    /// counter 0 with every register zero.
    pub open spec fn boot(program: Seq<u32>) -> MachineView {
        MachineView {
            registers: Seq::new(8, |i: int| 0u32),
            pc: 0,
            memory: MemoryView::boot(program),
            status: Status::Running,
            executed: 0,
        }
    }

    /// Whether the machine will never execute another instruction.
    pub open spec fn is_terminal(self) -> bool {
        self.status is Halted || self.status is Faulted
    }

    /// The machine with register `index` set to `value`.
    pub open spec fn with_register(self, index: u32, value: u32) -> MachineView {
        MachineView { registers: self.registers.update(index as int, value), ..self }
    }

    /// The machine with its memory replaced.
    pub open spec fn with_memory(self, memory: MemoryView) -> MachineView {
        MachineView { memory, ..self }
    }

    /// The machine stopped by `fault`, and the action that reports it.
    pub open spec fn fail(self, fault: Fault) -> (MachineView, Action) {
        (MachineView { status: Status::Faulted(fault), ..self }, Action::Fault(fault))
    }

    /// The machine once an instruction has been fetched and decoded: the
    /// counter moves on by one, modulo 2^32, and the instruction is counted.
    pub open spec fn advance(self) -> MachineView {
        MachineView {
            pc: if self.pc == u32::MAX {
                0
            } else {
                (self.pc + 1) as u32
            },
            executed: if self.executed == u64::MAX {
                u64::MAX
            } else {
                (self.executed + 1) as u64
            },
            ..self
        }
    }

    /// The effect of one decoded instruction on a machine whose counter has
    /// already moved on. A faulting instruction changes nothing but the
    /// status.
    pub open spec fn dispatch(self, instruction: Instruction) -> (MachineView, Action) {
        let a = self.registers[instruction.ra as int];
        let b = self.registers[instruction.rb as int];
        let c = self.registers[instruction.rc as int];
        match instruction.opcode {
            Opcode::CMov => (
                if c != 0 {
                    self.with_register(instruction.ra, b)
                } else {
                    self
                },
                Action::Continue,
            ),
            Opcode::Load => match self.memory.load(b, c) {
                Ok(word) => (self.with_register(instruction.ra, word), Action::Continue),
                Err(fault) => self.fail(Fault::Memory(fault)),
            },
            Opcode::Store => match self.memory.store(a, b, c) {
                Ok(memory) => (self.with_memory(memory), Action::Continue),
                Err(fault) => self.fail(Fault::Memory(fault)),
            },
            Opcode::Add => (
                self.with_register(instruction.ra, ((b + c) % 0x1_0000_0000) as u32),
                Action::Continue,
            ),
            Opcode::Mul => (
                self.with_register(instruction.ra, ((b * c) % 0x1_0000_0000) as u32),
                Action::Continue,
            ),
            Opcode::Div => if c == 0 {
                self.fail(Fault::DivisionByZero)
            } else {
                (self.with_register(instruction.ra, b / c), Action::Continue)
            },
            Opcode::Nand => (self.with_register(instruction.ra, !(b & c)), Action::Continue),
            Opcode::Halt => (MachineView { status: Status::Halted, ..self }, Action::Halt),
            Opcode::MapSegment => match self.memory.allocate(c) {
                Ok((memory, id)) => (
                    self.with_memory(memory).with_register(instruction.rb, id),
                    Action::Continue,
                ),
                Err(fault) => self.fail(Fault::Memory(fault)),
            },
            Opcode::UnmapSegment => match self.memory.deallocate(c) {
                Ok(memory) => (self.with_memory(memory), Action::Continue),
                Err(fault) => self.fail(Fault::Memory(fault)),
            },
            Opcode::Output => if c > 255 {
                self.fail(Fault::OutputOutOfRange)
            } else {
                (self, Action::Output(c as u8))
            },
            Opcode::Input => (
                MachineView { status: Status::AwaitingInput(instruction.rc), ..self },
                Action::Input,
            ),
            Opcode::LoadProgram => match self.memory.load_segment(b) {
                Ok(memory) => (MachineView { memory, pc: c, ..self }, Action::Continue),
                Err(fault) => self.fail(Fault::Memory(fault)),
            },
            Opcode::LoadValue => (
                self.with_register(instruction.ra, instruction.value),
                Action::Continue,
            ),
        }
    }

    /// One cycle. A running machine fetches the word at its counter,
    /// decodes it, moves the counter on and executes the instruction. A
    /// machine that is not running stays as it is and repeats its request.
    pub open spec fn step(self) -> (MachineView, Action) {
        match self.status {
            Status::Halted => (self, Action::Halt),
            Status::Faulted(fault) => (self, Action::Fault(fault)),
            Status::AwaitingInput(_) => (self, Action::Input),
            Status::Running => match self.memory.fetch(self.pc) {
                Err(fault) => self.fail(Fault::Memory(fault)),
                Ok(word) => match Instruction::spec_decode(word) {
                    None => self.fail(Fault::IllegalInstruction),
                    Some(instruction) => self.advance().dispatch(instruction),
                },
            },
        }
    }

    /// The machine after the host has answered an input request. A machine
    /// that has made no request ignores the answer.
    pub open spec fn supply(self, byte: Option<u8>) -> MachineView {
        match self.status {
            Status::AwaitingInput(register) => MachineView {
                registers: self.registers.update(register as int, input_word(byte)),
                status: Status::Running,
                ..self
            },
            _ => self,
        }
    }

    /// The instruction that the next cycle will execute, if the machine is
    /// running and the word at its counter can be fetched and decoded.
    pub open spec fn next_instruction(self) -> Option<Instruction> {
        match (self.status, self.memory.fetch(self.pc)) {
            (Status::Running, Ok(word)) => Instruction::spec_decode(word),
            _ => None,
        }
    }

    /// An addition stores the sum modulo 2^32 and touches nothing else but
    /// the counter and the count.
    pub proof fn lemma_add_wraps(self)
        requires
            self.wf(),
            self.next_instruction() matches Some(i) && i.opcode == Opcode::Add,
        ensures
            ({
                let i = self.next_instruction()->0;
                let sum = self.registers[i.rb as int] + self.registers[i.rc as int];
                &&& self.step() == (
                    self.advance().with_register(i.ra, (sum % 0x1_0000_0000) as u32),
                    Action::Continue,
                )
                &&& self.step().0.registers[i.ra as int] == sum % 0x1_0000_0000
                &&& sum < 0x1_0000_0000 ==> self.step().0.registers[i.ra as int] == sum
                &&& sum >= 0x1_0000_0000 ==> self.step().0.registers[i.ra as int] == sum
                    - 0x1_0000_0000
            }),
    {
        Instruction::lemma_decode_wf(self.memory.fetch(self.pc)->Ok_0);
    }

    /// A multiplication stores the product modulo 2^32 and touches nothing
    /// else but the counter and the count.
    pub proof fn lemma_multiply_wraps(self)
        requires
            self.wf(),
            self.next_instruction() matches Some(i) && i.opcode == Opcode::Mul,
        ensures
            ({
                let i = self.next_instruction()->0;
                let product = self.registers[i.rb as int] * self.registers[i.rc as int];
                &&& self.step() == (
                    self.advance().with_register(i.ra, (product % 0x1_0000_0000) as u32),
                    Action::Continue,
                )
                &&& self.step().0.registers[i.ra as int] == product % 0x1_0000_0000
            }),
    {
        Instruction::lemma_decode_wf(self.memory.fetch(self.pc)->Ok_0);
    }

    /// A conditional move whose condition register holds zero leaves every
    /// register, and the memory, as it was.
    pub proof fn lemma_conditional_move_skips(self)
        requires
            self.wf(),
            self.next_instruction() matches Some(i) && i.opcode == Opcode::CMov
                && self.registers[i.rc as int] == 0,
        ensures
            self.step() == (self.advance(), Action::Continue),
            self.step().0.registers == self.registers,
            self.step().0.memory == self.memory,
    {
    }

    /// A conditional move whose condition register holds anything but zero
    /// copies register `rb` to register `ra`.
    pub proof fn lemma_conditional_move_copies(self)
        requires
            self.wf(),
            self.next_instruction() matches Some(i) && i.opcode == Opcode::CMov
                && self.registers[i.rc as int] != 0,
        ensures
            ({
                let i = self.next_instruction()->0;
                &&& self.step() == (
                    self.advance().with_register(i.ra, self.registers[i.rb as int]),
                    Action::Continue,
                )
                &&& self.step().0.registers[i.ra as int] == self.registers[i.rb as int]
            }),
    {
        Instruction::lemma_decode_wf(self.memory.fetch(self.pc)->Ok_0);
    }

    /// A load from a segment that is not live, be it never allocated or
    /// deallocated since, raises a memory fault and loads nothing.
    pub proof fn lemma_load_from_dead_segment_faults(self)
        requires
            self.wf(),
            self.next_instruction() matches Some(i) && i.opcode == Opcode::Load
                && !self.memory.is_mapped(self.registers[i.rb as int]),
        ensures
            self.step() == self.advance().fail(Fault::Memory(MemoryFault::UnmappedSegment)),
            self.step().0.registers == self.registers,
            self.step().0.memory == self.memory,
    {
    }

    /// A cycle keeps a machine well formed.
    pub proof fn lemma_step_wf(self)
        requires
            self.wf(),
        ensures
            self.step().0.wf(),
    {
        if self.status is Running {
            if let Ok(word) = self.memory.fetch(self.pc) {
                Instruction::lemma_decode_wf(word);
                if let Some(instruction) = Instruction::spec_decode(word) {
                    self.advance().lemma_dispatch_wf(instruction);
                }
            }
        }
    }

    /// Executing an instruction keeps a machine well formed.
    pub proof fn lemma_dispatch_wf(self, instruction: Instruction)
        requires
            self.wf(),
            instruction.wf(),
        ensures
            self.dispatch(instruction).0.wf(),
    {
        let a = self.registers[instruction.ra as int];
        let b = self.registers[instruction.rb as int];
        let c = self.registers[instruction.rc as int];
        self.memory.lemma_allocate_wf(c);
        self.memory.lemma_deallocate_wf(c);
        self.memory.lemma_store_wf(a, b, c);
        self.memory.lemma_load_segment_wf(b);
    }
}

/// One machine: registers, program counter, memory, and the count of
/// instructions executed.
#[derive(Debug)]
pub struct Machine {
    registers: Registers,
    pc: u32,
    memory: Memory,
    status: Status,
    executed: u64,
}

impl View for Machine {
    type V = MachineView;

    closed spec fn view(&self) -> MachineView {
        MachineView {
            registers: self.registers@,
            pc: self.pc,
            memory: self.memory@,
            status: self.status,
            executed: self.executed,
        }
    }
}

impl Machine {
    /// A machine ready to run `program`: the program is segment 0, the
    /// counter and the registers are zero.
    pub fn new(program: Vec<u32>) -> (machine: Machine)
        ensures
            machine@ == MachineView::boot(program@),
            machine@.wf(),
    {
        Machine {
            registers: Registers::new(),
            pc: 0,
            memory: Memory::new(program),
            status: Status::Running,
            executed: 0,
        }
    }

    /// Where the machine stands.
    pub fn status(&self) -> (status: Status)
        ensures
            status == self@.status,
    {
        self.status
    }

    /// The number of instructions executed so far.
    pub fn executed(&self) -> (count: u64)
        ensures
            count == self@.executed,
    {
        self.executed
    }

    /// The program counter.
    pub fn pc(&self) -> (pc: u32)
        ensures
            pc == self@.pc,
    {
        self.pc
    }

    /// The value of register `index`.
    pub fn register(&self, index: u32) -> (value: u32)
        requires
            index < 8,
        ensures
            value == self@.registers[index as int],
    {
        self.registers.get(index)
    }

    /// The machine's memory.
    pub fn memory(&self) -> (memory: &Memory)
        ensures
            memory@ == self@.memory,
    {
        &self.memory
    }

    /// Stops the machine on `fault`.
    fn fail(&mut self, fault: Fault) -> (action: Action)
        ensures
            (final(self)@, action) == old(self)@.fail(fault),
    {
        self.status = Status::Faulted(fault);
        Action::Fault(fault)
    }

    /// Executes one decoded instruction.
    fn dispatch(&mut self, instruction: Instruction) -> (action: Action)
        requires
            old(self)@.wf(),
            instruction.wf(),
        ensures
            (final(self)@, action) == old(self)@.dispatch(instruction),
    {
        proof {
            self.registers.lemma_len();
        }
        let a: u32 = self.registers.get(instruction.ra);
        let b: u32 = self.registers.get(instruction.rb);
        let c: u32 = self.registers.get(instruction.rc);
        match instruction.opcode {
            Opcode::CMov => {
                if c != 0 {
                    self.registers.set(instruction.ra, b);
                }
                Action::Continue
            },
            Opcode::Load => match self.memory.load(b, c) {
                Ok(word) => {
                    self.registers.set(instruction.ra, word);
                    Action::Continue
                },
                Err(fault) => self.fail(Fault::Memory(fault)),
            },
            Opcode::Store => match self.memory.store(a, b, c) {
                Ok(()) => Action::Continue,
                Err(fault) => self.fail(Fault::Memory(fault)),
            },
            Opcode::Add => {
                self.registers.set(instruction.ra, b.wrapping_add(c));
                Action::Continue
            },
            Opcode::Mul => {
                self.registers.set(instruction.ra, b.wrapping_mul(c));
                Action::Continue
            },
            Opcode::Div => {
                if c == 0 {
                    self.fail(Fault::DivisionByZero)
                } else {
                    self.registers.set(instruction.ra, b / c);
                    Action::Continue
                }
            },
            Opcode::Nand => {
                self.registers.set(instruction.ra, !(b & c));
                Action::Continue
            },
            Opcode::Halt => {
                self.status = Status::Halted;
                Action::Halt
            },
            Opcode::MapSegment => match self.memory.allocate(c) {
                Ok(id) => {
                    self.registers.set(instruction.rb, id);
                    Action::Continue
                },
                Err(fault) => self.fail(Fault::Memory(fault)),
            },
            Opcode::UnmapSegment => match self.memory.deallocate(c) {
                Ok(()) => Action::Continue,
                Err(fault) => self.fail(Fault::Memory(fault)),
            },
            Opcode::Output => {
                if c > 255 {
                    self.fail(Fault::OutputOutOfRange)
                } else {
                    Action::Output(c as u8)
                }
            },
            Opcode::Input => {
                self.status = Status::AwaitingInput(instruction.rc);
                Action::Input
            },
            Opcode::LoadProgram => match self.memory.load_segment(b) {
                Ok(()) => {
                    self.pc = c;
                    Action::Continue
                },
                Err(fault) => self.fail(Fault::Memory(fault)),
            },
            Opcode::LoadValue => {
                self.registers.set(instruction.ra, instruction.value);
                Action::Continue
            },
        }
    }

    /// Runs one cycle and returns what the host is to do.
    ///
    /// A running machine fetches the word at the program counter, decodes
    /// it, moves the counter on and executes the instruction. On
    /// [`Action::Input`] the machine waits until [`Machine::supply_input`]
    /// is called. A halted or faulted machine stays as it is and reports
    /// its halt or fault again.
    ///
    /// The counter wraps from 2^32 - 1 to 0, and the count of executed
    /// instructions stops at 2^64 - 1.
    pub fn step(&mut self) -> (action: Action)
        requires
            old(self)@.wf(),
        ensures
            final(self)@.wf(),
            (final(self)@, action) == old(self)@.step(),
    {
        proof {
            old(self)@.lemma_step_wf();
        }
        match self.status {
            Status::Halted => {
                return Action::Halt;
            },
            Status::Faulted(fault) => {
                return Action::Fault(fault);
            },
            Status::AwaitingInput(_) => {
                return Action::Input;
            },
            Status::Running => {},
        }
        let word: u32 = match self.memory.get_instruction(self.pc) {
            Ok(word) => word,
            Err(fault) => {
                return self.fail(Fault::Memory(fault));
            },
        };
        let instruction = match Instruction::decode(word) {
            Some(instruction) => instruction,
            None => {
                return self.fail(Fault::IllegalInstruction);
            },
        };
        self.pc = self.pc.wrapping_add(1);
        self.executed = self.executed.saturating_add(1);
        self.dispatch(instruction)
    }

    /// Answers an input request with a byte, or with `None` at the end of
    /// the stream, and lets the machine run on. Returns whether the machine
    /// was waiting for input; if it was not, nothing changes.
    pub fn supply_input(&mut self, byte: Option<u8>) -> (accepted: bool)
        requires
            old(self)@.wf(),
        ensures
            final(self)@.wf(),
            final(self)@ == old(self)@.supply(byte),
            accepted == (old(self)@.status is AwaitingInput),
    {
        match self.status {
            Status::AwaitingInput(register) => {
                let word: u32 = match byte {
                    Some(b) => b as u32,
                    None => 0xffff_ffff,
                };
                self.registers.set(register, word);
                self.status = Status::Running;
                true
            },
            _ => false,
        }
    }
}

/// The mathematical state of a run over in-memory streams: the machine,
/// the bytes written so far, and how many input bytes have been read.
pub struct Execution {
    pub machine: MachineView,
    pub output: Seq<u8>,
    pub consumed: nat,
}

impl Execution {
    /// The start of a run of `program`: nothing written, nothing read.
    pub open spec fn start(program: Seq<u32>) -> Execution {
        Execution { machine: MachineView::boot(program), output: Seq::empty(), consumed: 0 }
    }

    /// The byte that the next input request reads from `input`: `None` once
    /// every byte has been read.
    pub open spec fn next_byte(self, input: Seq<u8>) -> Option<u8> {
        if self.consumed < input.len() {
            Some(input[self.consumed as int])
        } else {
            None
        }
    }

    /// One cycle of the machine together with the action it asks for: an
    /// output byte is appended to the output, an input request is answered
    /// at once from `input`.
    pub open spec fn cycle(self, input: Seq<u8>) -> Execution {
        let (machine, action) = self.machine.step();
        match action {
            Action::Output(byte) => Execution { machine, output: self.output.push(byte), ..self },
            Action::Input => Execution {
                machine: machine.supply(self.next_byte(input)),
                consumed: if self.consumed < input.len() {
                    self.consumed + 1
                } else {
                    self.consumed
                },
                ..self
            },
            _ => Execution { machine, ..self },
        }
    }

    /// The run after `count` more cycles.
    pub open spec fn cycles(self, input: Seq<u8>, count: nat) -> Execution
        decreases count,
    {
        if count == 0 {
            self
        } else {
            self.cycle(input).cycles(input, (count - 1) as nat)
        }
    }

    /// A run whose machine has halted or faulted never changes again:
    /// nothing more is executed, written or read, however many cycles
    /// follow.
    pub proof fn lemma_terminal_is_final(self, input: Seq<u8>, count: nat)
        requires
            self.machine.is_terminal(),
        ensures
            self.cycles(input, count) == self,
        decreases count,
    {
        if count > 0 {
            assert(self.cycle(input) == self);
            self.lemma_terminal_is_final(input, (count - 1) as nat);
        }
    }

    /// Cycles add up: `first + second` cycles are `first` cycles followed
    /// by `second` cycles.
    pub proof fn lemma_cycles_add(self, input: Seq<u8>, first: nat, second: nat)
        ensures
            self.cycles(input, first + second) == self.cycles(input, first).cycles(input, second),
        decreases first,
    {
        if first > 0 {
            self.cycle(input).lemma_cycles_add(input, (first - 1) as nat, second);
        }
    }

    /// Once a run has halted or faulted within `count` cycles, a larger
    /// budget of cycles gives the very same result.
    pub proof fn lemma_budget_beyond_end(self, input: Seq<u8>, count: nat, more: nat)
        requires
            self.cycles(input, count).machine.is_terminal(),
        ensures
            self.cycles(input, count + more) == self.cycles(input, count),
    {
        self.lemma_cycles_add(input, count, more);
        self.cycles(input, count).lemma_terminal_is_final(input, more);
    }

    /// Executing a halt instruction ends the run: the instruction is
    /// counted, registers, memory, counter and streams are as the halt
    /// found them, and no later cycle changes anything, whatever words
    /// follow the halt in the program.
    pub proof fn lemma_halt_ends_run(self, input: Seq<u8>, count: nat)
        requires
            self.machine.next_instruction() matches Some(i) && i.opcode == Opcode::Halt,
            count > 0,
        ensures
            self.machine.step() == (
                MachineView { status: Status::Halted, ..self.machine.advance() },
                Action::Halt,
            ),
            self.cycles(input, count) == (Execution {
                machine: MachineView { status: Status::Halted, ..self.machine.advance() },
                ..self
            }),
    {
        self.cycle(input).lemma_terminal_is_final(input, (count - 1) as nat);
    }

    /// A cycle that raises a fault ends the run: the machine is left
    /// faulted, and nothing more is executed, written or read, however
    /// many cycles follow.
    pub proof fn lemma_fault_ends_run(self, input: Seq<u8>, count: nat)
        requires
            self.machine.step().1 is Fault,
            count > 0,
        ensures
            self.cycles(input, count) == (Execution { machine: self.machine.step().0, ..self }),
            self.cycles(input, count).machine.status is Faulted,
    {
        self.cycle(input).lemma_terminal_is_final(input, (count - 1) as nat);
    }
}

/// How a run ended, or where it stood when its budget of cycles ran out.
#[derive(Debug)]
pub struct Outcome {
    /// The machine as the run left it.
    pub machine: Machine,
    /// The bytes written, in order.
    pub output: Vec<u8>,
    /// How many bytes of the input were read.
    pub consumed: usize,
}

impl View for Outcome {
    type V = Execution;

    open spec fn view(&self) -> Execution {
        Execution { machine: self.machine@, output: self.output@, consumed: self.consumed as nat }
    }
}

/// Runs `program` from the start for at most `limit` cycles, reading from
/// `input` and collecting what is written.
///
/// The run ends early when the program halts or faults. An input
/// instruction reads the next byte of `input`, or the end of the stream
/// once `input` is used up.
pub fn run(program: Vec<u32>, input: &[u8], limit: u64) -> (outcome: Outcome)
    ensures
        outcome@ == Execution::start(program@).cycles(input@, limit as nat),
        outcome.machine@.wf(),
        outcome.consumed <= input@.len(),
{
    let ghost start = Execution::start(program@);
    let mut machine = Machine::new(program);
    let mut output: Vec<u8> = Vec::new();
    let mut consumed: usize = 0;
    let mut cycles: u64 = 0;
    while cycles < limit
        invariant
            machine@.wf(),
            consumed <= input@.len(),
            cycles <= limit,
            (Execution { machine: machine@, output: output@, consumed: consumed as nat }).cycles(
                input@,
                (limit - cycles) as nat,
            ) == start.cycles(input@, limit as nat),
        ensures
            machine@.wf(),
            consumed <= input@.len(),
            (Execution { machine: machine@, output: output@, consumed: consumed as nat })
                == start.cycles(input@, limit as nat),
        decreases limit - cycles,
    {
        let ghost before = Execution {
            machine: machine@,
            output: output@,
            consumed: consumed as nat,
        };
        assert(before.cycles(input@, (limit - cycles) as nat) == before.cycle(input@).cycles(
            input@,
            (limit - cycles - 1) as nat,
        ));
        match machine.step() {
            Action::Continue => {},
            Action::Output(byte) => {
                output.push(byte);
            },
            Action::Input => {
                if consumed < input.len() {
                    machine.supply_input(Some(input[consumed]));
                    consumed = consumed + 1;
                } else {
                    machine.supply_input(None);
                }
            },
            Action::Halt | Action::Fault(_) => {
                proof {
                    before.cycle(input@).lemma_terminal_is_final(
                        input@,
                        (limit - cycles - 1) as nat,
                    );
                }
                break;
            },
        }
        cycles = cycles + 1;
    }
    Outcome { machine, output, consumed }
}

/// The word that four bytes spell, most significant byte first.
pub open spec fn word_of(b0: u8, b1: u8, b2: u8, b3: u8) -> u32 {
    (b0 * 0x100_0000 + b1 * 0x1_0000 + b2 * 0x100 + b3) as u32
}

/// The words of a program image: each group of four bytes is one word,
/// most significant byte first. One to three bytes left over at the end
/// are dropped.
pub open spec fn words_of(image: Seq<u8>) -> Seq<u32> {
    Seq::new(
        (image.len() / 4) as nat,
        |k: int| word_of(image[4 * k], image[4 * k + 1], image[4 * k + 2], image[4 * k + 3]),
    )
}

/// Turns the bytes of a program image into the words of segment 0.
pub fn boot(image: &[u8]) -> (program: Vec<u32>)
    ensures
        program@ == words_of(image@),
{
    let count: usize = image.len() / 4;
    let mut program: Vec<u32> = Vec::with_capacity(count);
    let mut k: usize = 0;
    while k < count
        invariant
            count == image@.len() / 4,
            4 * count <= image@.len() <= usize::MAX,
            k <= count,
            program@.len() == k,
            forall|j: int| 0 <= j < k ==> #[trigger] program@[j] == words_of(image@)[j],
        decreases count - k,
    {
        let b0: u32 = image[4 * k] as u32;
        let b1: u32 = image[4 * k + 1] as u32;
        let b2: u32 = image[4 * k + 2] as u32;
        let b3: u32 = image[4 * k + 3] as u32;
        program.push(b0 * 0x100_0000 + b1 * 0x1_0000 + b2 * 0x100 + b3);
        k = k + 1;
    }
    assert(program@ =~= words_of(image@));
    program
}

} // verus!
