use rum::machine::{boot, run, Action, Fault, Machine, Status};
use rum::memory::MemoryFault;

const CMOV: u32 = 0;
const LOAD: u32 = 1;
const STORE: u32 = 2;
const ADD: u32 = 3;
const MUL: u32 = 4;
const DIV: u32 = 5;
const NAND: u32 = 6;
const HALT: u32 = 7;
const MAP: u32 = 8;
const UNMAP: u32 = 9;
const OUTPUT: u32 = 10;
const INPUT: u32 = 11;
const LOADPROG: u32 = 12;

fn three(op: u32, a: u32, b: u32, c: u32) -> u32 {
    (op << 28) | (a << 6) | (b << 3) | c
}

fn load_value(a: u32, value: u32) -> u32 {
    (13 << 28) | (a << 25) | value
}

fn halt() -> u32 {
    three(HALT, 0, 0, 0)
}

/// Steps `count` times and expects every step to complete silently.
fn step_quietly(machine: &mut Machine, count: u32) {
    let mut done: u32 = 0;
    while done < count {
        assert_eq!(machine.step(), Action::Continue);
        done += 1;
    }
}

fn registers_of(machine: &Machine) -> [u32; 8] {
    let mut values: [u32; 8] = [0; 8];
    let mut index: u32 = 0;
    while index < 8 {
        values[index as usize] = machine.register(index);
        index += 1;
    }
    values
}

#[test]
fn new_machine_is_running_at_zero() {
    let machine = Machine::new(vec![halt()]);
    assert_eq!(machine.status(), Status::Running);
    assert_eq!(machine.pc(), 0);
    assert_eq!(machine.executed(), 0);
    assert_eq!(registers_of(&machine), [0; 8]);
    assert_eq!(machine.memory().get_instruction(0), Ok(halt()));
}

#[test]
fn halt_stops_the_engine_whatever_follows() {
    let program = vec![halt(), 0xffff_ffff, load_value(0, 65), three(OUTPUT, 0, 0, 0)];
    let outcome = run(program, &[], 1000);
    assert_eq!(outcome.machine.status(), Status::Halted);
    assert_eq!(outcome.machine.executed(), 1);
    assert_eq!(outcome.machine.pc(), 1);
    assert_eq!(outcome.output, Vec::<u8>::new());
    assert_eq!(registers_of(&outcome.machine), [0; 8]);
}

#[test]
fn halted_machine_repeats_halt_and_executes_nothing() {
    let mut machine = Machine::new(vec![load_value(1, 9), halt(), load_value(1, 3)]);
    assert_eq!(machine.step(), Action::Continue);
    assert_eq!(machine.step(), Action::Halt);
    assert_eq!(machine.status(), Status::Halted);
    assert_eq!(machine.executed(), 2);
    assert_eq!(machine.step(), Action::Halt);
    assert_eq!(machine.step(), Action::Halt);
    assert_eq!(machine.executed(), 2);
    assert_eq!(machine.pc(), 2);
    assert_eq!(machine.register(1), 9);
}

#[test]
fn budget_beyond_the_halt_changes_nothing() {
    let program = vec![load_value(0, 72), three(OUTPUT, 0, 0, 0), halt()];
    let short = run(program.clone(), &[], 3);
    let long = run(program, &[], 3_000);
    assert_eq!(short.machine.status(), Status::Halted);
    assert_eq!(long.machine.status(), Status::Halted);
    assert_eq!(short.machine.executed(), long.machine.executed());
    assert_eq!(short.output, long.output);
    assert_eq!(short.consumed, long.consumed);
}

#[test]
fn add_wraps_modulo_two_to_the_32() {
    let program = vec![
        three(NAND, 1, 0, 0),
        load_value(2, 1),
        three(ADD, 3, 1, 2),
        three(ADD, 4, 1, 1),
        three(ADD, 5, 2, 2),
    ];
    let mut machine = Machine::new(program);
    step_quietly(&mut machine, 5);
    assert_eq!(machine.register(1), 0xffff_ffff);
    assert_eq!(machine.register(3), 0);
    assert_eq!(machine.register(4), 0xffff_fffe);
    assert_eq!(machine.register(5), 2);
}

#[test]
fn multiply_wraps_modulo_two_to_the_32() {
    let program = vec![
        three(NAND, 1, 0, 0),
        load_value(2, 2),
        three(MUL, 3, 1, 2),
        load_value(4, 0x1_0000),
        three(MUL, 5, 4, 4),
        load_value(6, 1234),
        three(MUL, 7, 6, 2),
        three(MUL, 6, 1, 1),
    ];
    let mut machine = Machine::new(program);
    step_quietly(&mut machine, 8);
    assert_eq!(machine.register(3), 0xffff_fffe);
    assert_eq!(machine.register(5), 0);
    assert_eq!(machine.register(7), 2468);
    assert_eq!(machine.register(6), 1);
}

#[test]
fn conditional_move_skips_on_zero() {
    let program = vec![load_value(1, 5), load_value(2, 9), three(CMOV, 1, 2, 3)];
    let mut machine = Machine::new(program);
    step_quietly(&mut machine, 3);
    assert_eq!(registers_of(&machine), [0, 5, 9, 0, 0, 0, 0, 0]);
    assert_eq!(machine.pc(), 3);
}

#[test]
fn conditional_move_copies_on_nonzero() {
    let program =
        vec![load_value(1, 5), load_value(2, 9), load_value(3, 1), three(CMOV, 1, 2, 3)];
    let mut machine = Machine::new(program);
    step_quietly(&mut machine, 4);
    assert_eq!(registers_of(&machine), [0, 9, 9, 1, 0, 0, 0, 0]);
}

#[test]
fn divide_truncates() {
    let program = vec![
        load_value(1, 7),
        load_value(2, 2),
        three(DIV, 3, 1, 2),
        three(DIV, 4, 2, 1),
        three(NAND, 5, 0, 0),
        three(DIV, 6, 5, 2),
    ];
    let mut machine = Machine::new(program);
    step_quietly(&mut machine, 6);
    assert_eq!(machine.register(3), 3);
    assert_eq!(machine.register(4), 0);
    assert_eq!(machine.register(6), 0x7fff_ffff);
}

#[test]
fn divide_by_zero_faults() {
    let program = vec![load_value(1, 7), three(DIV, 3, 1, 2), load_value(4, 1)];
    let mut machine = Machine::new(program);
    step_quietly(&mut machine, 1);
    assert_eq!(machine.step(), Action::Fault(Fault::DivisionByZero));
    assert_eq!(machine.status(), Status::Faulted(Fault::DivisionByZero));
    assert_eq!(registers_of(&machine), [0, 7, 0, 0, 0, 0, 0, 0]);
    assert_eq!(machine.step(), Action::Fault(Fault::DivisionByZero));
    assert_eq!(registers_of(&machine), [0, 7, 0, 0, 0, 0, 0, 0]);
}

#[test]
fn faulting_instruction_is_counted_and_passed() {
    let program = vec![load_value(1, 7), three(DIV, 3, 1, 2)];
    let mut machine = Machine::new(program);
    step_quietly(&mut machine, 1);
    assert_eq!(machine.step(), Action::Fault(Fault::DivisionByZero));
    assert_eq!(machine.executed(), 2);
    assert_eq!(machine.pc(), 2);
    assert_eq!(machine.step(), Action::Fault(Fault::DivisionByZero));
    assert_eq!(machine.executed(), 2);
    assert_eq!(machine.pc(), 2);
}

#[test]
fn nand_is_bitwise() {
    let program = vec![
        load_value(1, 0b1100),
        load_value(2, 0b1010),
        three(NAND, 3, 1, 2),
        three(NAND, 4, 0, 0),
        three(NAND, 5, 4, 4),
    ];
    let mut machine = Machine::new(program);
    step_quietly(&mut machine, 5);
    assert_eq!(machine.register(3), 0xffff_fff7);
    assert_eq!(machine.register(4), 0xffff_ffff);
    assert_eq!(machine.register(5), 0);
}

#[test]
fn load_value_sets_the_named_register() {
    let program = vec![load_value(7, 0x1ff_ffff), load_value(0, 1), load_value(7, 0)];
    let mut machine = Machine::new(program);
    step_quietly(&mut machine, 2);
    assert_eq!(registers_of(&machine), [1, 0, 0, 0, 0, 0, 0, 0x1ff_ffff]);
    step_quietly(&mut machine, 1);
    assert_eq!(registers_of(&machine), [1, 0, 0, 0, 0, 0, 0, 0]);
}

#[test]
fn hello_h_end_to_end() {
    let program = vec![load_value(0, 72), three(OUTPUT, 0, 0, 0), halt()];
    let outcome = run(program, &[], 100);
    assert_eq!(outcome.output, vec![72u8]);
    assert_eq!(outcome.output, b"H".to_vec());
    assert_eq!(outcome.machine.status(), Status::Halted);
    assert_eq!(outcome.machine.executed(), 3);
    assert_eq!(outcome.consumed, 0);
}

#[test]
fn map_store_load_output_end_to_end() {
    let program = vec![
        load_value(1, 4),
        three(MAP, 0, 2, 1),
        load_value(3, 2),
        load_value(4, 99),
        three(STORE, 2, 3, 4),
        three(LOAD, 5, 2, 3),
        three(OUTPUT, 0, 0, 5),
        halt(),
    ];
    let outcome = run(program, &[], 100);
    assert_eq!(outcome.output, vec![99u8]);
    assert_eq!(outcome.machine.status(), Status::Halted);
    assert_eq!(outcome.machine.executed(), 8);
    assert_eq!(outcome.machine.register(2), 1);
    assert_eq!(outcome.machine.register(5), 99);
    assert_eq!(outcome.machine.memory().load(1, 2), Ok(99));
    assert_eq!(outcome.machine.memory().load(1, 3), Ok(0));
    assert_eq!(outcome.machine.memory().load(1, 4), Err(MemoryFault::OutOfBounds));
}

#[test]
fn load_from_unallocated_segment_faults_end_to_end() {
    let program = vec![
        load_value(2, 65),
        three(OUTPUT, 0, 0, 2),
        load_value(1, 5),
        three(LOAD, 0, 1, 0),
        three(OUTPUT, 0, 0, 2),
        halt(),
    ];
    let outcome = run(program, &[], 100);
    assert_eq!(outcome.machine.status(), Status::Faulted(Fault::Memory(MemoryFault::UnmappedSegment)));
    assert_eq!(outcome.output, vec![65u8]);
    assert_eq!(outcome.machine.register(0), 0);
}

#[test]
fn load_and_store_out_of_bounds_fault() {
    let program = vec![load_value(1, 1), three(LOAD, 2, 0, 1)];
    let mut machine = Machine::new(program.clone());
    step_quietly(&mut machine, 1);
    assert_eq!(machine.step(), Action::Continue);
    assert_eq!(machine.register(2), three(LOAD, 2, 0, 1));

    let mut machine = Machine::new(vec![load_value(1, 2), three(LOAD, 2, 0, 1)]);
    step_quietly(&mut machine, 1);
    assert_eq!(machine.step(), Action::Fault(Fault::Memory(MemoryFault::OutOfBounds)));

    let mut machine = Machine::new(vec![load_value(1, 2), three(STORE, 0, 1, 1)]);
    step_quietly(&mut machine, 1);
    assert_eq!(machine.step(), Action::Fault(Fault::Memory(MemoryFault::OutOfBounds)));
    assert_eq!(machine.memory().get_instruction(0), Ok(load_value(1, 2)));

    let mut machine = Machine::new(vec![load_value(1, 2), three(STORE, 1, 0, 1)]);
    step_quietly(&mut machine, 1);
    assert_eq!(machine.step(), Action::Fault(Fault::Memory(MemoryFault::UnmappedSegment)));
}

#[test]
fn store_can_rewrite_the_running_program() {
    let program = vec![load_value(1, 2), three(STORE, 0, 1, 2), load_value(3, 7), halt()];
    let mut machine = Machine::new(program);
    step_quietly(&mut machine, 2);
    assert_eq!(machine.memory().get_instruction(2), Ok(0));
    step_quietly(&mut machine, 1);
    assert_eq!(machine.register(3), 0);
    assert_eq!(machine.step(), Action::Halt);
}

#[test]
fn map_and_unmap_reuse_ids() {
    let program = vec![
        load_value(1, 3),
        three(MAP, 0, 2, 1),
        three(MAP, 0, 3, 1),
        three(UNMAP, 0, 0, 2),
        three(MAP, 0, 4, 1),
        three(MAP, 0, 5, 1),
    ];
    let mut machine = Machine::new(program);
    step_quietly(&mut machine, 3);
    assert_eq!(machine.register(2), 1);
    assert_eq!(machine.register(3), 2);
    step_quietly(&mut machine, 1);
    assert_eq!(machine.memory().load(1, 0), Err(MemoryFault::UnmappedSegment));
    step_quietly(&mut machine, 2);
    assert_eq!(machine.register(4), 1);
    assert_eq!(machine.register(5), 3);
}

#[test]
fn unmap_of_program_or_dead_segment_faults() {
    let mut machine = Machine::new(vec![three(UNMAP, 0, 0, 0)]);
    assert_eq!(machine.step(), Action::Fault(Fault::Memory(MemoryFault::ProgramSegment)));
    assert_eq!(machine.memory().get_instruction(0), Ok(three(UNMAP, 0, 0, 0)));

    let mut machine = Machine::new(vec![load_value(1, 1), three(UNMAP, 0, 0, 1)]);
    step_quietly(&mut machine, 1);
    assert_eq!(machine.step(), Action::Fault(Fault::Memory(MemoryFault::UnmappedSegment)));

    let program = vec![
        load_value(1, 1),
        three(MAP, 0, 2, 1),
        three(UNMAP, 0, 0, 2),
        three(UNMAP, 0, 0, 2),
    ];
    let mut machine = Machine::new(program);
    step_quietly(&mut machine, 3);
    assert_eq!(machine.step(), Action::Fault(Fault::Memory(MemoryFault::UnmappedSegment)));
}

#[test]
fn output_above_255_faults() {
    let mut machine = Machine::new(vec![load_value(1, 255), three(OUTPUT, 0, 0, 1)]);
    step_quietly(&mut machine, 1);
    assert_eq!(machine.step(), Action::Output(255));
    assert_eq!(machine.status(), Status::Running);

    let mut machine = Machine::new(vec![load_value(1, 256), three(OUTPUT, 0, 0, 1)]);
    step_quietly(&mut machine, 1);
    assert_eq!(machine.step(), Action::Fault(Fault::OutputOutOfRange));
    assert_eq!(machine.status(), Status::Faulted(Fault::OutputOutOfRange));

    let outcome = run(vec![load_value(1, 0x148), three(OUTPUT, 0, 0, 1), halt()], &[], 10);
    assert_eq!(outcome.output, Vec::<u8>::new());
    assert_eq!(outcome.machine.status(), Status::Faulted(Fault::OutputOutOfRange));
}

#[test]
fn input_waits_for_its_byte() {
    let mut machine = Machine::new(vec![three(INPUT, 0, 0, 4), halt()]);
    assert_eq!(machine.step(), Action::Input);
    assert_eq!(machine.status(), Status::AwaitingInput(4));
    assert_eq!(machine.executed(), 1);
    assert_eq!(machine.step(), Action::Input);
    assert_eq!(machine.executed(), 1);
    assert_eq!(machine.pc(), 1);
    assert!(machine.supply_input(Some(65)));
    assert_eq!(machine.status(), Status::Running);
    assert_eq!(registers_of(&machine), [0, 0, 0, 0, 65, 0, 0, 0]);
    assert_eq!(machine.step(), Action::Halt);
}

#[test]
fn input_at_end_of_stream_sets_all_bits() {
    let mut machine = Machine::new(vec![three(INPUT, 0, 0, 2)]);
    assert_eq!(machine.step(), Action::Input);
    assert!(machine.supply_input(None));
    assert_eq!(machine.register(2), 0xffff_ffff);
    assert_eq!(machine.status(), Status::Running);
}

#[test]
fn unrequested_input_is_ignored() {
    let mut machine = Machine::new(vec![load_value(1, 3), halt()]);
    assert!(!machine.supply_input(Some(9)));
    assert_eq!(machine.status(), Status::Running);
    assert_eq!(registers_of(&machine), [0; 8]);
    step_quietly(&mut machine, 1);
    assert_eq!(machine.step(), Action::Halt);
    assert!(!machine.supply_input(None));
    assert_eq!(machine.status(), Status::Halted);
    assert_eq!(registers_of(&machine), [0, 3, 0, 0, 0, 0, 0, 0]);
}

#[test]
fn run_reads_input_in_order() {
    let program = vec![
        three(INPUT, 0, 0, 1),
        three(OUTPUT, 0, 0, 1),
        three(INPUT, 0, 0, 2),
        three(OUTPUT, 0, 0, 2),
        three(OUTPUT, 0, 0, 1),
        halt(),
    ];
    let outcome = run(program, &[104, 105, 106], 100);
    assert_eq!(outcome.output, vec![104u8, 105, 104]);
    assert_eq!(outcome.consumed, 2);
    assert_eq!(outcome.machine.status(), Status::Halted);
    assert_eq!(outcome.machine.executed(), 6);
}

#[test]
fn run_signals_end_of_input() {
    let program = vec![
        three(INPUT, 0, 0, 1),
        three(INPUT, 0, 0, 2),
        three(INPUT, 0, 0, 3),
        three(NAND, 4, 2, 2),
        halt(),
    ];
    let outcome = run(program, &[7], 100);
    assert_eq!(outcome.consumed, 1);
    assert_eq!(registers_of(&outcome.machine), [0, 7, 0xffff_ffff, 0xffff_ffff, 0, 0, 0, 0]);
    assert_eq!(outcome.machine.status(), Status::Halted);
}

#[test]
fn load_program_with_segment_zero_is_a_jump() {
    let program = vec![
        load_value(1, 3),
        three(LOADPROG, 0, 0, 1),
        load_value(2, 66),
        load_value(3, 67),
        halt(),
    ];
    let outcome = run(program, &[], 100);
    assert_eq!(outcome.machine.status(), Status::Halted);
    assert_eq!(outcome.machine.executed(), 4);
    assert_eq!(registers_of(&outcome.machine), [0, 3, 0, 67, 0, 0, 0, 0]);
    assert_eq!(outcome.machine.pc(), 5);
}

#[test]
fn load_program_replaces_the_program() {
    let program = vec![
        load_value(1, 7),
        load_value(2, 0x100_0000),
        three(MUL, 1, 1, 2),
        load_value(2, 16),
        three(MUL, 1, 1, 2),
        load_value(3, 2),
        three(MAP, 0, 4, 3),
        load_value(5, 1),
        three(STORE, 4, 5, 1),
        three(LOADPROG, 0, 4, 5),
        load_value(6, 1),
    ];
    let mut machine = Machine::new(program);
    step_quietly(&mut machine, 10);
    assert_eq!(machine.register(1), halt());
    assert_eq!(machine.pc(), 1);
    assert_eq!(machine.memory().get_instruction(0), Ok(0));
    assert_eq!(machine.memory().get_instruction(1), Ok(halt()));
    assert_eq!(machine.memory().get_instruction(2), Err(MemoryFault::OutOfBounds));
    assert_eq!(machine.step(), Action::Halt);
    assert_eq!(machine.register(6), 0);
    assert_eq!(machine.executed(), 11);
    assert_eq!(machine.memory().load(1, 1), Ok(halt()));
}

#[test]
fn load_program_from_dead_segment_faults() {
    let mut machine = Machine::new(vec![load_value(1, 9), three(LOADPROG, 0, 1, 0)]);
    step_quietly(&mut machine, 1);
    assert_eq!(machine.step(), Action::Fault(Fault::Memory(MemoryFault::UnmappedSegment)));
    assert_eq!(machine.memory().get_instruction(0), Ok(load_value(1, 9)));
}

#[test]
fn illegal_instruction_faults_before_anything_moves() {
    let mut machine = Machine::new(vec![0xe000_0000]);
    assert_eq!(machine.step(), Action::Fault(Fault::IllegalInstruction));
    assert_eq!(machine.status(), Status::Faulted(Fault::IllegalInstruction));
    assert_eq!(machine.executed(), 0);
    assert_eq!(machine.pc(), 0);

    let outcome = run(vec![load_value(1, 1), 0xf123_4567, halt()], &[], 10);
    assert_eq!(outcome.machine.status(), Status::Faulted(Fault::IllegalInstruction));
    assert_eq!(outcome.machine.executed(), 1);
}

#[test]
fn running_off_the_end_faults() {
    let mut machine = Machine::new(vec![]);
    assert_eq!(machine.step(), Action::Fault(Fault::Memory(MemoryFault::OutOfBounds)));
    assert_eq!(machine.executed(), 0);

    let outcome = run(vec![load_value(1, 1)], &[], 10);
    assert_eq!(
        outcome.machine.status(),
        Status::Faulted(Fault::Memory(MemoryFault::OutOfBounds))
    );
    assert_eq!(outcome.machine.executed(), 1);
    assert_eq!(outcome.machine.pc(), 1);
}

#[test]
fn run_stops_when_the_budget_is_spent() {
    let program = vec![three(LOADPROG, 0, 0, 0)];
    let outcome = run(program, &[], 1000);
    assert_eq!(outcome.machine.status(), Status::Running);
    assert_eq!(outcome.machine.executed(), 1000);
    assert_eq!(outcome.machine.pc(), 0);

    let outcome = run(vec![load_value(1, 1), load_value(2, 2), halt()], &[], 2);
    assert_eq!(outcome.machine.status(), Status::Running);
    assert_eq!(registers_of(&outcome.machine), [0, 1, 2, 0, 0, 0, 0, 0]);
}

#[test]
fn run_with_no_budget_does_nothing() {
    let outcome = run(vec![halt()], &[1, 2], 0);
    assert_eq!(outcome.machine.status(), Status::Running);
    assert_eq!(outcome.machine.executed(), 0);
    assert_eq!(outcome.consumed, 0);
    assert_eq!(outcome.output, Vec::<u8>::new());
}

#[test]
fn boot_reads_big_endian_words() {
    assert_eq!(boot(&[0xd0, 0x00, 0x00, 0x48]), vec![0xd000_0048]);
    assert_eq!(
        boot(&[0x01, 0x02, 0x03, 0x04, 0xff, 0xfe, 0xfd, 0xfc]),
        vec![0x0102_0304, 0xfffe_fdfc]
    );
    assert_eq!(boot(&[0, 0, 0, 1]), vec![1]);
    assert_eq!(boot(&[1, 0, 0, 0]), vec![0x0100_0000]);
}

#[test]
fn boot_drops_a_trailing_partial_word() {
    assert_eq!(boot(&[]), Vec::<u32>::new());
    assert_eq!(boot(&[1]), Vec::<u32>::new());
    assert_eq!(boot(&[1, 2, 3]), Vec::<u32>::new());
    assert_eq!(boot(&[0, 0, 0, 9, 1]), vec![9]);
    assert_eq!(boot(&[0, 0, 0, 9, 1, 2, 3]), vec![9]);
}

#[test]
fn booted_image_runs() {
    let image: [u8; 12] = [0xd0, 0, 0, 72, 0xa0, 0, 0, 0, 0x70, 0, 0, 0];
    let outcome = run(boot(&image), &[], 10);
    assert_eq!(outcome.output, vec![72u8]);
    assert_eq!(outcome.machine.status(), Status::Halted);
}
