use intcode::{
    deconstruct_opcode, ErrorStatus, ExecutionStatus, IntCodeMachine, Memory, Num, Op, ParamMode,
};

fn run(program: Vec<Num>, input: Vec<Num>) -> (IntCodeMachine, Result<ExecutionStatus, ErrorStatus>) {
    let mut machine = IntCodeMachine::new(program, input, 100);
    let r = machine.execute();
    (machine, r)
}

#[test]
fn flatten_exact_multiple_is_unpadded() {
    let data = vec![1, 2, 3, 4, 5, 6, 7, 8, 9, 10];
    let mem = Memory::from_vec(2, data.clone());
    assert_eq!(mem.flatten(), data);
    assert_eq!(mem.virtual_size(), 10);
}

#[test]
fn flatten_pads_to_next_page_multiple() {
    let data = vec![7, 8, 9];
    let mem = Memory::from_vec(4, data);
    assert_eq!(mem.flatten(), vec![7, 8, 9, 0]);
    assert_eq!(mem.virtual_size(), 4);
}

#[test]
fn unwritten_reads_return_zero_without_materializing() {
    let mem = Memory::from_vec(10, vec![1, 2, 3]);
    let size_before = mem.size();
    assert_eq!(mem.read_raw(5_000), Ok(0));
    assert_eq!(mem.read(2, ParamMode::Position), Ok(0));
    assert_eq!(mem.read(1_000, ParamMode::Immediate), Ok(0));
    assert_eq!(mem.size(), size_before);
}

#[test]
fn raw_write_read_round_trip_at_large_address() {
    let mut mem = Memory::from_vec(8, vec![]);
    mem.write_raw(100_000, -42).unwrap();
    assert_eq!(mem.read_raw(100_000), Ok(-42));
    assert_eq!(mem.read_raw(99_999), Ok(0));
}

#[test]
fn position_read_rejects_negative_pointer() {
    let mem = Memory::from_vec(10, vec![-1, 5]);
    assert_eq!(
        mem.read(0, ParamMode::Position),
        Err(ErrorStatus::IllegalMemoryAccess)
    );
}

#[test]
fn relative_read_applies_signed_offset() {
    let mut mem = Memory::from_vec(10, vec![10, -2, 30, 40, 50]);
    mem.relative_base = 5;
    // cell(1) == -2, so the target is 5 - 2 == 3
    assert_eq!(mem.read(1, ParamMode::Relative), Ok(40));
}

#[test]
fn relative_read_rejects_underflow() {
    let mem = Memory::from_vec(10, vec![-1]);
    assert_eq!(
        mem.read(0, ParamMode::Relative),
        Err(ErrorStatus::IllegalMemoryAccess)
    );
}

#[test]
fn out_of_bounds_write_is_reported() {
    let mut mem = Memory::from_vec(100, vec![]);
    assert_eq!(
        mem.write_raw(usize::MAX - 1, 1),
        Err(ErrorStatus::OutOfBounds)
    );
}

#[test]
fn arithmetic_advances_by_its_width() {
    let (machine, result) = run(vec![1, 5, 5, 0, 99, 3], vec![]);
    assert_eq!(result, Ok(ExecutionStatus::Halted));
    // Add occupies cells 0..4, Halt cell 4: the counter ends just past Halt.
    assert_eq!(machine.ip, 5);
    assert_eq!(machine.iteration, 2);
}

#[test]
fn input_blocks_then_resumes_on_same_instruction() {
    let mut machine = IntCodeMachine::new(vec![3, 0, 99], vec![], 100);
    let first = machine.execute();
    assert_eq!(first, Ok(ExecutionStatus::Blocking));
    assert!(machine.blocking);
    assert_eq!(machine.ip, 0, "a blocked Input must not move the counter");
    assert_eq!(machine.input_pointer, 0);

    machine.input_buffer.push(7);
    let second = machine.execute();
    assert_eq!(second, Ok(ExecutionStatus::Halted));
    assert!(!machine.blocking);
    assert_eq!(machine.memory.read_raw(0), Ok(7));
    assert_eq!(machine.input_pointer, 1);
}

#[test]
fn input_consumes_queue_in_fifo_order() {
    let (machine, result) = run(vec![3, 0, 3, 1, 99], vec![10, 20]);
    assert_eq!(result, Ok(ExecutionStatus::Halted));
    assert_eq!(machine.memory.read_raw(0), Ok(10));
    assert_eq!(machine.memory.read_raw(1), Ok(20));
    assert_eq!(machine.input_pointer, 2);
}

#[test]
fn jump_if_true_relocates_counter() {
    let (machine, result) = run(vec![1105, 1, 4, 98, 99], vec![]);
    assert_eq!(result, Ok(ExecutionStatus::Halted));
    // the jump landed on the Halt at 4, never touching the 98 at 3
    assert_eq!(machine.ip, 5);
    assert_eq!(machine.iteration, 2);
}

#[test]
fn jump_if_true_falls_through_on_zero() {
    let (machine, result) = run(vec![1105, 0, 4, 99], vec![]);
    assert_eq!(result, Ok(ExecutionStatus::Halted));
    assert_eq!(machine.ip, 4);
}

#[test]
fn jump_if_false_relocates_counter() {
    let (machine, result) = run(vec![1106, 0, 4, 98, 99], vec![]);
    assert_eq!(result, Ok(ExecutionStatus::Halted));
    assert_eq!(machine.ip, 5);
}

#[test]
fn less_than_and_equals_store_flags() {
    let (machine, result) = run(vec![1107, 1, 2, 9, 1108, 3, 3, 10, 99, -1, -1], vec![]);
    assert_eq!(result, Ok(ExecutionStatus::Halted));
    assert_eq!(machine.memory.read_raw(9), Ok(1));
    assert_eq!(machine.memory.read_raw(10), Ok(1));
}

#[test]
fn relative_base_addressing_through_engine() {
    let (machine, result) = run(vec![109, 6, 204, 0, 99, 0, 42], vec![]);
    assert_eq!(result, Ok(ExecutionStatus::Halted));
    assert_eq!(machine.output_buffer, vec![42]);
}

#[test]
fn negative_relative_base_is_illegal_access() {
    let (_, result) = run(vec![109, -1, 99], vec![]);
    assert_eq!(result, Err(ErrorStatus::IllegalMemoryAccess));
}

#[test]
fn unterminated_program() {
    // page size 4 keeps the virtual size tight: after the Add the counter is
    // at 4, past the end of memory, with no Halt ever executed
    let mut machine = IntCodeMachine::new(vec![1101, 1, 1, 0], vec![], 4);
    assert_eq!(machine.execute(), Err(ErrorStatus::UnterminatedProgram));
}

#[test]
fn unrecognized_operation_carries_selector() {
    let (_, result) = run(vec![98, 0, 0, 99], vec![]);
    assert_eq!(result, Err(ErrorStatus::UnrecognizedOp(98)));
}

#[test]
fn add_wraps_around_the_machine_word() {
    let (machine, result) = run(vec![1101, isize::MAX, 1, 0, 99], vec![]);
    assert_eq!(result, Ok(ExecutionStatus::Halted));
    assert_eq!(machine.memory.read_raw(0), Ok(isize::MIN));
}

#[test]
fn decoder_splits_selector_and_modes() {
    let mut modes: Vec<ParamMode> = Vec::new();
    let op = deconstruct_opcode(1002, &mut modes).unwrap();
    assert_eq!(op, Op::Mul);
    assert_eq!(
        modes,
        vec![ParamMode::Position, ParamMode::Immediate, ParamMode::Position]
    );
}

#[test]
fn decoder_reads_relative_mode_digits() {
    let mut modes: Vec<ParamMode> = Vec::new();
    let op = deconstruct_opcode(21108, &mut modes).unwrap();
    assert_eq!(op, Op::EQ);
    assert_eq!(
        modes,
        vec![
            ParamMode::Immediate,
            ParamMode::Immediate,
            ParamMode::Relative
        ]
    );
}

#[test]
fn decoder_rejects_unknown_selector() {
    let mut modes: Vec<ParamMode> = Vec::new();
    assert_eq!(
        deconstruct_opcode(42, &mut modes),
        Err(ErrorStatus::UnrecognizedOp(42))
    );
}

#[test]
fn op_sizes_match_the_table() {
    assert_eq!(Op::new(1).unwrap().size(), 4);
    assert_eq!(Op::new(3).unwrap().size(), 2);
    assert_eq!(Op::new(5).unwrap().size(), 3);
    assert_eq!(Op::new(99).unwrap().size(), 1);
}
