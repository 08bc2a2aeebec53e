use bf_vm::{Instruction, VM};
use std::collections::VecDeque;

fn run_source(src: &str, input: &[u8]) -> (VM, Vec<u8>, VecDeque<u8>) {
    let mut vm = match VM::construct(src) {
        Ok(vm) => vm,
        Err(_) => panic!("source should compile: {}", src),
    };
    let mut queue: VecDeque<u8> = input.iter().copied().collect();
    let mut output: Vec<u8> = Vec::new();
    vm.run(&mut queue, &mut output);
    (vm, output, queue)
}

#[test]
fn balanced_source_compiles_with_one_instruction_per_symbol() {
    let vm = VM::construct("+[->[<]>.], x").ok().unwrap();
    assert_eq!(vm.program_len(), 12);
    assert_eq!(vm.instruction_at(11), Instruction::Halt);
    assert_eq!(vm.instruction_pointer(), 0);
    assert_eq!(vm.data_pointer(), 0);
    assert_eq!(vm.cells(), vec![0]);
}

#[test]
fn jump_targets_link_matching_brackets() {
    let vm = VM::construct("[a[b]c]").ok().unwrap();
    assert_eq!(vm.program_len(), 5);
    assert_eq!(vm.instruction_at(0), Instruction::Jump(4));
    assert_eq!(vm.instruction_at(1), Instruction::Jump(3));
    assert_eq!(vm.instruction_at(2), Instruction::Loop(1));
    assert_eq!(vm.instruction_at(3), Instruction::Loop(0));
    assert_eq!(vm.instruction_at(4), Instruction::Halt);
}

#[test]
fn symbols_map_to_instructions() {
    let vm = VM::construct("><+-.,").ok().unwrap();
    assert_eq!(vm.instruction_at(0), Instruction::Right);
    assert_eq!(vm.instruction_at(1), Instruction::Left);
    assert_eq!(vm.instruction_at(2), Instruction::Up);
    assert_eq!(vm.instruction_at(3), Instruction::Down);
    assert_eq!(vm.instruction_at(4), Instruction::Out);
    assert_eq!(vm.instruction_at(5), Instruction::In);
    assert_eq!(vm.instruction_at(6), Instruction::Halt);
}

#[test]
fn excess_close_bracket_is_a_syntax_error() {
    assert!(VM::construct("]").is_err());
    assert!(VM::construct("+[-]]").is_err());
    assert!(VM::construct("[]][").is_err());
}

#[test]
fn unclosed_open_bracket_is_a_syntax_error() {
    assert!(VM::construct("[").is_err());
    assert!(VM::construct("+[[-]").is_err());
    assert!(VM::construct("[[]").is_err());
}

#[test]
fn increment_then_decrement_restores_zero() {
    let (vm, _, _) = run_source("+-", &[]);
    assert_eq!(vm.cells(), vec![0]);
}

#[test]
fn decrement_of_zero_wraps_to_255() {
    let (vm, output, _) = run_source("-.", &[]);
    assert_eq!(vm.cells(), vec![255]);
    assert_eq!(output, vec![255]);
}

#[test]
fn increment_of_255_wraps_to_zero() {
    let (vm, output, _) = run_source("-+.", &[]);
    assert_eq!(vm.cells(), vec![0]);
    assert_eq!(output, vec![0]);
}

#[test]
fn moving_left_from_first_cell_grows_tape_on_the_left() {
    let (vm, _, _) = run_source("<+", &[]);
    assert_eq!(vm.cells(), vec![1, 0]);
    assert_eq!(vm.data_pointer(), 0);
}

#[test]
fn moving_right_from_last_cell_grows_tape_on_the_right() {
    let (vm, _, _) = run_source("+>", &[]);
    assert_eq!(vm.cells(), vec![1, 0]);
    assert_eq!(vm.data_pointer(), 1);
}

#[test]
fn tape_never_shrinks_when_moving_back() {
    let (vm, _, _) = run_source(">><<<", &[]);
    assert_eq!(vm.cells(), vec![0, 0, 0, 0]);
    assert_eq!(vm.data_pointer(), 0);
}

#[test]
fn input_at_end_writes_zero() {
    let (vm, output, _) = run_source("+++,.", &[]);
    assert_eq!(vm.cells(), vec![0]);
    assert_eq!(output, vec![0]);
}

#[test]
fn scenario_a_two_increments_then_output() {
    let (_, output, _) = run_source("++.", &[]);
    assert_eq!(output, vec![2]);
}

#[test]
fn scenario_b_loop_moves_value_right() {
    let (vm, output, _) = run_source("+[>+<-]", &[]);
    assert_eq!(vm.cells(), vec![0, 1]);
    assert_eq!(vm.data_pointer(), 0);
    assert!(output.is_empty());
}

#[test]
fn scenario_c_echo() {
    let (_, output, rest) = run_source(",.", &[65]);
    assert_eq!(output, vec![65]);
    assert!(rest.is_empty());
}

#[test]
fn scenario_d_no_symbols_is_only_halt() {
    let vm = VM::construct("hello").ok().unwrap();
    assert_eq!(vm.program_len(), 1);
    assert_eq!(vm.instruction_at(0), Instruction::Halt);
    let (_, output, rest) = run_source("hello", &[1, 2, 3]);
    assert!(output.is_empty());
    assert_eq!(rest, VecDeque::from(vec![1, 2, 3]));
}

#[test]
fn empty_source_halts_at_once() {
    let (vm, output, _) = run_source("", &[]);
    assert!(vm.is_halted());
    assert!(output.is_empty());
    assert_eq!(vm.cells(), vec![0]);
}

#[test]
fn step_reports_the_halt_ahead() {
    let mut vm = VM::construct("+.").ok().unwrap();
    let mut input: VecDeque<u8> = VecDeque::new();
    let mut output: Vec<u8> = Vec::new();
    assert!(!vm.step(&mut input, &mut output));
    assert!(vm.step(&mut input, &mut output));
    assert_eq!(output, vec![1]);
    assert!(vm.is_halted());
}

#[test]
fn step_after_halt_is_a_no_op_returning_true() {
    let mut vm = VM::construct("+.").ok().unwrap();
    let mut input: VecDeque<u8> = VecDeque::from(vec![7]);
    let mut output: Vec<u8> = Vec::new();
    vm.run(&mut input, &mut output);
    let ip = vm.instruction_pointer();
    for _ in 0..3 {
        assert!(vm.step(&mut input, &mut output));
    }
    assert_eq!(vm.instruction_pointer(), ip);
    assert_eq!(vm.cells(), vec![1]);
    assert_eq!(output, vec![1]);
    assert_eq!(input, VecDeque::from(vec![7]));
}

#[test]
fn jump_over_loop_when_cell_is_zero() {
    let (vm, output, _) = run_source("[+.]+.", &[]);
    assert_eq!(output, vec![1]);
    assert_eq!(vm.cells(), vec![1]);
}

#[test]
fn nested_loops_multiply() {
    // 3 * 4 into the second cell
    let (vm, output, _) = run_source("+++[>++++<-]>.", &[]);
    assert_eq!(output, vec![12]);
    assert_eq!(vm.cells(), vec![0, 12]);
}

#[test]
fn input_is_consumed_in_order() {
    let (_, output, rest) = run_source(",.,.", &[10, 20, 30]);
    assert_eq!(output, vec![10, 20]);
    assert_eq!(rest, VecDeque::from(vec![30]));
}

#[test]
fn from_char_maps_symbols_and_ignores_the_rest() {
    assert_eq!(Instruction::from_char('>'), Instruction::Right);
    assert_eq!(Instruction::from_char('<'), Instruction::Left);
    assert_eq!(Instruction::from_char('+'), Instruction::Up);
    assert_eq!(Instruction::from_char('-'), Instruction::Down);
    assert_eq!(Instruction::from_char('.'), Instruction::Out);
    assert_eq!(Instruction::from_char(','), Instruction::In);
    assert_eq!(Instruction::from_char('['), Instruction::Jump(0));
    assert_eq!(Instruction::from_char(']'), Instruction::Loop(0));
    assert_eq!(Instruction::from_char('a'), Instruction::Halt);
    assert_eq!(Instruction::from_char(' '), Instruction::Halt);
}
