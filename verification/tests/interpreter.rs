use brainfuck::interp::{brainfuck, ExecError};
use brainfuck::lexer::{trans, OpCode};
use brainfuck::machine::{byte_dec, byte_inc, Machine};
use brainfuck::parser::{parse, Instruction, ParseError};

fn machine_with(tape: Vec<u8>, ptr: usize, input: Vec<u8>) -> Machine {
    Machine { tape, ptr, input, in_pos: 0, output: Vec::new() }
}

fn program(src: &str) -> Vec<Instruction> {
    parse(trans(src.to_string())).expect("program should parse")
}

#[test]
fn lexer_filters_comments() {
    let ops = trans("a+b-c".to_string());
    assert_eq!(ops, vec![OpCode::Increment, OpCode::Decrement]);
}

#[test]
fn lexer_keeps_all_commands_in_order() {
    let ops = trans("><+-.,[]".to_string());
    assert_eq!(
        ops,
        vec![
            OpCode::IncrementPtr,
            OpCode::DecrementPtr,
            OpCode::Increment,
            OpCode::Decrement,
            OpCode::Write,
            OpCode::Read,
            OpCode::LoopStart,
            OpCode::LoopEnd,
        ]
    );
}

#[test]
fn lexer_skips_non_ascii_comments() {
    let ops = trans("é+≠-☃".to_string());
    assert_eq!(ops, vec![OpCode::Increment, OpCode::Decrement]);
}

#[test]
fn lexer_empty_and_comment_only() {
    assert_eq!(trans(String::new()), Vec::new());
    assert_eq!(trans("hello world\n".to_string()), Vec::new());
}

#[test]
fn parser_round_trips_flat_programs() {
    let code = parse(trans("+-><".to_string())).expect("flat program should parse");
    assert_eq!(
        code,
        vec![
            Instruction::Increment,
            Instruction::Decrement,
            Instruction::IncrementPtr,
            Instruction::DecrementPtr,
        ]
    );
}

#[test]
fn parser_collapses_bracket_pair() {
    let code = parse(trans("[->+<]".to_string())).expect("loop should parse");
    assert_eq!(
        code,
        vec![Instruction::Loop(vec![
            Instruction::Decrement,
            Instruction::IncrementPtr,
            Instruction::Increment,
            Instruction::DecrementPtr,
        ])]
    );
}

#[test]
fn parser_nested_loops() {
    let code = parse(trans("[[]]".to_string())).expect("nested loops should parse");
    assert_eq!(code, vec![Instruction::Loop(vec![Instruction::Loop(Vec::new())])]);
}

#[test]
fn parser_rejects_unmatched_end() {
    let r = parse(trans("]".to_string()));
    assert_eq!(r, Err(ParseError::UnmatchedLoopEnd { pos: 0 }));
}

#[test]
fn parser_rejects_unmatched_start() {
    let r = parse(trans("[".to_string()));
    assert_eq!(r, Err(ParseError::UnmatchedLoopStart { pos: 0 }));
}

#[test]
fn parser_reports_recorded_start_position() {
    // The second top-level loop-start is the one left open.
    let r = parse(trans("[]+[".to_string()));
    assert_eq!(r, Err(ParseError::UnmatchedLoopStart { pos: 3 }));
}

#[test]
fn parser_reports_first_stray_end_position() {
    let r = parse(trans("[]]".to_string()));
    assert_eq!(r, Err(ParseError::UnmatchedLoopEnd { pos: 2 }));
}

#[test]
fn increment_wraps_255_to_0() {
    let mut m = machine_with(vec![255], 0, Vec::new());
    let mut fuel = 100u64;
    let r = brainfuck(&program("+"), &mut m, &mut fuel);
    assert_eq!(r, Ok(()));
    assert_eq!(m.tape, vec![0]);
}

#[test]
fn decrement_wraps_0_to_255() {
    let mut m = machine_with(vec![0], 0, Vec::new());
    let mut fuel = 100u64;
    let r = brainfuck(&program("-"), &mut m, &mut fuel);
    assert_eq!(r, Ok(()));
    assert_eq!(m.tape, vec![255]);
}

#[test]
fn byte_helpers_wrap() {
    assert_eq!(byte_inc(255), 0);
    assert_eq!(byte_dec(0), 255);
    assert_eq!(byte_inc(41), 42);
    assert_eq!(byte_dec(42), 41);
}

#[test]
fn loop_with_zero_guard_never_runs() {
    let mut m = machine_with(vec![0, 9], 0, Vec::new());
    let mut fuel = 100u64;
    let r = brainfuck(&program("[->+<]"), &mut m, &mut fuel);
    assert_eq!(r, Ok(()));
    assert_eq!(m.tape, vec![0, 9]);
    assert_eq!(m.ptr, 0);
    assert_eq!(fuel, 100, "a skipped loop costs no fuel");
}

#[test]
fn guard_decrementing_loop_terminates() {
    let mut m = machine_with(vec![0, 0], 0, Vec::new());
    let mut fuel = 100u64;
    let r = brainfuck(&program("++[->+<]"), &mut m, &mut fuel);
    assert_eq!(r, Ok(()));
    assert_eq!(m.tape, vec![0, 2]);
    assert_eq!(m.ptr, 0);
}

#[test]
fn move_value_program_on_zero_tape() {
    // The pointer comes back to the zeroed start cell before the loop, so
    // the loop runs zero iterations and the value stays where it was put.
    let mut m = machine_with(vec![0, 0, 0], 0, Vec::new());
    let mut fuel = 100u64;
    let r = brainfuck(&program(">>++<<[->+<]"), &mut m, &mut fuel);
    assert_eq!(r, Ok(()));
    assert_eq!(m.tape, vec![0, 0, 2]);
    assert_eq!(m.ptr, 0);
}

#[test]
fn addition_via_loop() {
    let mut m = machine_with(vec![0, 0], 0, Vec::new());
    let mut fuel = 100u64;
    let r = brainfuck(&program("++>+++[-<+>]"), &mut m, &mut fuel);
    assert_eq!(r, Ok(()));
    assert_eq!(m.tape, vec![5, 0]);
    assert_eq!(m.ptr, 1);
}

#[test]
fn read_consumes_input_bytes_in_order() {
    let mut m = machine_with(vec![0, 0], 0, vec![65, 66]);
    let mut fuel = 100u64;
    let r = brainfuck(&program(",>,"), &mut m, &mut fuel);
    assert_eq!(r, Ok(()));
    assert_eq!(m.tape, vec![65, 66]);
    assert_eq!(m.in_pos, 2);
}

#[test]
fn read_after_end_of_input_is_a_no_op() {
    let mut m = machine_with(vec![7], 0, Vec::new());
    let mut fuel = 100u64;
    let r = brainfuck(&program(","), &mut m, &mut fuel);
    assert_eq!(r, Ok(()));
    assert_eq!(m.tape, vec![7], "the cell keeps its pre-instruction value");
    assert_eq!(m.in_pos, 0);
}

#[test]
fn read_after_consuming_all_input_is_a_no_op() {
    let mut m = machine_with(vec![0], 0, vec![9]);
    let mut fuel = 100u64;
    let r = brainfuck(&program(",+,"), &mut m, &mut fuel);
    assert_eq!(r, Ok(()));
    assert_eq!(m.tape, vec![10], "the second read leaves the incremented value");
    assert_eq!(m.in_pos, 1);
}

#[test]
fn write_emits_raw_cell_values() {
    let mut m = machine_with(vec![66, 67], 0, Vec::new());
    let mut fuel = 100u64;
    let r = brainfuck(&program(".>.."), &mut m, &mut fuel);
    assert_eq!(r, Ok(()));
    assert_eq!(m.output, vec![66, 67, 67]);
}

#[test]
fn pointer_past_right_edge_faults() {
    let mut m = machine_with(vec![0, 0], 0, Vec::new());
    let mut fuel = 100u64;
    let r = brainfuck(&program(">>"), &mut m, &mut fuel);
    assert_eq!(r, Err(ExecError::OutOfBounds));
}

#[test]
fn pointer_past_left_edge_faults() {
    let mut m = machine_with(vec![0, 0], 1, Vec::new());
    let mut fuel = 100u64;
    let r = brainfuck(&program("<<"), &mut m, &mut fuel);
    assert_eq!(r, Err(ExecError::OutOfBounds));
}

#[test]
fn endless_loop_exhausts_fuel() {
    let mut m = machine_with(vec![0], 0, Vec::new());
    let mut fuel = 10u64;
    let r = brainfuck(&program("+[]"), &mut m, &mut fuel);
    assert_eq!(r, Err(ExecError::OutOfFuel));
}

#[test]
fn empty_program_changes_nothing() {
    let mut m = machine_with(vec![3, 4], 1, vec![9]);
    let mut fuel = 7u64;
    let r = brainfuck(&program(""), &mut m, &mut fuel);
    assert_eq!(r, Ok(()));
    assert_eq!(m.tape, vec![3, 4]);
    assert_eq!(m.ptr, 1);
    assert_eq!(m.in_pos, 0);
    assert_eq!(m.output, Vec::new());
    assert_eq!(fuel, 7);
}

#[test]
fn new_machine_is_zeroed() {
    let m = Machine::new(16, 8, vec![1, 2, 3]);
    assert_eq!(m.tape, vec![0; 16]);
    assert_eq!(m.ptr, 8);
    assert_eq!(m.input, vec![1, 2, 3]);
    assert_eq!(m.in_pos, 0);
    assert_eq!(m.output, Vec::new());
}
