use brainfuck::{
    execute, resolve, Machine, Status, VmError, DEFAULT_TAPE_SIZE,
};

const BUDGET: u64 = 1_000_000;

fn prog(s: &str) -> Vec<u8> {
    s.as_bytes().to_vec()
}

#[test]
fn read_then_write_echoes_input() {
    let r = execute(&prog(",."), DEFAULT_TAPE_SIZE, &vec![65u8], BUDGET);
    assert_eq!(r.output, vec![65u8]);
    assert_eq!(r.result, Ok(Status::Halted));
}

#[test]
fn nested_loop_multiplies() {
    let r = execute(&prog("++++++++[>++++++++<-]>."), DEFAULT_TAPE_SIZE, &vec![], BUDGET);
    assert_eq!(r.output, vec![64u8]);
    assert_eq!(r.result, Ok(Status::Halted));
}

#[test]
fn empty_loop_on_zero_cell_is_skipped() {
    let r = execute(&prog("[]"), DEFAULT_TAPE_SIZE, &vec![], BUDGET);
    assert!(r.output.is_empty());
    assert_eq!(r.result, Ok(Status::Halted));
}

#[test]
fn lone_close_bracket_is_unbalanced() {
    assert!(matches!(resolve(&prog("]")), Err(VmError::UnbalancedBrackets)));
    let r = execute(&prog("]"), DEFAULT_TAPE_SIZE, &vec![], BUDGET);
    assert!(r.output.is_empty());
    assert_eq!(r.result, Err(VmError::UnbalancedBrackets));
}

#[test]
fn lone_open_bracket_is_unbalanced() {
    assert!(matches!(resolve(&prog("+[")), Err(VmError::UnbalancedBrackets)));
    assert!(matches!(resolve(&prog("[[]")), Err(VmError::UnbalancedBrackets)));
    assert!(matches!(resolve(&prog("[]][")), Err(VmError::UnbalancedBrackets)));
}

#[test]
fn unbalanced_program_writes_nothing() {
    let r = execute(&prog("+.]"), DEFAULT_TAPE_SIZE, &vec![], BUDGET);
    assert!(r.output.is_empty());
    assert_eq!(r.result, Err(VmError::UnbalancedBrackets));
}

#[test]
fn right_move_on_single_cell_tape_faults_at_zero() {
    let r = execute(&prog(">"), 1, &vec![], BUDGET);
    assert!(r.output.is_empty());
    assert_eq!(r.result, Err(VmError::PointerOutOfBounds { pc: 0 }));
}

#[test]
fn left_move_on_single_cell_tape_faults_at_zero() {
    let r = execute(&prog("<+."), 1, &vec![], BUDGET);
    assert!(r.output.is_empty());
    assert_eq!(r.result, Err(VmError::PointerOutOfBounds { pc: 0 }));
}

#[test]
fn fault_keeps_output_written_before_it() {
    let r = execute(&prog("+.>+.>."), 2, &vec![], BUDGET);
    assert_eq!(r.output, vec![1u8, 1u8]);
    assert_eq!(r.result, Err(VmError::PointerOutOfBounds { pc: 5 }));
}

#[test]
fn cells_wrap_both_ways() {
    let r = execute(&prog("-.+."), DEFAULT_TAPE_SIZE, &vec![], BUDGET);
    assert_eq!(r.output, vec![255u8, 0u8]);
    let mut up = String::new();
    for _ in 0..255 {
        up.push('+');
    }
    up.push_str(".+.");
    let r = execute(&prog(&up), 1, &vec![], BUDGET);
    assert_eq!(r.output, vec![255u8, 0u8]);
}

#[test]
fn same_run_twice_gives_same_output() {
    let p = prog(",[.,]++[>+++<-]>.");
    let input = vec![3u8, 1, 4, 1, 5, 0];
    let a = execute(&p, 16, &input, BUDGET);
    let b = execute(&p, 16, &input, BUDGET);
    assert_eq!(a.output, b.output);
    assert_eq!(a.result, b.result);
    assert_eq!(a.output, vec![3u8, 1, 4, 1, 5, 6]);
}

#[test]
fn read_at_end_of_input_keeps_cell() {
    let r = execute(&prog("+++,.,."), 4, &vec![9u8], BUDGET);
    assert_eq!(r.output, vec![9u8, 9u8]);
    let r = execute(&prog("+++,."), 4, &vec![], BUDGET);
    assert_eq!(r.output, vec![3u8]);
}

#[test]
fn other_bytes_are_ignored() {
    let r = execute(&prog("a+b+ c\n."), 4, &vec![], BUDGET);
    assert_eq!(r.output, vec![2u8]);
    assert_eq!(r.result, Ok(Status::Halted));
}

#[test]
fn empty_program_halts_at_once() {
    let r = execute(&prog(""), 1, &vec![], 0);
    assert!(r.output.is_empty());
    assert_eq!(r.result, Ok(Status::Halted));
}

#[test]
fn endless_loop_stops_at_step_limit() {
    let r = execute(&prog("+[]"), 4, &vec![], 10);
    assert!(r.output.is_empty());
    assert_eq!(r.result, Ok(Status::StepLimit));
}

#[test]
fn run_can_continue_after_step_limit() {
    let p = prog("+++.");
    let table = resolve(&p).unwrap();
    let mut m = Machine::new(2);
    let first = m.run(&p, &table, &vec![], 2);
    assert_eq!(first.result, Ok(Status::StepLimit));
    assert_eq!(m.pc(), 2);
    assert_eq!(m.cell(), 2);
    let second = m.run(&p, &table, &vec![], 10);
    assert_eq!(second.result, Ok(Status::Halted));
    assert_eq!(second.output, vec![3u8]);
}

#[test]
fn jump_table_pairs_are_inverse_and_nested() {
    let p = prog("[+[-]>[<]]");
    let t = resolve(&p).unwrap();
    assert_eq!(t.len(), p.len());
    assert_eq!(t.forward(0), Some(9));
    assert_eq!(t.backward(9), Some(0));
    assert_eq!(t.forward(2), Some(4));
    assert_eq!(t.backward(4), Some(2));
    assert_eq!(t.forward(6), Some(8));
    assert_eq!(t.backward(8), Some(6));
    assert_eq!(t.forward(1), None);
    assert_eq!(t.backward(0), None);
    assert_eq!(t.forward(9), None);
    assert_eq!(t.forward(42), None);
    for start in 0..p.len() {
        if let Some(end) = t.forward(start) {
            assert_eq!(t.backward(end), Some(start));
            for inner in (start + 1)..end {
                if let Some(inner_end) = t.forward(inner) {
                    assert!(inner_end < end);
                }
            }
        }
    }
}

#[test]
fn step_reports_written_byte_and_moves() {
    let p = prog("+.>,<");
    let table = resolve(&p).unwrap();
    let mut m = Machine::new(2);
    assert!(!m.wants_input(&p));
    assert_eq!(m.step(&p, &table, None), Ok(None));
    assert_eq!(m.step(&p, &table, None), Ok(Some(1)));
    assert_eq!(m.step(&p, &table, None), Ok(None));
    assert_eq!(m.pointer(), 1);
    assert!(m.wants_input(&p));
    assert_eq!(m.step(&p, &table, Some(7)), Ok(None));
    assert_eq!(m.cell(), 7);
    assert_eq!(m.step(&p, &table, None), Ok(None));
    assert_eq!(m.pointer(), 0);
    assert!(m.is_halted(&p));
    assert_eq!(m.tape_len(), 2);
}

#[test]
fn failed_step_leaves_machine_unchanged() {
    let p = prog("<");
    let table = resolve(&p).unwrap();
    let mut m = Machine::new(3);
    assert_eq!(m.step(&p, &table, None), Err(VmError::PointerOutOfBounds { pc: 0 }));
    assert_eq!(m.pc(), 0);
    assert_eq!(m.pointer(), 0);
}

#[test]
fn loop_end_jumps_back_to_loop_start() {
    let p = prog("++[-]");
    let table = resolve(&p).unwrap();
    let mut m = Machine::new(1);
    for _ in 0..4 {
        m.step(&p, &table, None).unwrap();
    }
    assert_eq!(m.pc(), 4);
    assert_eq!(m.cell(), 1);
    m.step(&p, &table, None).unwrap();
    assert_eq!(m.pc(), 2);
}

#[test]
fn rightmost_cell_is_reachable() {
    let r = execute(&prog(">>+."), 3, &vec![], BUDGET);
    assert_eq!(r.output, vec![1u8]);
    let r = execute(&prog(">>>"), 3, &vec![], BUDGET);
    assert_eq!(r.result, Err(VmError::PointerOutOfBounds { pc: 2 }));
}
