use tapec::interp::{interpret, InterpError};
use tapec::ir::Program;
use tapec::parse::{parse, preoptimize};

const STEPS: usize = 1_000_000;

fn program(src: &[u8]) -> Program {
    parse(src).expect("source should parse")
}

fn run_ok(src: &[u8], input: &[u8]) -> Vec<u8> {
    interpret(&program(src), input, STEPS).expect("run should halt")
}

#[test]
fn three_increments_output_the_byte_three() {
    assert_eq!(run_ok(b"+++.", b""), vec![3]);
}

#[test]
fn empty_program_outputs_nothing() {
    assert_eq!(run_ok(b"", b"unread"), vec![]);
}

#[test]
fn echo_repeats_every_input_byte_then_halts() {
    assert_eq!(run_ok(b",[.,]", b"hi"), b"hi".to_vec());
    assert_eq!(run_ok(b",[.,]", b"tape machine"), b"tape machine".to_vec());
}

#[test]
fn echo_on_empty_input_halts_with_no_output() {
    assert_eq!(run_ok(b",[.,]", b""), vec![]);
}

#[test]
fn net_backward_move_is_a_tape_bounds_error() {
    let r = interpret(&program(b">>><<<<"), b"", STEPS);
    assert_eq!(r.unwrap_err(), InterpError::TapeBounds);
}

#[test]
fn running_off_the_far_end_is_a_tape_bounds_error() {
    let src = vec![b'>'; 1024];
    let r = interpret(&program(&src), b"", STEPS);
    assert_eq!(r.unwrap_err(), InterpError::TapeBounds);
    // One cell short of the edge is still fine.
    let src = vec![b'>'; 1023];
    assert_eq!(run_ok(&src, b""), vec![]);
}

#[test]
fn decrement_from_zero_wraps_to_all_ones() {
    // The low byte of 2^64 - 1 is 255.
    assert_eq!(run_ok(b"-.", b""), vec![255]);
}

#[test]
fn increment_wraps_back_to_zero() {
    // 256 increments leave a low byte of zero again.
    let mut src = vec![b'+'; 256];
    src.push(b'.');
    assert_eq!(run_ok(&src, b""), vec![0]);
}

#[test]
fn clear_cell_zeroes_a_nonzero_cell() {
    let pre = preoptimize(b"+++++[-].");
    assert_eq!(run_ok(&pre, b""), vec![0]);
}

#[test]
fn decrement_loop_zeroes_a_nonzero_cell() {
    // The same idiom left as a real loop, without preoptimization.
    assert_eq!(run_ok(b"+++++[-].", b""), vec![0]);
}

#[test]
fn loop_skipped_when_cell_is_zero() {
    assert_eq!(run_ok(b"[+++.].", b""), vec![0]);
}

#[test]
fn loop_multiplication_reaches_sixty_five() {
    // 8 * 8 + 1 = 65.
    assert_eq!(run_ok(b"++++++++[>++++++++<-]>+.", b""), vec![65]);
}

#[test]
fn output_run_emits_the_byte_repeatedly() {
    assert_eq!(run_ok(b"++...", b""), vec![2, 2, 2]);
}

#[test]
fn input_run_keeps_only_the_last_byte() {
    assert_eq!(run_ok(b",,.", b"AB"), vec![b'B']);
}

#[test]
fn reading_past_the_end_fills_the_sentinel_zero() {
    assert_eq!(run_ok(b",,.", b"A"), vec![0]);
    assert_eq!(run_ok(b",.", b""), vec![0]);
}

#[test]
fn pointer_moves_address_distinct_cells() {
    assert_eq!(run_ok(b"+>++>+++<<.>.>.", b""), vec![1, 2, 3]);
}

#[test]
fn endless_loop_hits_the_step_limit() {
    let r = interpret(&program(b"+[]"), b"", 1000);
    assert_eq!(r.unwrap_err(), InterpError::StepLimit);
}

#[test]
fn step_limit_zero_reports_step_limit_on_any_work() {
    let r = interpret(&program(b"+"), b"", 0);
    assert_eq!(r.unwrap_err(), InterpError::StepLimit);
}

#[test]
fn nested_loops_compute_a_product() {
    // 2 * 2 * 2 = 8.
    assert_eq!(run_ok(b"++[>++[>++<-]<-]>>.", b""), vec![8]);
}
