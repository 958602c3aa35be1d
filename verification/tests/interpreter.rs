use bf_interpreter::BfError;
use bf_interpreter::BfInstruction;
use bf_interpreter::BfInterpreter;

const FUEL: u64 = 10_000_000;

#[test]
fn test_echo() {
    let mut interpreter = BfInterpreter::new(",[.,]", vec![1, 4, 2, 3, 5, 2, 3, 0]).unwrap();
    interpreter.execute(FUEL).unwrap();
    assert!(interpreter.is_end());
    assert_eq!(interpreter.output(), &vec![1, 4, 2, 3, 5, 2, 3]);
}

#[test]
fn test_reverse() {
    let mut interpreter = BfInterpreter::new(">,[>,]<[.<]", vec![1, 4, 2, 3, 5, 2, 3, 0]).unwrap();
    interpreter.execute(FUEL).unwrap();
    assert!(interpreter.is_end());
    assert_eq!(interpreter.output(), &vec![3, 2, 5, 3, 2, 4, 1]);
}

#[test]
fn test_hello_world() {
    let mut interpreter = BfInterpreter::new(
        "++++++++++[>+++++++>++++++++++>+++>++++<
<<<-]>++.>+.+++++++..+++.>>++++.<++.<+++
+++++.--------.+++.------.--------.>+.",
        vec![],
    )
    .unwrap();
    interpreter.execute(FUEL).unwrap();
    assert!(interpreter.is_end());
    assert_eq!(interpreter.output().as_slice(), b"Hello, world!");
}

#[test]
fn test_sum_n() {
    let mut interpreter =
        BfInterpreter::new(",[[->>+>+<<<]>>>[-<<<+>>>]<[-<+>]<<-]>.", vec![3]).unwrap();
    interpreter.execute(FUEL).unwrap();
    assert!(interpreter.is_end());
    assert_eq!(interpreter.output(), &vec![6]);
}

#[test]
fn test_not_opening_loop() {
    let res = BfInterpreter::new("]", vec![]);
    let err = res.expect_err("must occur syntax error");
    assert!(matches!(err, BfError::LoopNotStarted));
}

#[test]
fn test_not_closing_loop() {
    let res = BfInterpreter::new("[", vec![]);
    let err = res.expect_err("must occur syntax error");
    assert!(matches!(err, BfError::LoopNotEnded));
}

#[test]
fn comments_are_ignored() {
    // Two recognized symbols among comments: exactly two steps to the end.
    let mut interpreter = BfInterpreter::new("a+b.c", vec![]).unwrap();
    assert!(!interpreter.is_end());
    interpreter.step().unwrap();
    assert!(!interpreter.is_end());
    interpreter.step().unwrap();
    assert!(interpreter.is_end());
    assert_eq!(interpreter.output(), &vec![1]);
}

#[test]
fn empty_source_terminates_at_once() {
    let mut interpreter = BfInterpreter::new("", vec![]).unwrap();
    assert!(interpreter.is_end());
    interpreter.execute(FUEL).unwrap();
    assert_eq!(interpreter.output(), &vec![]);
}

#[test]
fn adjacent_loop_ends_are_matched() {
    let mut interpreter = BfInterpreter::new("[[]]", vec![]).unwrap();
    interpreter.execute(FUEL).unwrap();
    assert!(interpreter.is_end());
    assert_eq!(interpreter.output(), &vec![]);
}

#[test]
fn nested_unmatched_open_fails() {
    let err = BfInterpreter::new("[[]", vec![]).expect_err("one loop is never closed");
    assert!(matches!(err, BfError::LoopNotEnded));
}

#[test]
fn nested_unmatched_close_fails() {
    let err = BfInterpreter::new("[]]", vec![]).expect_err("one loop is never opened");
    assert!(matches!(err, BfError::LoopNotStarted));
}

#[test]
fn seek_over_leftmost_fails_without_mutation() {
    let mut interpreter = BfInterpreter::new("<", vec![]).unwrap();
    assert_eq!(interpreter.head_value(), 0);
    let err = interpreter.execute(FUEL).expect_err("cannot move left of cell 0");
    assert!(matches!(err, BfError::SeekOverLeftmost));
    assert_eq!(interpreter.head_value(), 0);
    assert!(!interpreter.is_end());
}

#[test]
fn read_on_exhausted_input_fails() {
    let mut interpreter = BfInterpreter::new(",", vec![]).unwrap();
    let err = interpreter.execute(FUEL).expect_err("no input byte is available");
    assert!(matches!(err, BfError::LackOfInput));
}

#[test]
fn increment_256_times_wraps_to_zero() {
    let mut source = String::new();
    for _ in 0..256 {
        source.push('+');
    }
    source.push('.');
    let mut interpreter = BfInterpreter::new(&source, vec![]).unwrap();
    interpreter.execute(FUEL).unwrap();
    assert_eq!(interpreter.output(), &vec![0]);
}

#[test]
fn decrement_wraps_to_255() {
    let mut interpreter = BfInterpreter::new("-.", vec![]).unwrap();
    interpreter.execute(FUEL).unwrap();
    assert_eq!(interpreter.output(), &vec![255]);
}

#[test]
fn tape_grows_to_the_right() {
    // Move right three times, mark the cell, come back and forth again.
    let mut interpreter = BfInterpreter::new(">>>+.<<<.>>>.", vec![]).unwrap();
    interpreter.execute(FUEL).unwrap();
    assert_eq!(interpreter.output(), &vec![1, 0, 1]);
}

#[test]
fn step_by_step_agrees_with_run() {
    let source = ",[.,]";
    let input = vec![1, 4, 2, 3, 5, 2, 3, 0];
    let mut by_run = BfInterpreter::new(source, input.clone()).unwrap();
    by_run.execute(FUEL).unwrap();
    let mut by_step = BfInterpreter::new(source, input).unwrap();
    while !by_step.is_end() {
        by_step.step().unwrap();
    }
    assert_eq!(by_step.output(), by_run.output());
    assert_eq!(by_step.head_value(), by_run.head_value());
}

#[test]
fn current_instruction_reports_the_head() {
    let interpreter = BfInterpreter::new("+>", vec![]).unwrap();
    assert!(matches!(*interpreter.current_instruction(), BfInstruction::Increment));
}

#[test]
fn input_is_read_in_order() {
    let mut interpreter = BfInterpreter::new(",.,.,.", vec![7, 8, 9]).unwrap();
    interpreter.execute(FUEL).unwrap();
    assert_eq!(interpreter.output(), &vec![7, 8, 9]);
}

#[test]
fn error_messages_name_the_fault() {
    assert_eq!(BfError::LoopNotStarted.message(), "syntax error: ending loop `]` unmatched");
    assert_eq!(BfError::LoopNotEnded.message(), "syntax error: starting loop `[` unmatched");
    assert_eq!(BfError::SeekOverLeftmost.message(), "cannot seek over leftmost of tape");
    assert_eq!(BfError::LackOfInput.message(), "lack of input");
}

#[test]
fn run_resumes_when_fuel_runs_out() {
    let mut interpreter = BfInterpreter::new("+++.", vec![]).unwrap();
    interpreter.execute(2).unwrap();
    assert!(!interpreter.is_end());
    interpreter.execute(FUEL).unwrap();
    assert!(interpreter.is_end());
    assert_eq!(interpreter.output(), &vec![3]);
}
