use bf_interp::lexer::run;
use bf_interp::resolver::compile;
use bf_interp::semantics::RuntimeError;

#[test]
fn three_increments_then_output_emit_three() {
    let program = compile("+++.").unwrap();
    let mut output = Vec::new();
    let result = run(&program, &[], &mut output, 100).unwrap();
    assert_eq!(output, vec![3]);
    assert!(result.halted);
    assert_eq!(result.memory[0], 3);
    assert_eq!(result.dp, 0);
    assert_eq!(result.consumed, 0);
    assert!(result.memory[1..].iter().all(|&cell| cell == 0));
}

#[test]
fn clearing_loop_runs_once_and_halts() {
    let program = compile("+[-]").unwrap();
    let mut output = Vec::new();
    let result = run(&program, &[], &mut output, 100).unwrap();
    assert!(result.halted);
    assert_eq!(result.memory[0], 0);
    assert!(output.is_empty());
    // One pass through the loop is four opcodes; one fewer does not reach the end.
    let exact = run(&program, &[], &mut output, 4).unwrap();
    assert!(exact.halted);
    let short = run(&program, &[], &mut output, 3).unwrap();
    assert!(!short.halted);
}

#[test]
fn echo_outputs_the_byte_it_read() {
    let program = compile(",.").unwrap();
    let mut output = Vec::new();
    let result = run(&program, &[65], &mut output, 100).unwrap();
    assert_eq!(output, vec![65]);
    assert!(result.halted);
    assert_eq!(result.consumed, 1);
    assert_eq!(result.memory[0], 65);
}

#[test]
fn echo_without_input_fails_and_emits_nothing() {
    let program = compile(",.").unwrap();
    let mut first = Vec::new();
    run(&program, &[65], &mut first, 100).unwrap();
    assert_eq!(first, vec![65]);
    let mut second = Vec::new();
    assert_eq!(
        run(&program, &[], &mut second, 100),
        Err(RuntimeError::InputExhausted)
    );
    assert!(second.is_empty());
}

#[test]
fn input_runs_dry_in_the_middle_of_a_run() {
    let program = compile(",.,.").unwrap();
    let mut output = Vec::new();
    assert_eq!(
        run(&program, &[7], &mut output, 100),
        Err(RuntimeError::InputExhausted)
    );
    assert_eq!(output, vec![7]);
}
