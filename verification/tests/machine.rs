use bf_interp::lexer::{input_byte, move_pointer, mutate_cell, run, Lexer, Progress};
use bf_interp::opcode::Opcode;
use bf_interp::resolver::{compile, CompileError};
use bf_interp::semantics::{RuntimeError, Step};
use bf_interp::tokenizer::{coalesce, tokenize};
use bf_interp::MEMORY_SIZE;

fn machine_for(source: &str) -> Lexer {
    let mut lexer = Lexer::new();
    lexer.tokenize(source.to_string());
    lexer.resolve().unwrap();
    lexer
}

#[test]
fn tape_length_is_one_thousand() {
    assert_eq!(MEMORY_SIZE, 1000);
}

#[test]
fn new_machine_is_at_rest() {
    let lexer = Lexer::new();
    assert!(lexer.tokens.is_empty());
    assert!(lexer.labels.is_empty());
    assert_eq!(lexer.memory, vec![0u8; 1000]);
    assert_eq!(lexer.ip, 0);
    assert_eq!(lexer.dp, 0);
}

#[test]
fn loaded_machine_holds_the_program_and_a_clean_tape() {
    let program = compile("+[-]").unwrap();
    let lexer = Lexer::load(&program);
    assert_eq!(&lexer.tokens, program.ops());
    assert_eq!(&lexer.labels, program.jumps());
    assert_eq!(lexer.memory, vec![0u8; 1000]);
    assert_eq!(lexer.ip, 0);
    assert_eq!(lexer.dp, 0);
}

#[test]
fn lexer_tokenize_appends_to_what_was_read() {
    let mut lexer = Lexer::new();
    lexer.tokenize("+ [".to_string());
    assert_eq!(lexer.tokens, vec![Opcode::MutateCell(1), Opcode::LoopOpen]);
    lexer.tokenize("- ] comment".to_string());
    assert_eq!(lexer.tokens, tokenize("+[-]"));
    assert_eq!(lexer.memory, vec![0u8; 1000]);
    assert_eq!(lexer.ip, 0);
    assert_eq!(lexer.dp, 0);
    assert!(lexer.labels.is_empty());
}

#[test]
fn lexer_resolve_stores_the_jump_table() {
    let mut lexer = Lexer::new();
    lexer.tokenize("+[-]".to_string());
    assert_eq!(lexer.resolve(), Ok(()));
    assert_eq!(lexer.labels, vec![0, 3, 2, 1]);
    assert_eq!(lexer.tokens, tokenize("+[-]"));
}

#[test]
fn lexer_resolve_reports_and_changes_nothing_on_error() {
    let mut lexer = Lexer::new();
    lexer.tokenize("[]".to_string());
    lexer.resolve().unwrap();
    lexer.tokenize("]".to_string());
    assert_eq!(
        lexer.resolve(),
        Err(CompileError::UnmatchedLoopClose { index: 2 })
    );
    assert_eq!(lexer.labels, vec![1, 0]);
    assert_eq!(lexer.tokens, tokenize("[]]"));
    let mut open = Lexer::new();
    open.tokenize("+[".to_string());
    assert_eq!(
        open.resolve(),
        Err(CompileError::UnmatchedLoopOpen { indices: vec![1] })
    );
}

#[test]
fn jump_goes_from_a_loop_end_to_its_start() {
    let mut lexer = machine_for("+[>[-]<-]");
    lexer.ip = 8;
    lexer.jump_to_starting_of_the_loop();
    assert_eq!(lexer.ip, 1);
    lexer.ip = 5;
    lexer.jump_to_starting_of_the_loop();
    assert_eq!(lexer.ip, 3);
    assert_eq!(lexer.dp, 0);
    assert_eq!(lexer.memory, vec![0u8; 1000]);
}

#[test]
fn mutate_cell_adds_within_a_byte() {
    assert_eq!(mutate_cell(100, 27), 127);
    assert_eq!(mutate_cell(100, -27), 73);
    assert_eq!(mutate_cell(0, 255), 255);
    assert_eq!(mutate_cell(255, -255), 0);
    assert_eq!(mutate_cell(7, 0), 7);
}

#[test]
fn mutate_cell_saturates_at_both_ends() {
    assert_eq!(mutate_cell(255, 1), 255);
    assert_eq!(mutate_cell(0, -1), 0);
    assert_eq!(mutate_cell(250, 10), 255);
    assert_eq!(mutate_cell(5, -10), 0);
    assert_eq!(mutate_cell(1, 300), 255);
    assert_eq!(mutate_cell(200, -300), 0);
    assert_eq!(mutate_cell(255, i64::MAX), 255);
    assert_eq!(mutate_cell(0, i64::MIN), 0);
    assert_eq!(mutate_cell(17, i64::MAX), 255);
    assert_eq!(mutate_cell(17, i64::MIN), 0);
}

#[test]
fn move_pointer_lands_on_the_sum() {
    assert_eq!(move_pointer(5, 3, 1000), Ok(8));
    assert_eq!(move_pointer(5, -5, 1000), Ok(0));
    assert_eq!(move_pointer(0, 999, 1000), Ok(999));
    assert_eq!(move_pointer(999, -999, 1000), Ok(0));
    assert_eq!(move_pointer(3, 0, 1000), Ok(3));
}

#[test]
fn move_pointer_fails_off_the_tape() {
    assert_eq!(move_pointer(0, -1, 1000), Err(RuntimeError::PointerOutOfRange));
    assert_eq!(move_pointer(999, 1, 1000), Err(RuntimeError::PointerOutOfRange));
    assert_eq!(move_pointer(0, 1000, 1000), Err(RuntimeError::PointerOutOfRange));
    assert_eq!(move_pointer(500, i64::MAX, 1000), Err(RuntimeError::PointerOutOfRange));
    assert_eq!(move_pointer(500, i64::MIN, 1000), Err(RuntimeError::PointerOutOfRange));
    assert_eq!(move_pointer(usize::MAX, i64::MAX, usize::MAX), Err(RuntimeError::PointerOutOfRange));
}

#[test]
fn input_byte_tells_end_of_input_from_a_byte() {
    assert_eq!(input_byte(-1), None);
    assert_eq!(input_byte(i32::MIN), None);
    assert_eq!(input_byte(0), Some(0));
    assert_eq!(input_byte(65), Some(65));
    assert_eq!(input_byte(255), Some(255));
    assert_eq!(input_byte(256 + 65), Some(65));
}

#[test]
fn step_on_a_halted_machine_does_nothing() {
    let mut lexer = machine_for("");
    assert_eq!(lexer.step(Some(9)), Ok(Step::Halted));
    assert_eq!(lexer.ip, 0);
    let mut done = machine_for("+");
    assert_eq!(done.step(None), Ok(Step::Advanced));
    assert_eq!(done.step(None), Ok(Step::Halted));
    assert_eq!(done.ip, 1);
    assert_eq!(done.memory[0], 1);
}

#[test]
fn step_runs_each_kind_of_opcode() {
    let mut lexer = machine_for("+>,.<-");
    assert_eq!(lexer.step(None), Ok(Step::Advanced));
    assert_eq!((lexer.ip, lexer.dp, lexer.memory[0]), (1, 0, 1));
    assert_eq!(lexer.step(None), Ok(Step::Advanced));
    assert_eq!((lexer.ip, lexer.dp), (2, 1));
    assert!(lexer.awaits_input());
    assert_eq!(lexer.step(Some(200)), Ok(Step::Consumed));
    assert_eq!((lexer.ip, lexer.dp, lexer.memory[1]), (3, 1, 200));
    assert!(!lexer.awaits_input());
    assert_eq!(lexer.step(Some(7)), Ok(Step::Emitted(200)));
    assert_eq!((lexer.ip, lexer.dp, lexer.memory[1]), (4, 1, 200));
    assert_eq!(lexer.step(None), Ok(Step::Advanced));
    assert_eq!((lexer.ip, lexer.dp), (5, 0));
    assert_eq!(lexer.step(None), Ok(Step::Advanced));
    assert_eq!((lexer.ip, lexer.dp, lexer.memory[0]), (6, 0, 0));
    assert!(!lexer.awaits_input());
    assert_eq!(lexer.step(None), Ok(Step::Halted));
}

#[test]
fn step_on_loop_brackets_follows_the_cell() {
    let mut lexer = machine_for("[+]");
    assert_eq!(lexer.step(None), Ok(Step::Advanced));
    assert_eq!(lexer.ip, 2);
    assert_eq!(lexer.step(None), Ok(Step::Advanced));
    assert_eq!(lexer.ip, 3);
    assert_eq!(lexer.memory[0], 0);

    let mut entered = machine_for("[+]");
    entered.memory[0] = 5;
    assert_eq!(entered.step(None), Ok(Step::Advanced));
    assert_eq!(entered.ip, 1);
    assert_eq!(entered.step(None), Ok(Step::Advanced));
    assert_eq!(entered.step(None), Ok(Step::Advanced));
    assert_eq!(entered.ip, 0);
    assert_eq!(entered.memory[0], 6);
}

#[test]
fn step_errors_leave_the_machine_as_it_was() {
    let mut lexer = machine_for("<");
    assert_eq!(lexer.step(None), Err(RuntimeError::PointerOutOfRange));
    assert_eq!((lexer.ip, lexer.dp), (0, 0));
    let mut reader = machine_for(",");
    reader.memory[0] = 42;
    assert_eq!(reader.step(None), Err(RuntimeError::InputExhausted));
    assert_eq!((reader.ip, reader.dp, reader.memory[0]), (0, 0, 42));
}

#[test]
fn step_saturates_a_cell() {
    let mut lexer = machine_for("+-");
    lexer.memory[0] = 255;
    assert_eq!(lexer.step(None), Ok(Step::Advanced));
    assert_eq!(lexer.memory[0], 255);
    lexer.memory[0] = 0;
    assert_eq!(lexer.step(None), Ok(Step::Advanced));
    assert_eq!(lexer.memory[0], 0);
    assert_eq!(lexer.ip, 2);
}

#[test]
fn step_works_on_a_short_tape() {
    let mut lexer = machine_for(">>>");
    lexer.memory = vec![0u8; 3];
    assert_eq!(lexer.step(None), Ok(Step::Advanced));
    assert_eq!(lexer.step(None), Ok(Step::Advanced));
    assert_eq!(lexer.dp, 2);
    assert_eq!(lexer.step(None), Err(RuntimeError::PointerOutOfRange));
    assert_eq!(lexer.dp, 2);
}

#[test]
fn evaluate_stops_when_the_budget_runs_out() {
    let mut lexer = machine_for("+[]");
    let mut output = Vec::new();
    assert_eq!(
        lexer.evaluate(&[], &mut output, 1000),
        Ok(Progress { halted: false, consumed: 0 })
    );
    assert_eq!(lexer.memory[0], 1);
    assert!(lexer.ip == 1 || lexer.ip == 2);
    assert!(output.is_empty());
}

#[test]
fn evaluate_with_no_budget_does_nothing() {
    let mut lexer = machine_for("+.");
    let mut output = vec![1, 2];
    assert_eq!(
        lexer.evaluate(&[], &mut output, 0),
        Ok(Progress { halted: false, consumed: 0 })
    );
    assert_eq!(lexer.ip, 0);
    assert_eq!(lexer.memory[0], 0);
    assert_eq!(output, vec![1, 2]);
}

#[test]
fn evaluate_counts_opcodes_and_can_be_taken_up_again() {
    let mut lexer = machine_for("+++.");
    let mut output = Vec::new();
    assert_eq!(
        lexer.evaluate(&[], &mut output, 2),
        Ok(Progress { halted: false, consumed: 0 })
    );
    assert_eq!((lexer.ip, lexer.memory[0]), (2, 2));
    assert_eq!(
        lexer.evaluate(&[], &mut output, 2),
        Ok(Progress { halted: true, consumed: 0 })
    );
    assert_eq!((lexer.ip, lexer.memory[0]), (4, 3));
    assert_eq!(output, vec![3]);
    assert_eq!(
        lexer.evaluate(&[], &mut output, 10),
        Ok(Progress { halted: true, consumed: 0 })
    );
    assert_eq!(output, vec![3]);
}

#[test]
fn evaluate_appends_to_the_output_it_is_given() {
    let mut lexer = machine_for("+.+.");
    let mut output = vec![9];
    assert_eq!(
        lexer.evaluate(&[], &mut output, 100),
        Ok(Progress { halted: true, consumed: 0 })
    );
    assert_eq!(output, vec![9, 1, 2]);
}

#[test]
fn evaluate_takes_input_in_order() {
    let mut lexer = machine_for(",>,>,<<.>.>.");
    let mut output = Vec::new();
    assert_eq!(
        lexer.evaluate(&[10, 20, 30, 40], &mut output, 100),
        Ok(Progress { halted: true, consumed: 3 })
    );
    assert_eq!(output, vec![10, 20, 30]);
    assert_eq!(&lexer.memory[0..4], &[10, 20, 30, 0]);
}

#[test]
fn run_copies_input_to_output_until_a_zero_byte() {
    let program = compile(",[.,]").unwrap();
    let mut output = Vec::new();
    let result = run(&program, b"tape\0rest", &mut output, 1000).unwrap();
    assert_eq!(output, b"tape".to_vec());
    assert!(result.halted);
    assert_eq!(result.consumed, 5);
    assert_eq!(result.dp, 0);
    assert_eq!(result.memory, vec![0u8; 1000]);
}

#[test]
fn run_multiplies_with_a_loop() {
    let program = compile("++++++++[>++++++++<-]>+.").unwrap();
    let mut output = Vec::new();
    let result = run(&program, &[], &mut output, 10_000).unwrap();
    assert_eq!(output, vec![65]);
    assert!(result.halted);
    assert_eq!(result.dp, 1);
    assert_eq!(result.memory[0], 0);
    assert_eq!(result.memory[1], 65);
}

#[test]
fn run_never_wraps_a_cell() {
    let up = compile(&"+".repeat(300)).unwrap();
    let mut output = Vec::new();
    let result = run(&up, &[], &mut output, 1000).unwrap();
    assert_eq!(result.memory[0], 255);
    let down = compile("+---.").unwrap();
    let result = run(&down, &[], &mut output, 1000).unwrap();
    assert_eq!(result.memory[0], 0);
    assert_eq!(output, vec![0]);
}

#[test]
fn run_fails_when_the_pointer_leaves_the_tape_at_the_low_end() {
    let program = compile("<").unwrap();
    let mut output = Vec::new();
    assert_eq!(
        run(&program, &[], &mut output, 10),
        Err(RuntimeError::PointerOutOfRange)
    );
    let program = compile(">><<<").unwrap();
    assert_eq!(
        run(&program, &[], &mut output, 10),
        Err(RuntimeError::PointerOutOfRange)
    );
}

#[test]
fn run_fails_when_the_pointer_reaches_the_tape_length() {
    let inside = compile(&">".repeat(999)).unwrap();
    let mut output = Vec::new();
    let result = run(&inside, &[], &mut output, 5000).unwrap();
    assert!(result.halted);
    assert_eq!(result.dp, 999);
    let outside = compile(&">".repeat(1000)).unwrap();
    assert_eq!(
        run(&outside, &[], &mut output, 5000),
        Err(RuntimeError::PointerOutOfRange)
    );
}

#[test]
fn run_keeps_the_output_written_before_an_error() {
    let program = compile("+.+.<.").unwrap();
    let mut output = Vec::new();
    assert_eq!(
        run(&program, &[], &mut output, 100),
        Err(RuntimeError::PointerOutOfRange)
    );
    assert_eq!(output, vec![1, 2]);
}

#[test]
fn run_reports_a_budget_that_ran_out() {
    let program = compile("+[>+<]").unwrap();
    let mut output = Vec::new();
    let result = run(&program, &[], &mut output, 50).unwrap();
    assert!(!result.halted);
    assert_eq!(result.memory[0], 1);
    assert!(result.memory[1] > 0);
}

#[test]
fn run_starts_clean_every_time() {
    let program = compile("+++.").unwrap();
    let mut first = Vec::new();
    let mut second = Vec::new();
    let a = run(&program, &[], &mut first, 100).unwrap();
    let b = run(&program, &[], &mut second, 100).unwrap();
    assert_eq!(a, b);
    assert_eq!(first, vec![3]);
    assert_eq!(second, vec![3]);
}

#[test]
fn coalesced_program_does_the_same_work() {
    let source = "+++++[>+++++<-]>>>><<<.<.";
    let plain = compile(source).unwrap();
    let merged = bf_interp::resolver::resolve(coalesce(&tokenize(source))).unwrap();
    assert!(merged.ops().len() < plain.ops().len());
    let mut out_plain = Vec::new();
    let mut out_merged = Vec::new();
    let a = run(&plain, &[], &mut out_plain, 10_000).unwrap();
    let b = run(&merged, &[], &mut out_merged, 10_000).unwrap();
    assert_eq!(out_plain, vec![25, 0]);
    assert_eq!(out_plain, out_merged);
    assert_eq!(a, b);
}

#[test]
fn coalesced_move_off_the_tape_still_fails() {
    let ops = coalesce(&tokenize(&">".repeat(1000)));
    assert_eq!(ops, vec![Opcode::MovePointer(1000)]);
    let program = bf_interp::resolver::resolve(ops).unwrap();
    let mut output = Vec::new();
    assert_eq!(
        run(&program, &[], &mut output, 10),
        Err(RuntimeError::PointerOutOfRange)
    );
}

#[test]
fn coalescing_keeps_outcomes_on_many_programs() {
    let sources = [
        "",
        "+++---+++",
        ">>><<<>>",
        "<<",
        ">>>><<<<<",
        "++++[>+++[>++<-]<-]>>.",
        ",[>+>+<<-]>>[<<+>>-]<.>.",
        ",>,<[->+<]>.",
        "+++[>,.<-]",
        "++[>++++[>++++<-]<-]>>--.<<+++.",
        "-[+]++.",
        "+[>+]",
        ",,,,.",
        "[[[]]]++..",
    ];
    let inputs: [&[u8]; 4] = [&[], &[1], &[5, 7], &[0, 255, 3, 9]];
    for source in sources {
        let plain = compile(source).unwrap();
        let merged = bf_interp::resolver::resolve(coalesce(&tokenize(source))).unwrap();
        for input in inputs {
            let mut out_plain = Vec::new();
            let mut out_merged = Vec::new();
            let a = run(&plain, input, &mut out_plain, 100_000);
            let b = run(&merged, input, &mut out_merged, 100_000);
            assert_eq!(out_plain, out_merged);
            match (a, b) {
                (Ok(x), Ok(y)) => {
                    assert!(x.halted && y.halted);
                    assert_eq!(x, y);
                }
                (Err(x), Err(y)) => assert_eq!(x, y),
                _ => panic!("one run failed and the other did not"),
            }
        }
    }
}

#[test]
fn coalescing_changes_neither_success_nor_failure_of_resolution() {
    for source in ["++[>>]", "++]>>", "[[++", "+-+-", "][", "[+[+]+]"] {
        let plain = compile(source).is_ok();
        let merged = bf_interp::resolver::resolve(coalesce(&tokenize(source))).is_ok();
        assert_eq!(plain, merged);
    }
}
