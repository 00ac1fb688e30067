use brainf::compile::compile_opcodes;
use brainf::jumps::compile_jump_table;
use brainf::jumps::StructuralError;
use brainf::machine::brainf_output;
use brainf::machine::run_program;
use brainf::machine::BfError;
use brainf::machine::RunError;
use brainf::machine::RunOutcome;
use brainf::opcode::Opcode;

const FUEL: u64 = 1_000_000;

#[test]
fn brackets_table_works() {
    let table = compile_jump_table(&compile_opcodes("++[-][]")).ok().unwrap();
    let expected = [0, 3, 0, 1, 5, 4];
    assert_eq!(table, expected);

    let table = compile_jump_table(&compile_opcodes("[]")).ok().unwrap();
    let expected = [1, 0];
    assert_eq!(table, expected);
}

#[test]
fn prints_hello_world() {
    let src = ">+++IGNORED BY INTERPRETER+++++[<+++++++++>-]<.>++++[<+++++REDUNDANT COMMENT!!!++>-]<+.+++++++..+++.>>++++++[<+++++++>-]<+
        +.------------.>++++++[<+++++++++>-]<+.<.+++.------.-IGNORED BY INTERPRETER-------.>>>++++[<++++++++>-
        ]<+.";

    let output = brainf_output(src, &vec![], FUEL).unwrap();
    assert_eq!(output, b"Hello, World!");
}

#[test]
fn skips_loop_at_beginning() {
    let src = "[+.]";
    let output = brainf_output(src, &vec![], FUEL).unwrap();
    assert_eq!(output.len(), 0);
}

#[test]
fn opcodes_get_simplified() {
    assert_eq!(
        compile_opcodes(">++-[-],.<"),
        vec![
            Opcode::ShiftRight(1),
            Opcode::Add(1),
            Opcode::BeginLoop,
            Opcode::Sub(1),
            Opcode::EndLoop,
            Opcode::Input,
            Opcode::Print,
            Opcode::ShiftLeft(1),
        ]
    );

    assert_eq!(compile_opcodes(""), vec![]);

    assert_eq!(
        compile_opcodes("+-[[---]],..."),
        vec![
            Opcode::BeginLoop,
            Opcode::BeginLoop,
            Opcode::Sub(3),
            Opcode::EndLoop,
            Opcode::EndLoop,
            Opcode::Input,
            Opcode::Print,
            Opcode::Print,
            Opcode::Print,
        ]
    );
}

#[test]
fn halting_loop_behavior() {
    brainf_output("++[-]", &vec![], FUEL).unwrap();
    brainf_output("--[+]", &vec![], FUEL).unwrap();
    brainf_output(">++[-<->]<[+]", &vec![], FUEL).unwrap();
}

#[test]
fn empty_program_compiles_to_nothing() {
    let ops = compile_opcodes("");
    assert_eq!(ops, vec![]);
    let table = compile_jump_table(&ops).ok().unwrap();
    assert_eq!(table.len(), 0);
}

#[test]
fn runs_with_zero_net_effect_are_elided() {
    assert_eq!(compile_opcodes("++--"), vec![]);
    assert_eq!(compile_opcodes("--+"), vec![Opcode::Sub(1)]);
    assert_eq!(compile_opcodes("<><>"), vec![]);
}

#[test]
fn unmatched_close_is_reported_at_its_position() {
    let ops = compile_opcodes("+]");
    assert_eq!(
        compile_jump_table(&ops),
        Err(StructuralError::UnmatchedClose { index: 1 })
    );
}

#[test]
fn unmatched_opens_are_counted() {
    let ops = compile_opcodes("[[]");
    assert_eq!(
        compile_jump_table(&ops),
        Err(StructuralError::UnmatchedOpen { count: 1 })
    );
}

#[test]
fn shift_left_past_start_grows_tape() {
    let out = brainf_output("<<<.", &vec![], FUEL).unwrap();
    assert_eq!(out, vec![0u8]);

    let out = brainf_output("+<<-->>.<<.", &vec![], FUEL).unwrap();
    assert_eq!(out, vec![1u8, 254u8]);
}

#[test]
fn input_bytes_reach_the_tape() {
    let out = brainf_output(",.+.", &vec![66u8], FUEL).unwrap();
    assert_eq!(out, vec![66u8, 67u8]);
}

#[test]
fn input_exhaustion_is_reported() {
    match brainf_output(",", &vec![], FUEL) {
        Err(BfError::Run(RunError::InputExhausted)) => {}
        other => panic!("expected input exhaustion, got {:?}", other),
    }
}

#[test]
fn non_halting_program_runs_out_of_fuel() {
    match brainf_output("+[]", &vec![], 1000) {
        Err(BfError::OutOfFuel) => {}
        other => panic!("expected the budget to run out, got {:?}", other),
    }
}

#[test]
fn arithmetic_wraps_modulo_256() {
    let src = format!("{}.", "+".repeat(300));
    let out = brainf_output(&src, &vec![], FUEL).unwrap();
    assert_eq!(out, vec![44u8]);
}

#[test]
fn engine_runs_compiled_programs() {
    let ops = compile_opcodes("++.");
    let table = compile_jump_table(&ops).ok().unwrap();
    match run_program(&ops, &table, &vec![], FUEL) {
        RunOutcome::Done(out) => assert_eq!(out, vec![2u8]),
        other => panic!("expected a completed run, got {:?}", other),
    }
}

#[test]
fn structural_errors_come_before_any_execution() {
    // The close bracket is broken, so the print before it never runs.
    match brainf_output(".]", &vec![], FUEL) {
        Err(BfError::Brackets(StructuralError::UnmatchedClose { index })) => {
            assert_eq!(index, 1);
        }
        other => panic!("expected a bracket error, got {:?}", other),
    }
}
