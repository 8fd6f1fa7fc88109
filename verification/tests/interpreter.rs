use std::str::from_utf8;

use bfk::compress;
use bfk::parse;
use bfk::run;
use bfk::CompressedOp;
use bfk::Environment;
use bfk::Error;
use bfk::Language;
use bfk::Op;
use bfk::RunOutcome;

const BUF_SIZE: usize = 1024;
const STEP_BUDGET: u64 = 100_000_000;
const HELLO_BF: &'static str = "++++++++[>++++[>++>+++>+++>+<<<<-]>+>+>->>+[<]<-]>>.>---.+++++++..+++.>>.<-.<.+++.------.--------.>>+.>++.";

#[test]
fn test_parse_ops() {
    let source = "+-.,[><]".to_string();
    let language = Language::default();

    let result = parse(&source, &language).unwrap();

    assert_eq!(
        result.ops,
        vec![
            Op::Inc,
            Op::Dec,
            Op::PutChar,
            Op::GetChar,
            Op::LoopStart,
            Op::IncPtr,
            Op::DecPtr,
            Op::LoopEnd,
        ]
    );
}

#[test]
fn test_parse_jumps() {
    let source = "[+++]--[+[+]+]".to_string();
    let language = Language::default();

    let result = parse(&source, &language).unwrap();

    assert_eq!(result.jump_table[0], 5);
    assert_eq!(result.jump_table[4], 1);

    assert_eq!(result.jump_table[7], 14);
    assert_eq!(result.jump_table[13], 8);

    assert_eq!(result.jump_table[9], 12);
    assert_eq!(result.jump_table[11], 10);
}

#[test]
fn test_run() {
    let language = Language::default();

    let ops = parse(&HELLO_BF.to_string(), &language).unwrap();

    let data = vec![0u8; BUF_SIZE];
    let input: Vec<u8> = vec![];

    let mut env = Environment::new(data, input);

    let outcome = run(&ops, &mut env, STEP_BUDGET);
    assert!(matches!(outcome, Ok(RunOutcome::Halted)));

    let output_string = from_utf8(&env.output[0..13]).expect("Encoding error");
    assert_eq!(output_string, "Hello World!\n");
}

#[test]
fn test_compress() {
    let source = "+++++[>>>----<<<[[..]],,]".to_string();
    let language = Language::default();

    let ops = parse(&source, &language).unwrap();
    let compressed_ops = compress(&ops).unwrap();

    assert_eq!(
        compressed_ops.ops,
        [
            CompressedOp::Add(5),
            CompressedOp::LoopStart,
            CompressedOp::Forward(3),
            CompressedOp::Sub(4),
            CompressedOp::Back(3),
            CompressedOp::LoopStart,
            CompressedOp::LoopStart,
            CompressedOp::PutChar,
            CompressedOp::PutChar,
            CompressedOp::LoopEnd,
            CompressedOp::LoopEnd,
            CompressedOp::GetChar,
            CompressedOp::GetChar,
            CompressedOp::LoopEnd,
        ]
    );

    assert_eq!(compressed_ops.jump_table[1], 14);
    assert_eq!(compressed_ops.jump_table[13], 2);

    assert_eq!(compressed_ops.jump_table[5], 11);
    assert_eq!(compressed_ops.jump_table[10], 6);

    assert_eq!(compressed_ops.jump_table[6], 10);
    assert_eq!(compressed_ops.jump_table[9], 7);
}

#[test]
fn test_compress_run() {
    let language = Language::default();

    let ops = parse(&HELLO_BF.to_string(), &language).unwrap();
    let compressed_ops = compress(&ops).unwrap();

    let data = vec![0u8; BUF_SIZE];
    let input: Vec<u8> = vec![];

    let mut env = Environment::new(data, input);

    let outcome = run(&compressed_ops, &mut env, STEP_BUDGET);
    assert!(matches!(outcome, Ok(RunOutcome::Halted)));

    let output_string = from_utf8(&env.output[0..13]).expect("Encoding error");
    assert_eq!(output_string, "Hello World!\n");
}

#[test]
fn test_input() {
    let source = ",.,.,.".to_string();
    let language = Language::default();

    let ops = parse(&source, &language).unwrap();
    let compressed_ops = compress(&ops).unwrap();

    let data = vec![0u8; BUF_SIZE];
    let input: Vec<u8> = vec![b'a', b'b', b'c'];

    let mut env = Environment::new(data, input);

    let outcome = run(&compressed_ops, &mut env, STEP_BUDGET);
    assert!(matches!(outcome, Ok(RunOutcome::Halted)));

    let output_string = from_utf8(&env.output[0..3]).expect("Encoding error");
    assert_eq!(output_string, "abc");
}

#[test]
fn test_language() {
    let lang = Language {
        inc: 'a',
        dec: 'b',
        inc_ptr: 'c',
        dec_ptr: 'd',
        put_char: 'e',
        get_char: 'f',
        loop_start: 'g',
        loop_end: 'h',
    };

    let source = "abcdefgh".to_string();
    let code = parse(&source, &lang).unwrap();

    assert_eq!(
        code.ops,
        [
            Op::Inc,
            Op::Dec,
            Op::IncPtr,
            Op::DecPtr,
            Op::PutChar,
            Op::GetChar,
            Op::LoopStart,
            Op::LoopEnd,
        ]
    );
}

#[test]
fn test_language_from_string() {
    let language = Language::make_from_string(&"abcdefgh".to_string());

    assert!(language.is_some());

    let language = language.unwrap();

    assert_eq!(language.inc, 'a');
    assert_eq!(language.dec, 'b');
    assert_eq!(language.inc_ptr, 'c');
    assert_eq!(language.dec_ptr, 'd');
    assert_eq!(language.get_char, 'e');
    assert_eq!(language.put_char, 'f');
    assert_eq!(language.loop_start, 'g');
    assert_eq!(language.loop_end, 'h');
}

#[test]
fn test_environment_new() {
    let input: Vec<u8> = Vec::new();
    let data = vec![0u8; 1024];

    let env = Environment::new(data, input);

    assert_eq!(env.pointer, 0);
    assert_eq!(env.pc, 0);
}

#[test]
fn plus_three_writes_byte_three() {
    let language = Language::default();
    let ops = parse(&"+++.".to_string(), &language).unwrap();

    let mut env = Environment::new(vec![0u8; BUF_SIZE], vec![]);
    let outcome = run(&ops, &mut env, STEP_BUDGET);

    assert!(matches!(outcome, Ok(RunOutcome::Halted)));
    assert_eq!(env.output, vec![3u8]);
}

#[test]
fn increment_wraps_at_255() {
    let language = Language::default();
    let ops = parse(&"+".to_string(), &language).unwrap();

    let mut env = Environment::new(vec![255u8], vec![]);
    let outcome = run(&ops, &mut env, STEP_BUDGET);

    assert!(matches!(outcome, Ok(RunOutcome::Halted)));
    assert_eq!(env.data[0], 0);
}

#[test]
fn decrement_wraps_at_zero() {
    let language = Language::default();
    let ops = parse(&"-".to_string(), &language).unwrap();

    let mut env = Environment::new(vec![0u8], vec![]);
    let outcome = run(&ops, &mut env, STEP_BUDGET);

    assert!(matches!(outcome, Ok(RunOutcome::Halted)));
    assert_eq!(env.data[0], 255);
}

#[test]
fn comments_are_discarded() {
    let language = Language::default();
    let with_comments = parse(&"say + twice ++ then - loop [-]".to_string(), &language).unwrap();
    let bare = parse(&"+++-[-]".to_string(), &language).unwrap();

    assert_eq!(with_comments.ops, bare.ops);
    assert_eq!(with_comments.jump_table, bare.jump_table);
}

#[test]
fn custom_symbols_parse_like_canonical() {
    let custom = Language::make_from_string(&"12345678".to_string()).unwrap();
    let canonical = Language::default();

    let custom_code = parse(&"117635428".to_string(), &custom).unwrap();
    let canonical_code = parse(&"++[.>,<-]".to_string(), &canonical).unwrap();

    assert_eq!(custom_code.ops, canonical_code.ops);
    assert_eq!(custom_code.jump_table, canonical_code.jump_table);
}

#[test]
fn shared_symbol_resolves_to_first_role() {
    let lang = Language::make_from_string(&"xx><,.[]".to_string()).unwrap();
    let code = parse(&"x".to_string(), &lang).unwrap();

    assert_eq!(code.ops, vec![Op::Inc]);
}

#[test]
fn make_from_string_rejects_other_lengths() {
    assert!(Language::make_from_string(&"1234567".to_string()).is_none());
    assert!(Language::make_from_string(&"123456789".to_string()).is_none());
    assert!(Language::make_from_string(&"".to_string()).is_none());
}

#[test]
fn compress_merges_runs_and_truncates_at_256() {
    let language = Language::default();

    let five = parse(&"+++++".to_string(), &language).unwrap();
    assert_eq!(compress(&five).unwrap().ops, vec![CompressedOp::Add(5)]);

    let source: String = std::iter::repeat('+').take(256).collect();
    let longest = parse(&source, &language).unwrap();
    assert_eq!(compress(&longest).unwrap().ops, vec![CompressedOp::Add(0)]);
}

#[test]
fn compress_keeps_writes_apart() {
    let language = Language::default();
    let code = parse(&"...".to_string(), &language).unwrap();
    let compressed = compress(&code).unwrap();

    assert_eq!(
        compressed.ops,
        vec![CompressedOp::PutChar, CompressedOp::PutChar, CompressedOp::PutChar]
    );
}

#[test]
fn unmatched_loop_end_is_reported() {
    let language = Language::default();
    assert_eq!(parse(&"+]".to_string(), &language).unwrap_err(), Error::UnmatchedLoopEnd);
}

#[test]
fn unmatched_loop_start_is_reported() {
    let language = Language::default();
    assert_eq!(parse(&"[+".to_string(), &language).unwrap_err(), Error::UnmatchedLoopStart);
}

#[test]
fn compress_reports_unmatched_loop_end() {
    let language = Language::default();
    let mut code = parse(&"+".to_string(), &language).unwrap();
    code.ops = vec![Op::LoopEnd];
    code.jump_table = vec![0];

    assert_eq!(compress(&code).unwrap_err(), Error::UnmatchedLoopEnd);
}

#[test]
fn pointer_leaving_tape_is_trapped() {
    let language = Language::default();

    let below = parse(&"<".to_string(), &language).unwrap();
    let mut env = Environment::new(vec![0u8; 4], vec![]);
    assert_eq!(run(&below, &mut env, STEP_BUDGET).unwrap_err(), Error::PointerOutOfBounds);

    let beyond = parse(&">>>>+".to_string(), &language).unwrap();
    let mut env = Environment::new(vec![0u8; 4], vec![]);
    assert_eq!(run(&beyond, &mut env, STEP_BUDGET).unwrap_err(), Error::PointerOutOfBounds);
}

#[test]
fn exhausted_budget_reports_out_of_steps_and_resumes() {
    let language = Language::default();
    let ops = parse(&"+[]".to_string(), &language).unwrap();

    let mut env = Environment::new(vec![0u8; 4], vec![]);
    assert!(matches!(run(&ops, &mut env, 10), Ok(RunOutcome::OutOfSteps)));
    assert!(matches!(run(&ops, &mut env, 10), Ok(RunOutcome::OutOfSteps)));

    let halting = parse(&"+++".to_string(), &language).unwrap();
    let mut env = Environment::new(vec![0u8; 4], vec![]);
    assert!(matches!(run(&halting, &mut env, 2), Ok(RunOutcome::OutOfSteps)));
    assert!(matches!(run(&halting, &mut env, 2), Ok(RunOutcome::Halted)));
    assert_eq!(env.data[0], 3);
}

#[test]
fn read_past_end_of_input_yields_zero() {
    let language = Language::default();
    let ops = parse(&",+.".to_string(), &language).unwrap();

    let mut env = Environment::new(vec![7u8; 4], vec![]);
    let outcome = run(&ops, &mut env, STEP_BUDGET);

    assert!(matches!(outcome, Ok(RunOutcome::Halted)));
    assert_eq!(env.output, vec![1u8]);
}

#[test]
fn empty_program_halts_untouched() {
    let language = Language::default();
    let ops = parse(&"no tokens here".to_string(), &language).unwrap();

    let mut env = Environment::new(vec![9u8; 2], vec![b'x']);
    let outcome = run(&ops, &mut env, STEP_BUDGET);

    assert!(matches!(outcome, Ok(RunOutcome::Halted)));
    assert_eq!(env.data, vec![9u8, 9u8]);
    assert_eq!(env.output, Vec::<u8>::new());
    assert_eq!(env.cursor, 0);
}

#[test]
fn raw_and_compressed_runs_agree() {
    let language = Language::default();
    let ops = parse(&HELLO_BF.to_string(), &language).unwrap();
    let compressed_ops = compress(&ops).unwrap();

    let mut raw_env = Environment::new(vec![0u8; BUF_SIZE], vec![]);
    let mut comp_env = Environment::new(vec![0u8; BUF_SIZE], vec![]);

    assert!(matches!(run(&ops, &mut raw_env, STEP_BUDGET), Ok(RunOutcome::Halted)));
    assert!(matches!(run(&compressed_ops, &mut comp_env, STEP_BUDGET), Ok(RunOutcome::Halted)));

    assert_eq!(raw_env.output, comp_env.output);
    assert_eq!(raw_env.data, comp_env.data);
    assert_eq!(raw_env.pointer, comp_env.pointer);
}
