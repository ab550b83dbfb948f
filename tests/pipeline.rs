use bfc::interp::{run, RunResult};
use bfc::ir::{codegen, compile_source, CompileError, Op, Program, Terminator};
use bfc::lexer::{lex, token_for_byte, Token};

fn compiled(src: &str) -> Program {
    match compile_source(src.as_bytes()) {
        Ok(p) => p,
        Err(e) => panic!("unexpected error {:?}", e),
    }
}

fn terms(p: &Program) -> Vec<Terminator> {
    p.blocks.iter().map(|b| b.term).collect()
}

fn branch(nonzero: usize, zero: usize) -> Terminator {
    Terminator::Branch { nonzero, zero }
}

fn finished(src: &str, input: Vec<u8>) -> bfc::interp::Machine {
    match run(&compiled(src), input, 100_000) {
        RunResult::Finished(m) => m,
        RunResult::Fault => panic!("fault"),
        RunResult::OutOfFuel => panic!("out of fuel"),
    }
}

#[test]
fn lex_reads_every_instruction() {
    let toks = lex(b"><+-.,[]");
    assert_eq!(
        toks,
        vec![
            Token::PtrRight,
            Token::PtrLeft,
            Token::Inc,
            Token::Dec,
            Token::Out,
            Token::In,
            Token::JmpPast,
            Token::JmpBack
        ]
    );
}

#[test]
fn lex_skips_comments() {
    assert_eq!(lex("add + one\n and print . é".as_bytes()), vec![Token::Inc, Token::Out]);
    assert_eq!(lex(b""), vec![]);
    assert_eq!(lex(b"hello world"), vec![]);
    assert_eq!(token_for_byte(b'x'), None);
    assert_eq!(token_for_byte(b'['), Some(Token::JmpPast));
}

#[test]
fn unmatched_open_is_rejected() {
    assert!(matches!(compile_source(b"["), Err(CompileError::UnmatchedLoopOpen)));
    assert!(matches!(compile_source(b"[[]"), Err(CompileError::UnmatchedLoopOpen)));
}

#[test]
fn unmatched_close_is_rejected() {
    assert!(matches!(compile_source(b"]"), Err(CompileError::UnmatchedLoopClose)));
    assert!(matches!(compile_source(b"[]]"), Err(CompileError::UnmatchedLoopClose)));
}

#[test]
fn unmatched_close_is_reported_first() {
    assert!(matches!(compile_source(b"]["), Err(CompileError::UnmatchedLoopClose)));
    assert!(matches!(codegen(vec![Token::JmpBack, Token::JmpPast, Token::JmpPast]), Err(CompileError::UnmatchedLoopClose)));
}

#[test]
fn empty_program_is_one_returning_block() {
    for src in ["", "just a comment"] {
        let p = compiled(src);
        assert_eq!(p.blocks.len(), 1);
        assert!(p.blocks[0].ops.is_empty());
        assert_eq!(p.blocks[0].term, Terminator::Return);
        let m = finished(src, vec![]);
        assert!(m.output.is_empty());
        assert!(m.tape.iter().all(|c| *c == 0));
        assert_eq!(m.ptr, 0);
    }
}

#[test]
fn straight_line_ops_stay_in_entry_block() {
    let p = compiled("+>-<.,");
    assert_eq!(p.blocks.len(), 1);
    assert_eq!(
        p.blocks[0].ops,
        vec![Op::CellInc, Op::PtrAdd, Op::CellDec, Op::PtrSub, Op::Output, Op::Input]
    );
}

#[test]
fn empty_loop_links_its_blocks() {
    let p = compiled("[]");
    assert_eq!(terms(&p), vec![branch(1, 2), branch(1, 2), Terminator::Return]);
}

#[test]
fn adjacent_loops_do_not_share_blocks() {
    let p = compiled("[][]");
    assert_eq!(
        terms(&p),
        vec![branch(1, 2), branch(1, 2), branch(3, 4), branch(3, 4), Terminator::Return]
    );
}

#[test]
fn nested_loops_close_inner_first() {
    let p = compiled("[+[-]>]");
    assert_eq!(
        terms(&p),
        vec![branch(1, 2), branch(3, 4), Terminator::Return, branch(3, 4), branch(1, 2)]
    );
    assert_eq!(p.blocks[1].ops, vec![Op::CellInc]);
    assert_eq!(p.blocks[3].ops, vec![Op::CellDec]);
    assert_eq!(p.blocks[4].ops, vec![Op::PtrAdd]);
}

#[test]
fn output_three() {
    let m = finished("+++.", vec![]);
    assert_eq!(m.output, vec![3]);
}

#[test]
fn loop_clears_cell() {
    let m = finished("+[-]", vec![]);
    assert_eq!(m.tape[0], 0);
    assert!(m.output.is_empty());
}

#[test]
fn loop_runs_until_zero() {
    let m = finished("+++[>++<-]>.", vec![]);
    assert_eq!(m.output, vec![6]);
    assert_eq!(m.tape[0], 0);
}

#[test]
fn increment_256_times_wraps_back() {
    let src = "+".repeat(256);
    let m = finished(&src, vec![]);
    assert_eq!(m.tape[0], 0);
    let m = finished(&"+".repeat(255), vec![]);
    assert_eq!(m.tape[0], 255);
}

#[test]
fn decrement_wraps_below_zero() {
    let m = finished("-.", vec![]);
    assert_eq!(m.output, vec![255]);
}

#[test]
fn right_then_left_restores_pointer() {
    let m = finished("><", vec![]);
    assert_eq!(m.ptr, 0);
    let m = finished(">>><", vec![]);
    assert_eq!(m.ptr, 2);
}

#[test]
fn pointer_moves_are_not_bounds_checked() {
    let m = finished("<", vec![]);
    assert_eq!(m.ptr, -1);
    assert!(matches!(run(&compiled("<+"), vec![], 100), RunResult::Fault));
    assert!(matches!(run(&compiled(&">".repeat(256).to_string()), vec![], 100), RunResult::Finished(_)));
    assert!(matches!(run(&compiled(&format!("{}.", ">".repeat(256))), vec![], 100), RunResult::Fault));
}

#[test]
fn input_is_read_byte_by_byte() {
    let m = finished(",.,.,.", vec![65, 66]);
    assert_eq!(m.output, vec![65, 66, 255]);
}

#[test]
fn endless_loop_runs_out_of_fuel() {
    assert!(matches!(run(&compiled("+[]"), vec![], 50), RunResult::OutOfFuel));
}

#[test]
fn nested_empty_loops_link_inner_and_outer() {
    let p = compiled("[[]]");
    assert_eq!(
        terms(&p),
        vec![branch(1, 2), branch(3, 4), Terminator::Return, branch(3, 4), branch(1, 2)]
    );
    assert!(p.blocks.iter().all(|b| b.ops.is_empty()));
    let m = finished("[[]]", vec![]);
    assert!(m.output.is_empty());
}

#[test]
fn codegen_takes_tokens_directly() {
    let p = match codegen(vec![Token::Inc, Token::JmpPast, Token::Dec, Token::JmpBack]) {
        Ok(p) => p,
        Err(e) => panic!("unexpected error {:?}", e),
    };
    assert_eq!(p.blocks.len(), 3);
    assert_eq!(p.blocks[0].ops, vec![Op::CellInc]);
    assert_eq!(p.blocks[1].ops, vec![Op::CellDec]);
    assert!(p.blocks[2].ops.is_empty());
}
