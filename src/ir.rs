//! The block-structured form that programs compile to, and the code
//! generator that builds it from tokens.

use crate::lexer::{lemma_tokens_len, lex, tokens_of, Token};
use crate::loops::{balanced, count_of, depth, has_unmatched_close, lemma_compile_shape, targets_in_range};
use vstd::prelude::*;

verus! {

/// One straight-line operation on the tape and its pointer.
#[derive(Clone, Copy, Debug, PartialEq, Eq, Structural)]
pub enum Op {
    /// Add one to the pointer.
    PtrAdd,
    /// Subtract one from the pointer.
    PtrSub,
    /// Add one to the current cell, wrapping at 256.
    CellInc,
    /// Subtract one from the current cell, wrapping at 256.
    CellDec,
    /// Write the current cell to standard output.
    Output,
    /// Read one byte of standard input into the current cell.
    Input,
}

/// How control leaves a block.
#[derive(Clone, Copy, Debug, PartialEq, Eq, Structural)]
pub enum Terminator {
    /// Go to block `nonzero` if the current cell is nonzero, else to block `zero`.
    Branch { nonzero: usize, zero: usize },
    /// Leave the function.
    Return,
}

/// A block of operations with a single entry and an explicit exit.
#[derive(Debug)]
pub struct Block {
    pub ops: Vec<Op>,
    pub term: Terminator,
}

/// The mathematical content of a block.
pub struct BlockModel {
    pub ops: Seq<Op>,
    pub term: Terminator,
}

impl View for Block {
    type V = BlockModel;

    open spec fn view(&self) -> BlockModel {
        BlockModel { ops: self.ops@, term: self.term }
    }
}

/// A generated function: its blocks, the first of which is the entry.
#[derive(Debug)]
pub struct Program {
    pub blocks: Vec<Block>,
}

impl View for Program {
    type V = Seq<BlockModel>;

    open spec fn view(&self) -> Seq<BlockModel> {
        self.blocks@.map_values(|b: Block| b@)
    }
}

/// Why a token sequence does not compile.
#[derive(Clone, Copy, Debug, PartialEq, Eq, Structural)]
pub enum CompileError {
    /// A `]` came with no open loop to close.
    UnmatchedLoopClose,
    /// A `[` was still open at the end of the input.
    UnmatchedLoopOpen,
}

/// A block that has not been given its operations and exit yet.
pub open spec fn fresh_block() -> BlockModel {
    BlockModel { ops: Seq::empty(), term: Terminator::Return }
}

/// The operation that a non-loop token translates to.
pub open spec fn op_of(t: Token) -> Option<Op> {
    match t {
        Token::PtrRight => Some(Op::PtrAdd),
        Token::PtrLeft => Some(Op::PtrSub),
        Token::Inc => Some(Op::CellInc),
        Token::Dec => Some(Op::CellDec),
        Token::Out => Some(Op::Output),
        Token::In => Some(Op::Input),
        _ => None,
    }
}

/// The state of the code generator between two tokens: the blocks made so
/// far, the block being filled and the operations given to it so far, and
/// the stack of open loops, each as its (body, after) pair of blocks.
pub struct EmitState {
    pub blocks: Seq<BlockModel>,
    pub cur: usize,
    pub ops: Seq<Op>,
    pub stack: Seq<(usize, usize)>,
}

/// The state before any token: one empty entry block.
pub open spec fn initial_state() -> EmitState {
    EmitState { blocks: seq![fresh_block()], cur: 0, ops: Seq::empty(), stack: Seq::empty() }
}

/// The state after one more token, or `None` for a `]` with no open loop.
///
/// `[` closes the current block with a branch on the current cell to a new
/// body block (nonzero) or a new after block (zero), moves to the body and
/// pushes the pair. `]` pops the innermost pair, closes the current block with
/// the same branch and moves to the after block.
pub open spec fn step(s: EmitState, t: Token) -> Option<EmitState> {
    match op_of(t) {
        Some(op) => Some(EmitState { ops: s.ops.push(op), ..s }),
        None => if t == Token::JmpPast {
            let body = s.blocks.len() as usize;
            let after = (s.blocks.len() + 1) as usize;
            let closed = BlockModel { ops: s.ops, term: Terminator::Branch { nonzero: body, zero: after } };
            Some(EmitState {
                blocks: s.blocks.update(s.cur as int, closed).push(fresh_block()).push(fresh_block()),
                cur: body,
                ops: Seq::empty(),
                stack: s.stack.push((body, after)),
            })
        } else if s.stack.len() == 0 {
            None
        } else {
            let (body, after) = s.stack.last();
            let closed = BlockModel { ops: s.ops, term: Terminator::Branch { nonzero: body, zero: after } };
            Some(EmitState {
                blocks: s.blocks.update(s.cur as int, closed),
                cur: after,
                ops: Seq::empty(),
                stack: s.stack.drop_last(),
            })
        },
    }
}

/// The state after a whole token sequence, or `None` if a `]` came with no
/// open loop.
pub open spec fn emit(t: Seq<Token>) -> Option<EmitState>
    decreases t.len(),
{
    if t.len() == 0 {
        Some(initial_state())
    } else {
        match emit(t.drop_last()) {
            Some(s) => step(s, t.last()),
            None => None,
        }
    }
}

/// What a token sequence compiles to: the blocks of the function, the last
/// one closed with a return, or the first error met.
pub open spec fn compile(t: Seq<Token>) -> Result<Seq<BlockModel>, CompileError> {
    match emit(t) {
        None => Err(CompileError::UnmatchedLoopClose),
        Some(s) => if s.stack.len() > 0 {
            Err(CompileError::UnmatchedLoopOpen)
        } else {
            Ok(s.blocks.update(s.cur as int, BlockModel { ops: s.ops, term: Terminator::Return }))
        },
    }
}

fn new_block() -> (b: Block)
    ensures
        b@ == fresh_block(),
{
    Block { ops: Vec::new(), term: Terminator::Return }
}

/// Translates a token sequence into the blocks of one function, resolving
/// each loop's brackets with an explicit stack of (body, after) block pairs.
pub fn codegen(tokens: Vec<Token>) -> (r: Result<Program, CompileError>)
    requires
        2 * tokens@.len() + 1 <= usize::MAX,
    ensures
        match r {
            Ok(p) => compile(tokens@) == Ok::<Seq<BlockModel>, CompileError>(p@),
            Err(e) => compile(tokens@) == Err::<Seq<BlockModel>, CompileError>(e),
        },
        r is Ok <==> balanced(tokens@),
        r == Err::<Program, CompileError>(CompileError::UnmatchedLoopClose) <==> has_unmatched_close(
            tokens@,
        ),
        r == Err::<Program, CompileError>(CompileError::UnmatchedLoopOpen) <==> !has_unmatched_close(
            tokens@,
        ) && depth(tokens@) > 0,
        r matches Ok(p) ==> {
            &&& count_of(tokens@, Token::JmpPast) == count_of(tokens@, Token::JmpBack)
            &&& p@.len() == 1 + 2 * count_of(tokens@, Token::JmpPast)
            &&& targets_in_range(p@)
        },
{
    let mut blocks: Vec<Block> = Vec::new();
    blocks.push(new_block());
    let mut cur: usize = 0;
    let mut ops: Vec<Op> = Vec::new();
    let mut stack: Vec<(usize, usize)> = Vec::new();
    let mut i: usize = 0;
    assert(blocks@.map_values(|b: Block| b@) =~= initial_state().blocks);
    while i < tokens.len()
        invariant
            i <= tokens@.len(),
            2 * tokens@.len() + 1 <= usize::MAX,
            emit(tokens@.take(i as int)) == Some(EmitState {
                blocks: blocks@.map_values(|b: Block| b@),
                cur,
                ops: ops@,
                stack: stack@,
            }),
            blocks@.len() <= 2 * i + 1,
            cur < blocks@.len(),
            forall|k: int| 0 <= k < stack@.len() ==> #[trigger] stack@[k].0 < blocks@.len() && stack@[k].1 < blocks@.len(),
        decreases tokens@.len() - i,
    {
        let ghost s = emit(tokens@.take(i as int)).unwrap();
        assert(tokens@.take(i + 1).drop_last() == tokens@.take(i as int));
        let t = tokens[i];
        match t {
            Token::PtrRight => ops.push(Op::PtrAdd),
            Token::PtrLeft => ops.push(Op::PtrSub),
            Token::Inc => ops.push(Op::CellInc),
            Token::Dec => ops.push(Op::CellDec),
            Token::Out => ops.push(Op::Output),
            Token::In => ops.push(Op::Input),
            Token::JmpPast => {
                let body = blocks.len();
                let after = body + 1;
                let closed = Block { ops, term: Terminator::Branch { nonzero: body, zero: after } };
                blocks.set(cur, closed);
                blocks.push(new_block());
                blocks.push(new_block());
                ops = Vec::new();
                cur = body;
                stack.push((body, after));
                assert(blocks@.map_values(|b: Block| b@) =~= step(s, t).unwrap().blocks);
            },
            Token::JmpBack => {
                match stack.pop() {
                    None => {
                        assert(emit(tokens@.take(i + 1)) is None);
                        let mut k: usize = i + 1;
                        while k < tokens.len()
                            invariant
                                i < k <= tokens@.len(),
                                emit(tokens@.take(k as int)) is None,
                            decreases tokens@.len() - k,
                        {
                            assert(tokens@.take(k + 1).drop_last() == tokens@.take(k as int));
                            k = k + 1;
                        }
                        assert(tokens@.take(k as int) == tokens@);
                        proof {
                            lemma_compile_shape(tokens@);
                        }
                        return Err(CompileError::UnmatchedLoopClose);
                    },
                    Some(frame) => {
                        let (body, after) = frame;
                        let closed = Block { ops, term: Terminator::Branch { nonzero: body, zero: after } };
                        blocks.set(cur, closed);
                        ops = Vec::new();
                        cur = after;
                        assert(blocks@.map_values(|b: Block| b@) =~= step(s, t).unwrap().blocks);
                    },
                }
            },
        }
        i = i + 1;
    }
    assert(tokens@.take(i as int) == tokens@);
    proof {
        lemma_compile_shape(tokens@);
    }
    if stack.len() > 0 {
        return Err(CompileError::UnmatchedLoopOpen);
    }
    let last = Block { ops, term: Terminator::Return };
    blocks.set(cur, last);
    let p = Program { blocks };
    assert(p@ =~= compile(tokens@).unwrap());
    Ok(p)
}

/// Lexes a source text and translates its tokens into one function.
pub fn compile_source(source: &[u8]) -> (r: Result<Program, CompileError>)
    requires
        2 * source@.len() + 1 <= usize::MAX,
    ensures
        match r {
            Ok(p) => compile(tokens_of(source@)) == Ok::<Seq<BlockModel>, CompileError>(p@),
            Err(e) => compile(tokens_of(source@)) == Err::<Seq<BlockModel>, CompileError>(e),
        },
        r is Ok <==> balanced(tokens_of(source@)),
{
    proof {
        lemma_tokens_len(source@);
    }
    codegen(lex(source))
}

} // verus!
