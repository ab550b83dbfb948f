//! The meaning of the generated blocks: a 256-cell byte tape with a pointer,
//! and an interpreter that runs a program on it.

use crate::ir::{compile, BlockModel, CompileError, Op, Program, Terminator};
use crate::lexer::Token;
use vstd::prelude::*;

verus! {

/// Number of cells on the tape.
pub const TAPE_SIZE: usize = 256;

/// The byte that a read at the end of input stores: `getchar`'s end-of-file
/// value, -1, as a byte.
pub const EOF_BYTE: u8 = 255;

/// The state of a running program. The pointer is not bounds-checked when
/// it moves; only a cell access outside the tape is a fault.
pub struct Machine {
    pub tape: Vec<u8>,
    pub ptr: i64,
    pub input: Vec<u8>,
    pub in_pos: usize,
    pub output: Vec<u8>,
}

/// The mathematical content of a machine: `input` is what is left to read.
pub struct MachineModel {
    pub tape: Seq<u8>,
    pub ptr: i64,
    pub input: Seq<u8>,
    pub output: Seq<u8>,
}

impl View for Machine {
    type V = MachineModel;

    open spec fn view(&self) -> MachineModel {
        MachineModel {
            tape: self.tape@,
            ptr: self.ptr,
            input: self.input@.skip(self.in_pos as int),
            output: self.output@,
        }
    }
}

impl Machine {
    /// The tape has its fixed size and the read position is inside the input.
    pub open spec fn wf(&self) -> bool {
        &&& self.tape@.len() == TAPE_SIZE
        &&& self.in_pos <= self.input@.len()
    }

    /// A machine with a zeroed tape, the pointer on cell 0, the given input
    /// and no output yet.
    pub fn new(input: Vec<u8>) -> (m: Machine)
        ensures
            m.wf(),
            m@ == initial_machine(input@),
    {
        let mut tape: Vec<u8> = Vec::new();
        while tape.len() < TAPE_SIZE
            invariant
                tape@.len() <= TAPE_SIZE,
                forall|k: int| 0 <= k < tape@.len() ==> tape@[k] == 0,
            decreases TAPE_SIZE - tape@.len(),
        {
            tape.push(0);
        }
        let m = Machine { tape, ptr: 0, input, in_pos: 0, output: Vec::new() };
        assert(m@.tape =~= initial_machine(m.input@).tape);
        assert(m@.input =~= m.input@);
        m
    }
}

/// The machine that a program starts on.
pub open spec fn initial_machine(input: Seq<u8>) -> MachineModel {
    MachineModel { tape: Seq::new(TAPE_SIZE as nat, |k: int| 0u8), ptr: 0, input, output: Seq::empty() }
}

/// A byte plus one, modulo 256.
pub open spec fn wrap_inc(v: u8) -> u8 {
    ((v + 1) % 256) as u8
}

/// A byte minus one, modulo 256.
pub open spec fn wrap_dec(v: u8) -> u8 {
    ((v + 255) % 256) as u8
}

/// The pointer plus one, wrapping at the ends of `i64`.
pub open spec fn ptr_right(p: i64) -> i64 {
    if p == i64::MAX { i64::MIN } else { (p + 1) as i64 }
}

/// The pointer minus one, wrapping at the ends of `i64`.
pub open spec fn ptr_left(p: i64) -> i64 {
    if p == i64::MIN { i64::MAX } else { (p - 1) as i64 }
}

/// The pointer selects a cell of the tape.
pub open spec fn on_tape(m: MachineModel) -> bool {
    0 <= m.ptr < m.tape.len()
}

/// The byte under the pointer.
pub open spec fn cell(m: MachineModel) -> u8 {
    m.tape[m.ptr as int]
}

/// The machine with the byte under the pointer replaced.
pub open spec fn with_cell(m: MachineModel, v: u8) -> MachineModel {
    MachineModel { tape: m.tape.update(m.ptr as int, v), ..m }
}

/// The machine after one operation, or `None` if it touches a cell off the tape.
pub open spec fn apply_op(m: MachineModel, op: Op) -> Option<MachineModel> {
    match op {
        Op::PtrAdd => Some(MachineModel { ptr: ptr_right(m.ptr), ..m }),
        Op::PtrSub => Some(MachineModel { ptr: ptr_left(m.ptr), ..m }),
        _ => if !on_tape(m) {
            None
        } else {
            match op {
                Op::CellInc => Some(with_cell(m, wrap_inc(cell(m)))),
                Op::CellDec => Some(with_cell(m, wrap_dec(cell(m)))),
                Op::Output => Some(MachineModel { output: m.output.push(cell(m)), ..m }),
                _ => if m.input.len() == 0 {
                    Some(with_cell(m, EOF_BYTE))
                } else {
                    Some(MachineModel { input: m.input.skip(1), ..with_cell(m, m.input[0]) })
                },
            }
        },
    }
}

/// The machine after a sequence of operations, or `None` at the first fault.
pub open spec fn run_ops(m: MachineModel, ops: Seq<Op>) -> Option<MachineModel>
    decreases ops.len(),
{
    if ops.len() == 0 {
        Some(m)
    } else {
        match apply_op(m, ops[0]) {
            Some(m2) => run_ops(m2, ops.skip(1)),
            None => None,
        }
    }
}

/// How a run of a program ends.
pub enum Outcome {
    /// The program returned, leaving this machine.
    Finished(MachineModel),
    /// A cell off the tape was touched, or a branch named no block.
    Fault,
    /// The run was stopped after the given number of blocks.
    OutOfFuel,
}

/// The result of running `blocks` from block `b` on `m`, executing at most
/// `fuel` blocks.
pub open spec fn run_blocks(blocks: Seq<BlockModel>, b: int, m: MachineModel, fuel: nat) -> Outcome
    decreases fuel,
{
    if fuel == 0 {
        Outcome::OutOfFuel
    } else if !(0 <= b < blocks.len()) {
        Outcome::Fault
    } else {
        match run_ops(m, blocks[b].ops) {
            None => Outcome::Fault,
            Some(m2) => match blocks[b].term {
                Terminator::Return => Outcome::Finished(m2),
                Terminator::Branch { nonzero, zero } => if !on_tape(m2) {
                    Outcome::Fault
                } else if cell(m2) != 0 {
                    run_blocks(blocks, nonzero as int, m2, (fuel - 1) as nat)
                } else {
                    run_blocks(blocks, zero as int, m2, (fuel - 1) as nat)
                },
            },
        }
    }
}


/// How a run of a program ends, with the final machine when it returned.
pub enum RunResult {
    Finished(Machine),
    Fault,
    OutOfFuel,
}

impl View for RunResult {
    type V = Outcome;

    open spec fn view(&self) -> Outcome {
        match self {
            RunResult::Finished(m) => Outcome::Finished(m@),
            RunResult::Fault => Outcome::Fault,
            RunResult::OutOfFuel => Outcome::OutOfFuel,
        }
    }
}

impl Machine {
    /// The index of the cell under the pointer, if it is on the tape.
    fn index(&self) -> (r: Option<usize>)
        requires
            self.wf(),
        ensures
            r is Some <==> on_tape(self@),
            r matches Some(k) ==> k == self.ptr,
    {
        if self.ptr >= 0 && self.ptr < TAPE_SIZE as i64 {
            Some(self.ptr as usize)
        } else {
            None
        }
    }

    /// Performs one operation; returns `false`, leaving the tape as it was,
    /// if the operation touches a cell off the tape.
    pub fn apply(&mut self, op: Op) -> (ok: bool)
        requires
            old(self).wf(),
        ensures
            final(self).wf(),
            ok == apply_op(old(self)@, op) is Some,
            ok ==> apply_op(old(self)@, op) == Some(final(self)@),
    {
        match op {
            Op::PtrAdd => {
                self.ptr = if self.ptr == i64::MAX { i64::MIN } else { self.ptr + 1 };
                true
            },
            Op::PtrSub => {
                self.ptr = if self.ptr == i64::MIN { i64::MAX } else { self.ptr - 1 };
                true
            },
            _ => match self.index() {
                None => false,
                Some(k) => {
                    let v = self.tape[k];
                    match op {
                        Op::CellInc => {
                            let w = if v == 255 { 0 } else { v + 1 };
                            self.tape.set(k, w);
                        },
                        Op::CellDec => {
                            let w = if v == 0 { 255 } else { v - 1 };
                            self.tape.set(k, w);
                        },
                        Op::Output => {
                            self.output.push(v);
                        },
                        _ => {
                            if self.in_pos < self.input.len() {
                                let b = self.input[self.in_pos];
                                self.tape.set(k, b);
                                proof {
                                    let rest = old(self).input@.skip(old(self).in_pos as int);
                                    assert(rest.skip(1) =~= self.input@.skip(self.in_pos + 1));
                                }
                                self.in_pos = self.in_pos + 1;
                            } else {
                                self.tape.set(k, EOF_BYTE);
                            }
                        },
                    }
                    true
                },
            },
        }
    }

    /// Performs a block's operations in order; returns `false` at the first
    /// one that touches a cell off the tape.
    pub fn apply_all(&mut self, ops: &Vec<Op>) -> (ok: bool)
        requires
            old(self).wf(),
        ensures
            final(self).wf(),
            ok == run_ops(old(self)@, ops@) is Some,
            ok ==> run_ops(old(self)@, ops@) == Some(final(self)@),
    {
        let mut k: usize = 0;
        assert(ops@.skip(0) =~= ops@);
        while k < ops.len()
            invariant
                self.wf(),
                k <= ops@.len(),
                run_ops(old(self)@, ops@) == run_ops(self@, ops@.skip(k as int)),
            decreases ops@.len() - k,
        {
            assert(ops@.skip(k as int).skip(1) =~= ops@.skip(k + 1));
            if !self.apply(ops[k]) {
                return false;
            }
            k = k + 1;
        }
        true
    }
}

/// Runs a program from its entry block on a fresh machine with the given
/// input, executing at most `fuel` blocks.
pub fn run(program: &Program, input: Vec<u8>, fuel: u64) -> (r: RunResult)
    ensures
        r@ == run_blocks(program@, 0, initial_machine(input@), fuel as nat),
{
    let mut m = Machine::new(input);
    let mut b: usize = 0;
    let mut left: u64 = fuel;
    while left > 0
        invariant
            m.wf(),
            run_blocks(program@, b as int, m@, left as nat) == run_blocks(
                program@,
                0,
                initial_machine(input@),
                fuel as nat,
            ),
        decreases left,
    {
        if b >= program.blocks.len() {
            return RunResult::Fault;
        }
        let block = &program.blocks[b];
        if !m.apply_all(&block.ops) {
            return RunResult::Fault;
        }
        match block.term {
            Terminator::Return => {
                return RunResult::Finished(m);
            },
            Terminator::Branch { nonzero, zero } => {
                match m.index() {
                    None => {
                        return RunResult::Fault;
                    },
                    Some(k) => {
                        b = if m.tape[k] != 0 { nonzero } else { zero };
                    },
                }
            },
        }
        left = left - 1;
    }
    RunResult::OutOfFuel
}


/// `n` copies of one operation.
pub open spec fn repeat_op(op: Op, n: nat) -> Seq<Op> {
    Seq::new(n, |k: int| op)
}

proof fn lemma_incs(m: MachineModel, n: nat)
    requires
        on_tape(m),
    ensures
        run_ops(m, repeat_op(Op::CellInc, n)) == Some(with_cell(m, ((cell(m) + n) % 256) as u8)),
    decreases n,
{
    if n == 0 {
        assert(m.tape.update(m.ptr as int, cell(m)) =~= m.tape);
    } else {
        let m2 = with_cell(m, wrap_inc(cell(m)));
        assert(repeat_op(Op::CellInc, n).skip(1) =~= repeat_op(Op::CellInc, (n - 1) as nat));
        lemma_incs(m2, (n - 1) as nat);
        assert(((wrap_inc(cell(m)) + (n - 1)) % 256) as u8 == ((cell(m) + n) % 256) as u8);
        assert(m2.tape.update(m.ptr as int, ((cell(m) + n) % 256) as u8) =~= m.tape.update(
            m.ptr as int,
            ((cell(m) + n) % 256) as u8,
        ));
    }
}

/// Adding one to the cell under the pointer 256 times gives the machine back
/// unchanged: the cell wraps around and never faults.
pub proof fn lemma_inc_256_restores(m: MachineModel)
    requires
        on_tape(m),
    ensures
        run_ops(m, repeat_op(Op::CellInc, 256)) == Some(m),
{
    lemma_incs(m, 256);
    assert(m.tape.update(m.ptr as int, cell(m)) =~= m.tape);
}

/// Moving the pointer right and then left gives the machine back unchanged,
/// at every pointer value.
pub proof fn lemma_right_left_restores(m: MachineModel)
    ensures
        run_ops(m, seq![Op::PtrAdd, Op::PtrSub]) == Some(m),
{
    let ops = seq![Op::PtrAdd, Op::PtrSub];
    assert(ops.skip(1) =~= seq![Op::PtrSub]);
    assert(ops.skip(1).skip(1) =~= Seq::<Op>::empty());
    let m1 = MachineModel { ptr: ptr_right(m.ptr), ..m };
    assert(apply_op(m1, Op::PtrSub) == Some(m));
    assert(run_ops(m, Seq::<Op>::empty()) == Some(m));
    assert(run_ops(m1, seq![Op::PtrSub]) == run_ops(m, Seq::<Op>::empty()));
    assert(run_ops(m, ops) == run_ops(m1, ops.skip(1)));
}


/// A token sequence with no instructions compiles to a single empty block
/// that returns at once, leaving the machine as it found it.
pub proof fn lemma_no_instructions(t: Seq<Token>, m: MachineModel, fuel: nat)
    requires
        t.len() == 0,
        fuel > 0,
    ensures
        compile(t) == Ok::<Seq<BlockModel>, CompileError>(
            seq![BlockModel { ops: Seq::empty(), term: Terminator::Return }],
        ),
        run_blocks(compile(t).unwrap(), 0, m, fuel) == Outcome::Finished(m),
{
    let p = compile(t).unwrap();
    assert(p =~= seq![BlockModel { ops: Seq::<Op>::empty(), term: Terminator::Return }]);
    assert(run_ops(m, p[0].ops) == Some(m));
}

} // verus!
