//! Bracket depth and loop matching, and what they imply for the code
//! generator: when it fails, how many blocks it makes, and how loops link.

use crate::ir::{compile, emit, step, BlockModel, CompileError, EmitState, Terminator};
use crate::lexer::Token;
use vstd::prelude::*;

verus! {

/// How many times `x` occurs in `t`.
pub open spec fn count_of(t: Seq<Token>, x: Token) -> nat
    decreases t.len(),
{
    if t.len() == 0 {
        0
    } else {
        count_of(t.drop_last(), x) + if t.last() == x { 1nat } else { 0nat }
    }
}

/// Loops opened minus loops closed in `t`.
pub open spec fn depth(t: Seq<Token>) -> int {
    count_of(t, Token::JmpPast) - count_of(t, Token::JmpBack)
}

/// Some prefix of `t` closes more loops than it opens.
pub open spec fn has_unmatched_close(t: Seq<Token>) -> bool {
    exists|n: int| 0 <= n <= t.len() && #[trigger] depth(t.take(n)) < 0
}

/// Every `]` of `t` closes an earlier `[`, and every `[` is closed.
pub open spec fn balanced(t: Seq<Token>) -> bool {
    !has_unmatched_close(t) && depth(t) == 0
}

/// The `[` at `i` and the `]` at `j` are a pair: the tokens strictly between
/// them are balanced.
pub open spec fn matched(t: Seq<Token>, i: int, j: int) -> bool {
    &&& 0 <= i < j < t.len()
    &&& t[i] == Token::JmpPast
    &&& t[j] == Token::JmpBack
    &&& depth(t.take(j)) == depth(t.take(i)) + 1
    &&& forall|m: int| i < m <= j ==> #[trigger] depth(t.take(m)) >= depth(t.take(i)) + 1
}

/// The (body, after) blocks made for the `[` that has `k` others before it.
pub open spec fn frame_of(k: nat) -> (usize, usize) {
    ((2 * k + 1) as usize, (2 * k + 2) as usize)
}

/// Every branch of `blocks` goes to one of them.
pub open spec fn targets_in_range(blocks: Seq<BlockModel>) -> bool {
    forall|b: int|
        0 <= b < blocks.len() ==> match #[trigger] blocks[b].term {
            Terminator::Branch { nonzero, zero } => nonzero < blocks.len() && zero < blocks.len(),
            Terminator::Return => true,
        }
}

/// What holds of every state that the code generator reaches.
pub open spec fn state_ok(s: EmitState) -> bool {
    &&& s.cur < s.blocks.len()
    &&& targets_in_range(s.blocks)
    &&& forall|k: int|
        0 <= k < s.stack.len() ==> #[trigger] s.stack[k].0 < s.blocks.len() && s.stack[k].1
            < s.blocks.len()
}

proof fn lemma_take_drop_last(t: Seq<Token>, n: int)
    requires
        0 <= n < t.len(),
    ensures
        t.drop_last().take(n) == t.take(n),
{
    assert(t.drop_last().take(n) =~= t.take(n));
}

/// The generator fails on a prefix exactly when some prefix goes below depth
/// zero; otherwise its stack holds one pair per open loop, its blocks are the
/// entry and two per `[`, and every branch stays inside them.
pub proof fn lemma_emit_shape(t: Seq<Token>)
    requires
        2 * t.len() + 1 <= usize::MAX,
    ensures
        emit(t) is Some <==> !has_unmatched_close(t),
        emit(t) is Some ==> {
            let s = emit(t).unwrap();
            &&& s.stack.len() == depth(t)
            &&& s.blocks.len() == 1 + 2 * count_of(t, Token::JmpPast)
            &&& state_ok(s)
        },
    decreases t.len(),
{
    if t.len() == 0 {
        assert(t.take(0) =~= t);
        assert(targets_in_range(seq![crate::ir::fresh_block()]));
    } else {
        let p = t.drop_last();
        lemma_emit_shape(p);
        assert(t.take(t.len() as int) =~= t);
        assert forall|n: int| 0 <= n <= p.len() implies #[trigger] p.take(n) == t.take(n) by {
            if n < t.len() {
                lemma_take_drop_last(t, n);
            }
        }
        if has_unmatched_close(p) {
            let n = choose|n: int| 0 <= n <= p.len() && #[trigger] depth(p.take(n)) < 0;
            assert(p.take(n) == t.take(n));
            assert(has_unmatched_close(t));
        } else {
            let s = emit(p).unwrap();
            let x = t.last();
            if x == Token::JmpBack && s.stack.len() == 0 {
                assert(depth(t.take(t.len() as int)) < 0);
            } else {
                assert forall|n: int| 0 <= n <= t.len() implies #[trigger] depth(t.take(n)) >= 0 by {
                    if n < t.len() {
                        assert(p.take(n) == t.take(n));
                    }
                }
                let s2 = step(s, x).unwrap();
                if x == Token::JmpPast {
                    assert forall|b: int| 0 <= b < s2.blocks.len() implies match #[trigger] s2.blocks[b].term {
                        Terminator::Branch { nonzero, zero } => nonzero < s2.blocks.len() && zero < s2.blocks.len(),
                        Terminator::Return => true,
                    } by {
                        if b < s.blocks.len() && b != s.cur {
                            assert(s2.blocks[b] == s.blocks[b]);
                        }
                    }
                } else if x == Token::JmpBack {
                    assert(s.stack[s.stack.len() - 1].0 < s.blocks.len());
                    assert forall|b: int| 0 <= b < s2.blocks.len() implies match #[trigger] s2.blocks[b].term {
                        Terminator::Branch { nonzero, zero } => nonzero < s2.blocks.len() && zero < s2.blocks.len(),
                        Terminator::Return => true,
                    } by {
                        if b != s.cur {
                            assert(s2.blocks[b] == s.blocks[b]);
                        }
                    }
                    assert forall|k: int| 0 <= k < s2.stack.len() implies #[trigger] s2.stack[k].0 < s2.blocks.len() && s2.stack[k].1 < s2.blocks.len() by {
                        assert(s2.stack[k] == s.stack[k]);
                    }
                }
            }
        }
    }
}


/// A token sequence compiles exactly when it is balanced; an unmatched `]`
/// is reported before an unmatched `[`. A compiled function has the entry
/// block and two blocks per loop, and no branch leaves it.
pub proof fn lemma_compile_shape(t: Seq<Token>)
    requires
        2 * t.len() + 1 <= usize::MAX,
    ensures
        compile(t) is Ok <==> balanced(t),
        compile(t) == Err::<Seq<BlockModel>, CompileError>(CompileError::UnmatchedLoopClose)
            <==> has_unmatched_close(t),
        compile(t) == Err::<Seq<BlockModel>, CompileError>(CompileError::UnmatchedLoopOpen)
            <==> !has_unmatched_close(t) && depth(t) > 0,
        compile(t) is Ok ==> {
            let p = compile(t).unwrap();
            &&& count_of(t, Token::JmpPast) == count_of(t, Token::JmpBack)
            &&& p.len() == 1 + 2 * count_of(t, Token::JmpPast)
            &&& targets_in_range(p)
        },
{
    lemma_emit_shape(t);
    assert(t.take(t.len() as int) =~= t);
    if let Some(s) = emit(t) {
        let p = s.blocks.update(s.cur as int, BlockModel { ops: s.ops, term: Terminator::Return });
        assert forall|b: int| 0 <= b < p.len() implies match #[trigger] p[b].term {
            Terminator::Branch { nonzero, zero } => nonzero < p.len() && zero < p.len(),
            Terminator::Return => true,
        } by {
            if b != s.cur {
                assert(p[b] == s.blocks[b]);
            }
        }
    }
}


proof fn lemma_count_take_succ(t: Seq<Token>, n: int, x: Token)
    requires
        0 <= n < t.len(),
    ensures
        count_of(t.take(n + 1), x) == count_of(t.take(n), x) + if t[n] == x { 1nat } else { 0nat },
        emit(t.take(n + 1)) == match emit(t.take(n)) {
            Some(s) => step(s, t[n]),
            None => None,
        },
{
    assert(t.take(n + 1).drop_last() =~= t.take(n));
}

proof fn lemma_count_take_mono(t: Seq<Token>, m: int, n: int, x: Token)
    requires
        0 <= m <= n <= t.len(),
    ensures
        count_of(t.take(m), x) <= count_of(t.take(n), x),
    decreases n - m,
{
    if m < n {
        lemma_count_take_mono(t, m, n - 1, x);
        lemma_count_take_succ(t, n - 1, x);
    }
}

proof fn lemma_count_take_bound(t: Seq<Token>, n: int, x: Token)
    requires
        0 <= n <= t.len(),
    ensures
        count_of(t.take(n), x) <= n,
    decreases n,
{
    if n > 0 {
        lemma_count_take_bound(t, n - 1, x);
        lemma_count_take_succ(t, n - 1, x);
    }
}

proof fn lemma_prefix_no_unmatched_close(t: Seq<Token>, n: int)
    requires
        !has_unmatched_close(t),
        0 <= n <= t.len(),
    ensures
        !has_unmatched_close(t.take(n)),
{
    assert forall|m: int| 0 <= m <= n implies #[trigger] depth(t.take(n).take(m)) >= 0 by {
        assert(t.take(n).take(m) =~= t.take(m));
    }
}

proof fn lemma_prefix_state(t: Seq<Token>, n: int)
    requires
        2 * t.len() + 1 <= usize::MAX,
        !has_unmatched_close(t),
        0 <= n <= t.len(),
    ensures
        emit(t.take(n)) is Some,
        emit(t.take(n)).unwrap().stack.len() == depth(t.take(n)),
        emit(t.take(n)).unwrap().blocks.len() == 1 + 2 * count_of(t.take(n), Token::JmpPast),
{
    lemma_prefix_no_unmatched_close(t, n);
    lemma_emit_shape(t.take(n));
}

/// Between two points where the depth never drops below its value at the
/// first, the loops open at the first stay on the stack untouched.
proof fn lemma_stack_kept(t: Seq<Token>, a: int, b: int)
    requires
        2 * t.len() + 1 <= usize::MAX,
        !has_unmatched_close(t),
        0 <= a <= b <= t.len(),
        forall|m: int| a <= m <= b ==> #[trigger] depth(t.take(m)) >= depth(t.take(a)),
    ensures
        emit(t.take(b)).unwrap().stack.len() >= emit(t.take(a)).unwrap().stack.len(),
        emit(t.take(b)).unwrap().stack.take(emit(t.take(a)).unwrap().stack.len() as int) == emit(
            t.take(a),
        ).unwrap().stack,
    decreases b - a,
{
    lemma_prefix_state(t, a);
    lemma_prefix_state(t, b);
    let la = emit(t.take(a)).unwrap().stack.len() as int;
    if a == b {
        assert(emit(t.take(a)).unwrap().stack.take(la) =~= emit(t.take(a)).unwrap().stack);
    } else {
        lemma_stack_kept(t, a, b - 1);
        lemma_prefix_state(t, b - 1);
        lemma_count_take_succ(t, b - 1, Token::JmpPast);
        lemma_count_take_succ(t, b - 1, Token::JmpBack);
        let s1 = emit(t.take(b - 1)).unwrap();
        let s2 = emit(t.take(b)).unwrap();
        assert(depth(t.take(b)) >= depth(t.take(a)));
        if t[b - 1] == Token::JmpPast {
            assert(s2.stack.take(la) =~= s1.stack.take(la));
        } else if t[b - 1] == Token::JmpBack {
            assert(s2.stack.take(la) =~= s1.stack.take(la));
        }
    }
}

/// A `]` closes the loop of its own `[`: the (body, after) pair that it pops
/// is the pair that its matching `[` pushed, and that pair is made of the two
/// blocks created for that `[`, the ones after the entry and the two blocks of
/// each earlier `[`. A balanced sequence ends with an empty stack.
pub proof fn lemma_close_pops_own_frame(t: Seq<Token>, i: int, j: int)
    requires
        2 * t.len() + 1 <= usize::MAX,
        balanced(t),
        matched(t, i, j),
    ensures
        emit(t.take(i + 1)).unwrap().stack.last() == frame_of(count_of(t.take(i), Token::JmpPast)),
        emit(t.take(j)).unwrap().stack.last() == frame_of(count_of(t.take(i), Token::JmpPast)),
        emit(t).unwrap().stack.len() == 0,
{
    lemma_prefix_state(t, i);
    lemma_prefix_state(t, i + 1);
    lemma_prefix_state(t, j);
    lemma_count_take_succ(t, i, Token::JmpPast);
    lemma_count_take_succ(t, i, Token::JmpBack);
    lemma_stack_kept(t, i + 1, j);
    let s = emit(t.take(j)).unwrap().stack;
    let r = emit(t.take(i + 1)).unwrap().stack;
    assert(s.len() == r.len());
    assert(s.take(r.len() as int) =~= s);
    lemma_emit_shape(t);
}

/// Two different `[` get different frames: the later one has more `[`
/// before it, so none of its blocks is a block of the earlier one.
pub proof fn lemma_frames_distinct(t: Seq<Token>, i1: int, i2: int)
    requires
        2 * t.len() + 1 <= usize::MAX,
        0 <= i1 < i2 < t.len(),
        t[i1] == Token::JmpPast,
        t[i2] == Token::JmpPast,
    ensures
        count_of(t.take(i1), Token::JmpPast) < count_of(t.take(i2), Token::JmpPast),
        frame_of(count_of(t.take(i1), Token::JmpPast)).1 < frame_of(
            count_of(t.take(i2), Token::JmpPast),
        ).0,
{
    lemma_count_take_succ(t, i1, Token::JmpPast);
    lemma_count_take_mono(t, i1 + 1, i2, Token::JmpPast);
    lemma_count_take_bound(t, i2, Token::JmpPast);
}


/// The after blocks on the stack grow from bottom to top, and none of them is
/// the block being filled.
pub open spec fn links_ok(s: EmitState) -> bool {
    &&& forall|a: int, b: int| 0 <= a < b < s.stack.len() ==> #[trigger] s.stack[a].1 < #[trigger] s.stack[b].1
    &&& forall|k: int| 0 <= k < s.stack.len() ==> #[trigger] s.stack[k].1 != s.cur
}

/// Block `c` is finished: it exists, it is not being filled, and no open loop
/// will move to it.
pub open spec fn finished(s: EmitState, c: int) -> bool {
    &&& 0 <= c < s.blocks.len()
    &&& c != s.cur
    &&& forall|k: int| 0 <= k < s.stack.len() ==> #[trigger] s.stack[k].1 != c
}

/// The block being filled when the token at `n` is met.
pub open spec fn block_at(t: Seq<Token>, n: int) -> int {
    emit(t.take(n)).unwrap().cur as int
}

proof fn lemma_step_links(s: EmitState, x: Token)
    requires
        state_ok(s),
        links_ok(s),
        s.blocks.len() + 2 <= usize::MAX,
        step(s, x) is Some,
    ensures
        links_ok(step(s, x).unwrap()),
{
    let s2 = step(s, x).unwrap();
    if x == Token::JmpBack {
        assert forall|k: int| 0 <= k < s2.stack.len() implies #[trigger] s2.stack[k].1 != s2.cur by {
            assert(s2.stack[k] == s.stack[k]);
            assert(s.stack[k].1 < s.stack[s.stack.len() - 1].1);
        }
        assert forall|a: int, b: int| 0 <= a < b < s2.stack.len() implies #[trigger] s2.stack[a].1 < #[trigger] s2.stack[b].1 by {
            assert(s2.stack[a] == s.stack[a]);
            assert(s2.stack[b] == s.stack[b]);
        }
    } else if x == Token::JmpPast {
        assert forall|a: int, b: int| 0 <= a < b < s2.stack.len() implies #[trigger] s2.stack[a].1 < #[trigger] s2.stack[b].1 by {
            assert(s2.stack[a] == s.stack[a]);
            if b < s.stack.len() {
                assert(s2.stack[b] == s.stack[b]);
            }
        }
        assert forall|k: int| 0 <= k < s2.stack.len() implies #[trigger] s2.stack[k].1 != s2.cur by {
            if k < s.stack.len() {
                assert(s2.stack[k] == s.stack[k]);
            }
        }
    }
}

proof fn lemma_step_keeps_finished(s: EmitState, x: Token, c: int)
    requires
        state_ok(s),
        links_ok(s),
        finished(s, c),
        s.blocks.len() + 2 <= usize::MAX,
        step(s, x) is Some,
    ensures
        finished(step(s, x).unwrap(), c),
        step(s, x).unwrap().blocks[c] == s.blocks[c],
{
    let s2 = step(s, x).unwrap();
    if x == Token::JmpBack {
        assert(s.stack[s.stack.len() - 1].1 != c);
        assert forall|k: int| 0 <= k < s2.stack.len() implies #[trigger] s2.stack[k].1 != c by {
            assert(s2.stack[k] == s.stack[k]);
        }
    } else if x == Token::JmpPast {
        assert forall|k: int| 0 <= k < s2.stack.len() implies #[trigger] s2.stack[k].1 != c by {
            if k < s.stack.len() {
                assert(s2.stack[k] == s.stack[k]);
            }
        }
    }
}

proof fn lemma_prefix_links(t: Seq<Token>, n: int)
    requires
        2 * t.len() + 1 <= usize::MAX,
        !has_unmatched_close(t),
        0 <= n <= t.len(),
    ensures
        links_ok(emit(t.take(n)).unwrap()),
        state_ok(emit(t.take(n)).unwrap()),
    decreases n,
{
    lemma_prefix_state(t, n);
    lemma_prefix_no_unmatched_close(t, n);
    lemma_emit_shape(t.take(n));
    if n > 0 {
        lemma_prefix_links(t, n - 1);
        lemma_prefix_state(t, n - 1);
        lemma_count_take_succ(t, n - 1, Token::JmpPast);
        lemma_count_take_bound(t, n - 1, Token::JmpPast);
        lemma_step_links(emit(t.take(n - 1)).unwrap(), t[n - 1]);
    }
}

proof fn lemma_finished_stays(t: Seq<Token>, c: int, a: int, b: int)
    requires
        2 * t.len() + 1 <= usize::MAX,
        !has_unmatched_close(t),
        0 <= a <= b <= t.len(),
        finished(emit(t.take(a)).unwrap(), c),
    ensures
        finished(emit(t.take(b)).unwrap(), c),
        emit(t.take(b)).unwrap().blocks[c] == emit(t.take(a)).unwrap().blocks[c],
    decreases b - a,
{
    lemma_prefix_state(t, a);
    if a < b {
        lemma_finished_stays(t, c, a, b - 1);
        lemma_prefix_state(t, b);
        lemma_prefix_state(t, b - 1);
        lemma_prefix_links(t, b - 1);
        lemma_count_take_succ(t, b - 1, Token::JmpPast);
        lemma_count_take_bound(t, b - 1, Token::JmpPast);
        lemma_step_keeps_finished(emit(t.take(b - 1)).unwrap(), t[b - 1], c);
    }
}

/// What a bracket at `n` leaves in the block it closes, for good: its
/// operations and a branch to `frame`, the pair that it pushes or pops.
proof fn lemma_bracket_closes_block(t: Seq<Token>, n: int, frame: (usize, usize))
    requires
        2 * t.len() + 1 <= usize::MAX,
        balanced(t),
        0 <= n < t.len(),
        t[n] == Token::JmpPast ==> (emit(t.take(n + 1)) matches Some(s1) && s1.stack.len() > 0
            && frame == s1.stack.last()),
        t[n] == Token::JmpBack ==> (emit(t.take(n)) matches Some(s0) && s0.stack.len() > 0 && frame
            == s0.stack.last()),
        t[n] == Token::JmpPast || t[n] == Token::JmpBack,
    ensures
        compile(t).unwrap()[block_at(t, n)] == (BlockModel {
            ops: emit(t.take(n)).unwrap().ops,
            term: Terminator::Branch { nonzero: frame.0, zero: frame.1 },
        }),
{
    lemma_prefix_state(t, n);
    lemma_prefix_state(t, n + 1);
    lemma_prefix_links(t, n);
    lemma_count_take_succ(t, n, Token::JmpPast);
    lemma_count_take_bound(t, n, Token::JmpPast);
    let s = emit(t.take(n)).unwrap();
    let c = s.cur as int;
    if t[n] == Token::JmpBack {
        assert(s.stack[s.stack.len() - 1].1 != c);
    }
    let s1 = emit(t.take(n + 1)).unwrap();
    assert(s1 == step(s, t[n]).unwrap());
    assert(c < s.blocks.len());
    assert forall|k: int| 0 <= k < s1.stack.len() implies #[trigger] s1.stack[k].1 != c by {
        if k < s.stack.len() {
            assert(s1.stack[k] == s.stack[k]);
        } else {
            assert(s1.stack[k].1 == s.blocks.len() + 1);
        }
    }
    assert(finished(s1, c));
    lemma_finished_stays(t, c, n + 1, t.len() as int);
    assert(t.take(t.len() as int) =~= t);
    lemma_emit_shape(t);
}

/// In the compiled function of a balanced sequence, the block that a `[`
/// closes and the block that its matching `]` closes both branch to that
/// loop's own body and after blocks, which no other `[` shares.
pub proof fn lemma_loop_blocks_linked(t: Seq<Token>, i: int, j: int)
    requires
        2 * t.len() + 1 <= usize::MAX,
        balanced(t),
        matched(t, i, j),
    ensures
        ({
            let f = frame_of(count_of(t.take(i), Token::JmpPast));
            let branch = Terminator::Branch { nonzero: f.0, zero: f.1 };
            &&& compile(t) is Ok
            &&& 0 <= block_at(t, i) < compile(t).unwrap().len()
            &&& 0 <= block_at(t, j) < compile(t).unwrap().len()
            &&& compile(t).unwrap()[block_at(t, i)].term == branch
            &&& compile(t).unwrap()[block_at(t, j)].term == branch
        }),
{
    lemma_close_pops_own_frame(t, i, j);
    lemma_prefix_state(t, i);
    lemma_prefix_state(t, i + 1);
    lemma_prefix_state(t, j);
    lemma_prefix_links(t, i);
    lemma_prefix_links(t, j);
    lemma_count_take_succ(t, i, Token::JmpPast);
    lemma_count_take_succ(t, i, Token::JmpBack);
    assert(t.take(t.len() as int) =~= t);
    lemma_emit_shape(t);
    lemma_count_take_mono(t, i, t.len() as int, Token::JmpPast);
    lemma_count_take_mono(t, j, t.len() as int, Token::JmpPast);
    let f = frame_of(count_of(t.take(i), Token::JmpPast));
    lemma_bracket_closes_block(t, i, f);
    lemma_bracket_closes_block(t, j, f);
    lemma_compile_shape(t);
}

} // verus!
