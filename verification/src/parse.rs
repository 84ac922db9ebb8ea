//! The front end: a peephole preoptimizer on the source text and the IR
//! builder, which collapses runs of repeated commands and matches loop
//! brackets into resolved index pairs by backpatching.

use crate::ir::{is_close, is_open, non_crossing, pair_at, wf, Op, OpKind, Program};
use vstd::prelude::*;

verus! {

/// The synthetic clear marker emitted by [`preoptimize`] for the
/// decrement-to-zero idiom `[-]`.  The byte `0xFF` never occurs in UTF-8
/// encoded text, so it cannot collide with a character of user source that
/// came from a string.
pub const CLEAR_MARK: u8 = 0xFF;

/// The byte values of the eight command characters.
pub const CMD_INC: u8 = 43;

pub const CMD_DEC: u8 = 45;

pub const CMD_FWD: u8 = 62;

pub const CMD_BCK: u8 = 60;

pub const CMD_OUT: u8 = 46;

pub const CMD_IN: u8 = 44;

pub const CMD_OPEN: u8 = 91;

pub const CMD_CLOSE: u8 = 93;

/// A fatal failure of the IR builder.
#[derive(Clone, Copy, PartialEq, Eq, Structural, Debug)]
pub enum ParseError {
    /// A `]` with no `[` still open.
    UnmatchedClose,
    /// A `[` still open at the end of the source.
    UnmatchedOpen,
}

/// The seven run-length-collapsible command bytes: the six repeatable
/// primitive commands and the synthetic clear marker.
pub open spec fn repeatable(c: u8) -> bool {
    c == CMD_INC || c == CMD_DEC || c == CMD_FWD || c == CMD_BCK || c == CMD_OUT || c == CMD_IN || c == CLEAR_MARK
}

/// The operation kind denoted by a repeatable command byte.
pub open spec fn kind_of(c: u8) -> OpKind {
    if c == CMD_INC {
        OpKind::Increment
    } else if c == CMD_DEC {
        OpKind::Decrement
    } else if c == CMD_FWD {
        OpKind::MoveForward
    } else if c == CMD_BCK {
        OpKind::MoveBackward
    } else if c == CMD_OUT {
        OpKind::Output
    } else if c == CMD_IN {
        OpKind::Input
    } else {
        OpKind::ClearCell
    }
}

/// The rewrite performed by the preoptimizer: each occurrence of the idiom
/// `[-]`, scanned left to right, is replaced by the clear marker.
pub open spec fn spec_preopt(s: Seq<u8>) -> Seq<u8>
    decreases s.len(),
{
    if s.len() >= 3 && s[0] == CMD_OPEN && s[1] == CMD_DEC && s[2] == CMD_CLOSE {
        seq![CLEAR_MARK] + spec_preopt(s.skip(3))
    } else if s.len() >= 1 {
        seq![s[0]] + spec_preopt(s.skip(1))
    } else {
        Seq::empty()
    }
}

/// The state carried by the IR builder's scan: the operations emitted so
/// far and the stack of indices of loop opens awaiting their close.
pub ghost struct ParseState {
    pub ops: Seq<Op>,
    pub stack: Seq<usize>,
}

pub open spec fn parse_init() -> ParseState {
    ParseState { ops: Seq::empty(), stack: Seq::empty() }
}

/// The IR builder as a character-at-a-time state machine over the source
/// bytes, beginning at position `i`.  A repeatable byte equal to its
/// predecessor extends the run of the most recent operation; any other
/// repeatable byte starts a new operation of length one.  A `[` is pushed
/// with a placeholder operand; a `]` pops the most recent open and the two
/// operands are resolved to each other's indices.  Every other byte is
/// ignored.
pub open spec fn parse_from(s: Seq<u8>, i: int, st: ParseState) -> Result<ParseState, ParseError>
    decreases s.len() - i,
{
    if i < 0 || i >= s.len() {
        Ok(st)
    } else {
        let c = s[i];
        if repeatable(c) {
            if i > 0 && s[i - 1] == c {
                let last = st.ops.len() - 1;
                let grown = Op { kind: kind_of(c), operand: (st.ops.last().operand + 1) as usize };
                parse_from(s, i + 1, ParseState { ops: st.ops.update(last, grown), stack: st.stack })
            } else {
                let fresh = Op { kind: kind_of(c), operand: 1 };
                parse_from(s, i + 1, ParseState { ops: st.ops.push(fresh), stack: st.stack })
            }
        } else if c == CMD_OPEN {
            let opened = Op { kind: OpKind::LoopOpen, operand: 0 };
            parse_from(
                s,
                i + 1,
                ParseState {
                    ops: st.ops.push(opened),
                    stack: st.stack.push(st.ops.len() as usize),
                },
            )
        } else if c == CMD_CLOSE {
            if st.stack.len() == 0 {
                Err(ParseError::UnmatchedClose)
            } else {
                let open_at = st.stack.last();
                let close_at = st.ops.len() as usize;
                let closed = Op { kind: OpKind::LoopClose, operand: open_at };
                let patched = Op { kind: OpKind::LoopOpen, operand: close_at };
                parse_from(
                    s,
                    i + 1,
                    ParseState {
                        ops: st.ops.push(closed).update(open_at as int, patched),
                        stack: st.stack.drop_last(),
                    },
                )
            }
        } else {
            parse_from(s, i + 1, st)
        }
    }
}

/// What [`parse`] returns: the complete scan from an empty state, with a
/// non-empty final stack reported as an unmatched open.
pub open spec fn spec_parse(s: Seq<u8>) -> Result<Seq<Op>, ParseError> {
    match parse_from(s, 0, parse_init()) {
        Ok(st) => if st.stack.len() == 0 {
            Ok(st.ops)
        } else {
            Err(ParseError::UnmatchedOpen)
        },
        Err(e) => Err(e),
    }
}

/// The bracket contribution of one byte: `[` opens, `]` closes, everything
/// else is neutral.
pub open spec fn bracket_delta(c: u8) -> int {
    if c == CMD_OPEN {
        1
    } else if c == CMD_CLOSE {
        -1
    } else {
        0
    }
}

/// The number of `[` minus the number of `]` in `s`.
pub open spec fn depth(s: Seq<u8>) -> int
    decreases s.len(),
{
    if s.len() == 0 {
        0
    } else {
        depth(s.drop_last()) + bracket_delta(s.last())
    }
}

/// Some prefix of `s` contains more `]` than `[`.
pub open spec fn has_neg_prefix(s: Seq<u8>) -> bool {
    exists|m: int| 0 <= m <= s.len() && depth(#[trigger] s.take(m)) < 0
}

/// The brackets of `s` are balanced: no prefix closes more loops than were
/// opened, and every opened loop is closed.
pub open spec fn balanced(s: Seq<u8>) -> bool {
    !has_neg_prefix(s) && depth(s) == 0
}

proof fn lemma_depth_step(s: Seq<u8>, i: int)
    requires
        0 <= i < s.len(),
    ensures
        depth(s.take(i + 1)) == depth(s.take(i)) + bracket_delta(s[i]),
{
    assert(s.take(i + 1).drop_last() =~= s.take(i));
    assert(s.take(i + 1).last() == s[i]);
}

/// `p` is one of the pending open indices.
pub open spec fn in_stack(stk: Seq<usize>, p: int) -> bool {
    exists|k: int| 0 <= k < stk.len() && stk[k] == p
}

fn is_repeatable(c: u8) -> (b: bool)
    ensures
        b == repeatable(c),
{
    c == CMD_INC || c == CMD_DEC || c == CMD_FWD || c == CMD_BCK || c == CMD_OUT || c == CMD_IN || c == CLEAR_MARK
}

fn byte_kind(c: u8) -> (k: OpKind)
    requires
        repeatable(c),
    ensures
        k == kind_of(c),
{
    if c == CMD_INC {
        OpKind::Increment
    } else if c == CMD_DEC {
        OpKind::Decrement
    } else if c == CMD_FWD {
        OpKind::MoveForward
    } else if c == CMD_BCK {
        OpKind::MoveBackward
    } else if c == CMD_OUT {
        OpKind::Output
    } else if c == CMD_IN {
        OpKind::Input
    } else {
        OpKind::ClearCell
    }
}

/// Replace every occurrence of the decrement-to-zero idiom `[-]` by the
/// clear marker.  The rewrite is sound because the loop's only observable
/// effect is to leave the current cell at zero.
pub fn preoptimize(src: &[u8]) -> (r: Vec<u8>)
    ensures
        r@ == spec_preopt(src@),
{
    let n = src.len();
    let mut out: Vec<u8> = Vec::new();
    let mut i: usize = 0;
    proof {
        assert(src@.skip(0) =~= src@);
        assert(Seq::<u8>::empty() + spec_preopt(src@) =~= spec_preopt(src@));
    }
    while i < n
        invariant
            n == src@.len(),
            i <= n,
            spec_preopt(src@) == out@ + spec_preopt(src@.skip(i as int)),
        decreases n - i,
    {
        let ghost pre = out@;
        if n - i > 2 && src[i] == CMD_OPEN && src[i + 1] == CMD_DEC && src[i + 2] == CMD_CLOSE {
            out.push(CLEAR_MARK);
            proof {
                let rest = src@.skip(i as int);
                assert(rest[0] == src@[i as int] && rest[1] == src@[i + 1] && rest[2] == src@[i
                    + 2]);
                assert(rest.skip(3) =~= src@.skip(i + 3));
                assert(spec_preopt(rest) == seq![CLEAR_MARK] + spec_preopt(src@.skip(i + 3)));
                assert(pre + spec_preopt(rest) =~= out@ + spec_preopt(src@.skip(i + 3)));
            }
            i += 3;
        } else {
            out.push(src[i]);
            proof {
                let rest = src@.skip(i as int);
                assert(rest[0] == src@[i as int]);
                assert(rest.skip(1) =~= src@.skip(i + 1));
                assert(!(rest.len() >= 3 && rest[0] == CMD_OPEN && rest[1] == CMD_DEC && rest[2]
                    == CMD_CLOSE)) by {
                    if rest.len() >= 3 {
                        assert(rest[1] == src@[i + 1] && rest[2] == src@[i + 2]);
                    }
                }
                assert(spec_preopt(rest) == seq![src@[i as int]] + spec_preopt(src@.skip(i + 1)));
                assert(pre + spec_preopt(rest) =~= out@ + spec_preopt(src@.skip(i + 1)));
            }
            i += 1;
        }
    }
    proof {
        assert(src@.skip(n as int) =~= Seq::<u8>::empty());
        assert(out@ + spec_preopt(src@.skip(n as int)) =~= out@);
    }
    out
}

/// Build the intermediate representation from (preoptimized) source bytes.
///
/// Runs of repeatable commands collapse to one operation carrying the run
/// length; brackets are matched at build time, so each `LoopOpen` and
/// `LoopClose` carries the index of its partner; every unrecognized byte
/// is ignored.  The result is exactly the scan described by
/// [`spec_parse`], it is well formed in the sense of [`wf`], and an error
/// is returned precisely when the brackets are unbalanced.
pub fn parse(src: &[u8]) -> (r: Result<Program, ParseError>)
    ensures
        r is Ok <==> balanced(src@),
        r matches Ok(p) ==> spec_parse(src@) == Ok::<Seq<Op>, ParseError>(p@) && wf(p@),
        r matches Err(e) ==> spec_parse(src@) == Err::<Seq<Op>, ParseError>(e),
        r == Err::<Program, ParseError>(ParseError::UnmatchedClose) <==> has_neg_prefix(src@),
        r == Err::<Program, ParseError>(ParseError::UnmatchedOpen) <==> (!has_neg_prefix(src@)
            && depth(src@) != 0),
{
    let ghost s = src@;
    let n = src.len();
    let mut ops: Vec<Op> = Vec::new();
    let mut stack: Vec<usize> = Vec::new();
    let mut i: usize = 0;
    while i < n
        invariant
            n == s.len(),
            s == src@,
            i <= n,
            parse_from(s, i as int, ParseState { ops: ops@, stack: stack@ }) == parse_from(
                s,
                0,
                parse_init(),
            ),
            forall|k: int|
                0 <= k < stack@.len() ==> #[trigger] stack@[k] < ops@.len() && is_open(
                    ops@[stack@[k] as int],
                ),
            forall|k1: int, k2: int|
                0 <= k1 < k2 < stack@.len() ==> stack@[k1] < stack@[k2],
            forall|j: int|
                0 <= j < ops@.len() && is_close(#[trigger] ops@[j]) ==> pair_at(
                    ops@,
                    ops@[j].operand as int,
                    j,
                ),
            forall|p: int|
                0 <= p < ops@.len() && is_open(#[trigger] ops@[p]) ==> in_stack(stack@, p)
                    || pair_at(ops@, p, ops@[p].operand as int),
            forall|k: int, j: int|
                0 <= k < stack@.len() && 0 <= j < ops@.len() && is_close(#[trigger] ops@[j])
                    ==> ops@[j].operand != #[trigger] stack@[k],
            forall|k: int, p: int, j: int|
                0 <= k < stack@.len() && #[trigger] pair_at(ops@, p, j) ==> !(p < #[trigger] stack@[k]
                    < j),
            non_crossing(ops@),
            stack@.len() == depth(s.take(i as int)),
            forall|m: int| 0 <= m <= i ==> depth(#[trigger] s.take(m)) >= 0,
            forall|p: int| 0 <= p < ops@.len() ==> (#[trigger] ops@[p]).operand <= i,
            ops@.len() <= i,
            (i > 0 && repeatable(s[i - 1])) ==> ops@.len() >= 1 && ops@.last().kind == kind_of(
                s[i - 1],
            ) && !is_open(ops@.last()) && !is_close(ops@.last()),
        decreases n - i,
    {
        let ghost st0 = ParseState { ops: ops@, stack: stack@ };
        let ghost i0 = i as int;
        let c = src[i];
        if is_repeatable(c) {
            if i > 0 && src[i - 1] == c {
                let last = ops.len() - 1;
                let prev_op = ops[last];
                ops[last] = Op { kind: byte_kind(c), operand: prev_op.operand + 1 };
            } else {
                ops.push(Op { kind: byte_kind(c), operand: 1 });
            }
            proof {
                lemma_depth_step(s, i0);
                assert(parse_from(s, i0, st0) == parse_from(
                    s,
                    i0 + 1,
                    ParseState { ops: ops@, stack: stack@ },
                ));
            }
        } else if c == CMD_OPEN {
            let open_at = ops.len();
            ops.push(Op { kind: OpKind::LoopOpen, operand: 0 });
            stack.push(open_at);
            proof {
                lemma_depth_step(s, i0);
                assert(parse_from(s, i0, st0) == parse_from(
                    s,
                    i0 + 1,
                    ParseState { ops: ops@, stack: stack@ },
                ));
                assert forall|k: int| 0 <= k < stack@.len() implies #[trigger] stack@[k]
                    < ops@.len() && is_open(ops@[stack@[k] as int]) by {
                    if k < stack@.len() - 1 {
                        assert(stack@[k] == st0.stack[k]);
                    }
                }
                assert forall|p: int|
                    0 <= p < ops@.len() && is_open(#[trigger] ops@[p]) implies in_stack(stack@, p)
                    || pair_at(ops@, p, ops@[p].operand as int) by {
                    if p == open_at {
                        assert(stack@[stack@.len() - 1] == p);
                    } else {
                        if in_stack(st0.stack, p) {
                            let k = choose|k: int|
                                0 <= k < st0.stack.len() && st0.stack[k] == p;
                            assert(stack@[k] == p);
                        } else {
                            assert(pair_at(st0.ops, p, st0.ops[p].operand as int));
                            assert(pair_at(ops@, p, ops@[p].operand as int));
                        }
                    }
                }
                assert forall|k: int, p: int, j: int|
                    0 <= k < stack@.len() && #[trigger] pair_at(ops@, p, j) implies !(p
                    < #[trigger] stack@[k] < j) by {
                    assert(pair_at(st0.ops, p, j));
                    if k < stack@.len() - 1 {
                        assert(stack@[k] == st0.stack[k]);
                    }
                }
                assert forall|i1: int, j1: int, i2: int, j2: int|
                    #[trigger] pair_at(ops@, i1, j1) && #[trigger] pair_at(ops@, i2, j2) && i1
                    < i2 implies (j1 < i2 || j2 < j1) by {
                    assert(pair_at(st0.ops, i1, j1) && pair_at(st0.ops, i2, j2));
                }
            }
        } else if c == CMD_CLOSE {
            match stack.pop() {
                None => {
                    proof {
                        lemma_depth_step(s, i0);
                        assert(parse_from(s, i0, st0) == Err::<ParseState, ParseError>(
                            ParseError::UnmatchedClose,
                        ));
                        assert(depth(s.take(i0 + 1)) < 0);
                        assert(has_neg_prefix(s));
                    }
                    return Err(ParseError::UnmatchedClose);
                },
                Some(open_at) => {
                    let close_at = ops.len();
                    ops.push(Op { kind: OpKind::LoopClose, operand: open_at });
                    ops[open_at] = Op { kind: OpKind::LoopOpen, operand: close_at };
                    proof {
                        lemma_depth_step(s, i0);
                        let stn = ParseState { ops: ops@, stack: stack@ };
                        assert(ops@ == st0.ops.push(
                            Op { kind: OpKind::LoopClose, operand: open_at },
                        ).update(open_at as int, Op { kind: OpKind::LoopOpen, operand: close_at }));
                        assert(parse_from(s, i0, st0) == parse_from(s, i0 + 1, stn));
                        // The popped open is on no earlier stack slot, so no close
                        // points at it and backpatching breaks no existing pair.
                        assert forall|k: int| 0 <= k < stack@.len() implies stack@[k] != open_at by {
                            assert(st0.stack[k] < st0.stack[st0.stack.len() - 1]);
                        }
                        assert(pair_at(ops@, open_at as int, close_at as int));
                        assert forall|p: int, j: int|
                            #[trigger] pair_at(st0.ops, p, j) implies pair_at(ops@, p, j) && !(p
                            < open_at < j) by {
                            assert(st0.ops[j].operand != st0.stack[st0.stack.len() - 1]);
                            assert(p != open_at);
                            assert(ops@[p] == st0.ops[p] && ops@[j] == st0.ops[j]);
                        }
                        assert forall|j: int|
                            0 <= j < ops@.len() && is_close(#[trigger] ops@[j]) implies pair_at(
                            ops@,
                            ops@[j].operand as int,
                            j,
                        ) by {
                            if j < close_at {
                                assert(ops@[j] == st0.ops[j]);
                                assert(pair_at(st0.ops, st0.ops[j].operand as int, j));
                            }
                        }
                        assert forall|p: int|
                            0 <= p < ops@.len() && is_open(#[trigger] ops@[p]) implies in_stack(
                            stack@,
                            p,
                        ) || pair_at(ops@, p, ops@[p].operand as int) by {
                            if p == open_at {
                            } else {
                                assert(ops@[p] == st0.ops[p]);
                                if in_stack(st0.stack, p) {
                                    let k = choose|k: int|
                                        0 <= k < st0.stack.len() && st0.stack[k] == p;
                                    if k < st0.stack.len() - 1 {
                                        assert(stack@[k] == p);
                                    } else {
                                        assert(p == open_at);
                                    }
                                } else {
                                    assert(pair_at(st0.ops, p, st0.ops[p].operand as int));
                                }
                            }
                        }
                        assert forall|k: int, p: int, j: int|
                            0 <= k < stack@.len() && #[trigger] pair_at(ops@, p, j) implies !(p
                            < #[trigger] stack@[k] < j) by {
                            assert(stack@[k] == st0.stack[k]);
                            if j == close_at {
                                assert(st0.stack[k] < st0.stack[st0.stack.len() - 1]);
                            } else {
                                assert(ops@[p] == st0.ops[p] || p == open_at);
                                if p != open_at && ops@[j] == st0.ops[j] {
                                    assert(pair_at(st0.ops, p, j));
                                } else {
                                    assert(j != close_at && is_close(ops@[j]));
                                    assert(ops@[j] == st0.ops[j]);
                                    assert(pair_at(st0.ops, p, j) || p == open_at);
                                    if p == open_at {
                                        assert(st0.ops[j].operand != open_at);
                                        assert(pair_at(ops@, ops@[j].operand as int, j));
                                        assert(false);
                                    }
                                }
                            }
                        }
                        assert forall|i1: int, j1: int, i2: int, j2: int|
                            #[trigger] pair_at(ops@, i1, j1) && #[trigger] pair_at(ops@, i2, j2)
                            && i1 < i2 implies (j1 < i2 || j2 < j1) by {
                            if j1 == close_at && j2 == close_at {
                                assert(ops@[j1].operand == i1 && ops@[j2].operand == i2);
                            } else if j1 == close_at {
                                assert(i1 == open_at);
                                assert(pair_at(st0.ops, i2, j2));
                                assert(j2 < close_at);
                            } else if j2 == close_at {
                                assert(i2 == open_at);
                                assert(pair_at(st0.ops, i1, j1));
                                assert(!(i1 < open_at < j1));
                                assert(i1 != open_at && j1 != open_at);
                            } else {
                                assert(pair_at(st0.ops, i1, j1) && pair_at(st0.ops, i2, j2));
                            }
                        }
                    }
                },
            }
        } else {
            proof {
                lemma_depth_step(s, i0);
                assert(parse_from(s, i0, st0) == parse_from(
                    s,
                    i0 + 1,
                    ParseState { ops: ops@, stack: stack@ },
                ));
            }
        }
        i += 1;
    }
    proof {
        assert(s.take(n as int) =~= s);
        assert(parse_from(s, n as int, ParseState { ops: ops@, stack: stack@ })
            == Ok::<ParseState, ParseError>(ParseState { ops: ops@, stack: stack@ }));
        assert(!has_neg_prefix(s));
    }
    if stack.len() > 0 {
        proof {
            assert(depth(s) == stack@.len());
        }
        Err(ParseError::UnmatchedOpen)
    } else {
        proof {
            assert forall|p: int|
                0 <= p < ops@.len() && is_open(#[trigger] ops@[p]) implies pair_at(
                ops@,
                p,
                ops@[p].operand as int,
            ) by {
                assert(!in_stack(stack@, p));
            }
        }
        Ok(Program { ops })
    }
}

/// A source consisting of the byte `c` alone, repeated `n` times.
pub open spec fn uniform(c: u8, n: nat) -> Seq<u8> {
    Seq::new(n, |k: int| c)
}

proof fn lemma_uniform_run_from(c: u8, n: nat, i: nat)
    requires
        repeatable(c),
        1 <= i <= n <= usize::MAX,
    ensures
        parse_from(
            uniform(c, n),
            i as int,
            ParseState { ops: seq![Op { kind: kind_of(c), operand: i as usize }], stack: Seq::empty() },
        ) == Ok::<ParseState, ParseError>(
            ParseState { ops: seq![Op { kind: kind_of(c), operand: n as usize }], stack: Seq::empty() },
        ),
    decreases n - i,
{
    let s = uniform(c, n);
    let st = ParseState {
        ops: seq![Op { kind: kind_of(c), operand: i as usize }],
        stack: Seq::empty(),
    };
    if i < n {
        let grown = Op { kind: kind_of(c), operand: (i + 1) as usize };
        assert(st.ops.update(0, grown) =~= seq![grown]);
        lemma_uniform_run_from(c, n, i + 1);
        assert(parse_from(s, i as int, st) == parse_from(
            s,
            i as int + 1,
            ParseState { ops: seq![grown], stack: Seq::empty() },
        ));
    }
}

/// Law: a source consisting of one repeatable command byte repeated
/// `n >= 1` times parses to exactly one operation, whose operand is the
/// run length `n`.
pub proof fn lemma_uniform_run_parses_to_one_op(c: u8, n: nat)
    requires
        repeatable(c),
        1 <= n <= usize::MAX,
    ensures
        spec_parse(uniform(c, n)) == Ok::<Seq<Op>, ParseError>(
            seq![Op { kind: kind_of(c), operand: n as usize }],
        ),
{
    let s = uniform(c, n);
    let fresh = Op { kind: kind_of(c), operand: 1 };
    assert(parse_init().ops.push(fresh) =~= seq![fresh]);
    assert(parse_from(s, 0, parse_init()) == parse_from(
        s,
        1,
        ParseState { ops: seq![fresh], stack: Seq::empty() },
    ));
    lemma_uniform_run_from(c, n, 1);
}

/// The preoptimizer leaves a source without any `[` unchanged, since every
/// occurrence of the rewritten idiom starts with one.
pub proof fn lemma_preopt_identity_without_open(s: Seq<u8>)
    requires
        forall|k: int| 0 <= k < s.len() ==> s[k] != CMD_OPEN,
    ensures
        spec_preopt(s) == s,
    decreases s.len(),
{
    if s.len() >= 1 {
        assert forall|k: int| 0 <= k < s.skip(1).len() implies s.skip(1)[k] != CMD_OPEN by {
            assert(s.skip(1)[k] == s[k + 1]);
        }
        lemma_preopt_identity_without_open(s.skip(1));
        assert(seq![s[0]] + s.skip(1) =~= s);
    }
}

/// Law: the full front end maps a source of one repeatable command byte,
/// repeated `n >= 1` times, to exactly one operation with operand `n`:
/// the preoptimizer leaves such a source unchanged and the IR builder
/// collapses the run.
pub proof fn lemma_uniform_source_single_op(c: u8, n: nat)
    requires
        repeatable(c),
        1 <= n <= usize::MAX,
    ensures
        spec_parse(spec_preopt(uniform(c, n))) == Ok::<Seq<Op>, ParseError>(
            seq![Op { kind: kind_of(c), operand: n as usize }],
        ),
{
    lemma_preopt_identity_without_open(uniform(c, n));
    lemma_uniform_run_parses_to_one_op(c, n);
}

} // verus!
