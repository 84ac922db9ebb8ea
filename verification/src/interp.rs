//! The reference interpreter: a tree-walking executor over a program with a
//! fixed-length, bounds-checked tape of 64-bit wrapping cells.
//!
//! The cell contract is fixed as follows: a cell holds 64 bits, matching
//! the eight-byte cells of the generated code, and `Increment` and
//! `Decrement` wrap around.  `Output` emits the low 8 bits of the cell.
//! `Input` reads one byte, zero-extended, per unit of the operand; reading
//! past the end of the input stream fills the cell with the sentinel value
//! zero, so a program that loops on the read value halts when the stream is
//! exhausted.

use crate::ir::{matched, pair_at, Op, OpKind, Program};
use vstd::prelude::*;

verus! {

/// The number of cells on the tape.
pub const TAPE_LEN: usize = 1024;

/// A fatal failure of the interpreter.
#[derive(Clone, Copy, PartialEq, Eq, Structural, Debug)]
pub enum InterpError {
    /// The data pointer would leave the tape.
    TapeBounds,
    /// The run did not halt within the given number of steps.
    StepLimit,
}

/// The full execution state: the tape, the data pointer, the instruction
/// index, the input bytes not yet read, and the output bytes emitted so
/// far.
pub ghost struct MState {
    pub tape: Seq<u64>,
    pub ptr: int,
    pub pc: int,
    pub input: Seq<u8>,
    pub output: Seq<u8>,
}

/// The state an execution starts from: a zero-initialized tape, the
/// pointer and instruction index at zero, the whole input pending and no
/// output.
pub open spec fn init_state(input: Seq<u8>) -> MState {
    MState {
        tape: Seq::new(TAPE_LEN as nat, |k: int| 0u64),
        ptr: 0,
        pc: 0,
        input,
        output: Seq::empty(),
    }
}

/// Addition on 64-bit cells with wraparound.
pub open spec fn wrap_add(a: u64, b: u64) -> u64 {
    if a + b <= u64::MAX {
        (a + b) as u64
    } else {
        (a + b - 0x1_0000_0000_0000_0000) as u64
    }
}

/// Subtraction on 64-bit cells with wraparound.
pub open spec fn wrap_sub(a: u64, b: u64) -> u64 {
    if a - b >= 0 {
        (a - b) as u64
    } else {
        (a - b + 0x1_0000_0000_0000_0000) as u64
    }
}

/// The low 8 bits of a cell, as emitted by `Output`.
pub open spec fn low_byte(v: u64) -> u8 {
    (v % 256) as u8
}

/// The cell value and remaining input after `k` reads in a row: each read
/// takes the next input byte, zero-extended, or the sentinel zero once the
/// input is exhausted; the last read wins.
pub open spec fn read_k(cell: u64, input: Seq<u8>, k: nat) -> (u64, Seq<u8>)
    decreases k,
{
    if k == 0 {
        (cell, input)
    } else if input.len() == 0 {
        read_k(0u64, input, (k - 1) as nat)
    } else {
        read_k(input[0] as u64, input.skip(1), (k - 1) as nat)
    }
}

/// One operation of the small-step semantics, applied to the operation at
/// the instruction index.  `None` means the data pointer would leave the
/// tape.
///
/// Both loop jumps land just past the matched partner.  For `LoopOpen`
/// that skips the body and the close; for `LoopClose` it re-enters the
/// body directly, which is equivalent to re-testing at the open because
/// the jump is only taken when the cell is nonzero.  The generated code
/// places its labels the same way.
pub open spec fn step(ops: Seq<Op>, st: MState) -> Option<MState>
    recommends
        0 <= st.pc < ops.len(),
        0 <= st.ptr < st.tape.len(),
{
    let op = ops[st.pc];
    let cell = st.tape[st.ptr];
    match op.kind {
        OpKind::Increment => Some(
            MState {
                tape: st.tape.update(st.ptr, wrap_add(cell, op.operand as u64)),
                pc: st.pc + 1,
                ..st
            },
        ),
        OpKind::Decrement => Some(
            MState {
                tape: st.tape.update(st.ptr, wrap_sub(cell, op.operand as u64)),
                pc: st.pc + 1,
                ..st
            },
        ),
        OpKind::MoveForward => if st.ptr + op.operand < st.tape.len() {
            Some(MState { ptr: st.ptr + op.operand, pc: st.pc + 1, ..st })
        } else {
            None
        },
        OpKind::MoveBackward => if st.ptr - op.operand >= 0 {
            Some(MState { ptr: st.ptr - op.operand, pc: st.pc + 1, ..st })
        } else {
            None
        },
        OpKind::LoopOpen => Some(
            MState {
                pc: if cell == 0 {
                    op.operand + 1
                } else {
                    st.pc + 1
                },
                ..st
            },
        ),
        OpKind::LoopClose => Some(
            MState {
                pc: if cell != 0 {
                    op.operand + 1
                } else {
                    st.pc + 1
                },
                ..st
            },
        ),
        OpKind::Output => Some(
            MState {
                output: st.output + Seq::new(op.operand as nat, |k: int| low_byte(cell)),
                pc: st.pc + 1,
                ..st
            },
        ),
        OpKind::Input => {
            let (cell2, input2) = read_k(cell, st.input, op.operand as nat);
            Some(
                MState { tape: st.tape.update(st.ptr, cell2), input: input2, pc: st.pc + 1, ..st },
            )
        },
        OpKind::ClearCell => Some(
            MState { tape: st.tape.update(st.ptr, 0u64), pc: st.pc + 1, ..st },
        ),
    }
}

/// How a run can end.
pub ghost enum RunOutcome {
    /// The instruction index reached the end of the program.
    Halted(MState),
    /// The data pointer would have left the tape, at the given state.
    OutOfBounds(MState),
    /// The step budget ran out, at the given state.
    OutOfSteps(MState),
}

/// Run the small-step semantics for at most `fuel` steps.
pub open spec fn run(ops: Seq<Op>, st: MState, fuel: nat) -> RunOutcome
    decreases fuel,
{
    if !(0 <= st.pc < ops.len()) {
        RunOutcome::Halted(st)
    } else if fuel == 0 {
        RunOutcome::OutOfSteps(st)
    } else {
        match step(ops, st) {
            Some(st2) => run(ops, st2, (fuel - 1) as nat),
            None => RunOutcome::OutOfBounds(st),
        }
    }
}

/// Law: a `ClearCell` operation sets the current cell to exactly zero,
/// whatever value the cell held before.
pub proof fn lemma_clear_cell_zeroes(ops: Seq<Op>, st: MState)
    requires
        0 <= st.pc < ops.len(),
        0 <= st.ptr < st.tape.len(),
        ops[st.pc].kind == OpKind::ClearCell,
    ensures
        step(ops, st) matches Some(st2) && st2.tape[st.ptr] == 0u64,
{
}

fn wadd(a: u64, b: u64) -> (r: u64)
    ensures
        r == wrap_add(a, b),
{
    if b <= u64::MAX - a {
        a + b
    } else {
        b - (u64::MAX - a) - 1
    }
}

fn wsub(a: u64, b: u64) -> (r: u64)
    ensures
        r == wrap_sub(a, b),
{
    if b <= a {
        a - b
    } else {
        a + (u64::MAX - b) + 1
    }
}

fn zero_tape() -> (t: Vec<u64>)
    ensures
        t@ == Seq::new(TAPE_LEN as nat, |k: int| 0u64),
{
    let mut t: Vec<u64> = Vec::new();
    let mut k: usize = 0;
    while k < TAPE_LEN
        invariant
            k <= TAPE_LEN,
            t@.len() == k,
            forall|j: int| 0 <= j < k ==> t@[j] == 0u64,
        decreases TAPE_LEN - k,
    {
        t.push(0u64);
        k += 1;
    }
    proof {
        assert(t@ =~= Seq::new(TAPE_LEN as nat, |j: int| 0u64));
    }
    t
}

/// Execute the program against a fresh zero-initialized tape, reading from
/// `input` and collecting the emitted bytes, for at most `max_steps`
/// operations.  The result is exactly what the small-step semantics
/// [`run`] yields from the initial state: the collected output on a normal
/// halt, and otherwise which of the two fatal conditions ended the run.
pub fn interpret(prog: &Program, input: &[u8], max_steps: usize) -> (r: Result<
    Vec<u8>,
    InterpError,
>)
    requires
        matched(prog@),
    ensures
        (match r {
            Ok(out) => run(prog@, init_state(input@), max_steps as nat) matches RunOutcome::Halted(
                st,
            ) && st.output == out@,
            Err(InterpError::TapeBounds) => run(prog@, init_state(input@), max_steps as nat)
                is OutOfBounds,
            Err(InterpError::StepLimit) => run(prog@, init_state(input@), max_steps as nat)
                is OutOfSteps,
        }),
{
    let ghost all = prog@;
    let n = prog.ops.len();
    let mut tape: Vec<u64> = zero_tape();
    let mut ptr: usize = 0;
    let mut pc: usize = 0;
    let mut in_pos: usize = 0;
    let mut out: Vec<u8> = Vec::new();
    let mut steps: usize = 0;
    proof {
        assert(input@.skip(0) =~= input@);
        assert(MState {
            tape: tape@,
            ptr: ptr as int,
            pc: pc as int,
            input: input@.skip(in_pos as int),
            output: out@,
        } == init_state(input@));
    }
    while pc < n
        invariant
            matched(all),
            all == prog@,
            n == all.len(),
            tape@.len() == TAPE_LEN,
            ptr < TAPE_LEN,
            pc <= n,
            in_pos <= input@.len(),
            steps <= max_steps,
            run(all, init_state(input@), max_steps as nat) == run(
                all,
                MState {
                    tape: tape@,
                    ptr: ptr as int,
                    pc: pc as int,
                    input: input@.skip(in_pos as int),
                    output: out@,
                },
                (max_steps - steps) as nat,
            ),
        decreases max_steps - steps,
    {
        let ghost cur = MState {
            tape: tape@,
            ptr: ptr as int,
            pc: pc as int,
            input: input@.skip(in_pos as int),
            output: out@,
        };
        if steps == max_steps {
            return Err(InterpError::StepLimit);
        }
        steps += 1;
        let op = prog.ops[pc];
        let cell = tape[ptr];
        match op.kind {
            OpKind::Increment => {
                tape[ptr] = wadd(cell, op.operand as u64);
                pc += 1;
            },
            OpKind::Decrement => {
                tape[ptr] = wsub(cell, op.operand as u64);
                pc += 1;
            },
            OpKind::MoveForward => {
                if op.operand < TAPE_LEN - ptr {
                    ptr += op.operand;
                    pc += 1;
                } else {
                    return Err(InterpError::TapeBounds);
                }
            },
            OpKind::MoveBackward => {
                if op.operand <= ptr {
                    ptr -= op.operand;
                    pc += 1;
                } else {
                    return Err(InterpError::TapeBounds);
                }
            },
            OpKind::LoopOpen => {
                proof {
                    assert(pair_at(all, pc as int, all[pc as int].operand as int));
                }
                if cell == 0 {
                    pc = op.operand + 1;
                } else {
                    pc += 1;
                }
            },
            OpKind::LoopClose => {
                proof {
                    assert(pair_at(all, all[pc as int].operand as int, pc as int));
                }
                if cell != 0 {
                    pc = op.operand + 1;
                } else {
                    pc += 1;
                }
            },
            OpKind::Output => {
                let b = (cell % 256) as u8;
                let mut t: usize = 0;
                while t < op.operand
                    invariant
                        t <= op.operand,
                        b == low_byte(cell),
                        out@ == cur.output + Seq::new(t as nat, |k: int| low_byte(cell)),
                    decreases op.operand - t,
                {
                    out.push(b);
                    proof {
                        assert(cur.output + Seq::new((t + 1) as nat, |k: int| low_byte(cell)) =~= (
                        cur.output + Seq::new(t as nat, |k: int| low_byte(cell))).push(
                            low_byte(cell),
                        ));
                    }
                    t += 1;
                }
                pc += 1;
            },
            OpKind::Input => {
                let mut t: usize = 0;
                let mut cell2: u64 = cell;
                while t < op.operand
                    invariant
                        t <= op.operand,
                        in_pos <= input@.len(),
                        read_k(cell, cur.input, op.operand as nat) == read_k(
                            cell2,
                            input@.skip(in_pos as int),
                            (op.operand - t) as nat,
                        ),
                    decreases op.operand - t,
                {
                    if in_pos < input.len() {
                        cell2 = input[in_pos] as u64;
                        proof {
                            let rest = input@.skip(in_pos as int);
                            assert(rest.len() > 0 && rest[0] == input@[in_pos as int]);
                            assert(rest.skip(1) =~= input@.skip(in_pos + 1));
                        }
                        in_pos += 1;
                    } else {
                        cell2 = 0;
                        proof {
                            assert(input@.skip(in_pos as int).len() == 0);
                        }
                    }
                    t += 1;
                }
                tape[ptr] = cell2;
                pc += 1;
            },
            OpKind::ClearCell => {
                tape[ptr] = 0;
                pc += 1;
            },
        }
        proof {
            let nxt = MState {
                tape: tape@,
                ptr: ptr as int,
                pc: pc as int,
                input: input@.skip(in_pos as int),
                output: out@,
            };
            assert(step(all, cur) == Some(nxt));
        }
    }
    Ok(out)
}

/// The three operations the preoptimizer's idiom `[-]` builds when it is
/// left unrewritten: loop while nonzero, decrementing by one.
pub open spec fn clearing_loop() -> Seq<Op> {
    seq![
        Op { kind: OpKind::LoopOpen, operand: 2 },
        Op { kind: OpKind::Decrement, operand: 1 },
        Op { kind: OpKind::LoopClose, operand: 0 },
    ]
}

proof fn lemma_clearing_loop_body(st: MState, fuel: nat)
    requires
        st.pc == 1,
        0 <= st.ptr < st.tape.len(),
        st.tape[st.ptr] != 0,
        fuel >= 2 * st.tape[st.ptr],
    ensures
        run(clearing_loop(), st, fuel) == RunOutcome::Halted(
            MState { tape: st.tape.update(st.ptr, 0u64), pc: 3, ..st },
        ),
    decreases st.tape[st.ptr],
{
    let ops = clearing_loop();
    let v = st.tape[st.ptr];
    assert(ops.len() == 3);
    assert(wrap_sub(v, 1u64) == v - 1);
    let st1 = MState { tape: st.tape.update(st.ptr, wrap_sub(v, 1u64)), pc: 2, ..st };
    assert(step(ops, st) == Some(st1));
    assert(run(ops, st, fuel) == run(ops, st1, (fuel - 1) as nat));
    if v == 1 {
        let st2 = MState { pc: 3, ..st1 };
        assert(step(ops, st1) == Some(st2));
        assert(run(ops, st1, (fuel - 1) as nat) == run(ops, st2, (fuel - 2) as nat));
        assert(run(ops, st2, (fuel - 2) as nat) == RunOutcome::Halted(st2));
        assert(st1.tape =~= st.tape.update(st.ptr, 0u64));
    } else {
        let st2 = MState { pc: 1, ..st1 };
        assert(step(ops, st1) == Some(st2));
        assert(run(ops, st1, (fuel - 1) as nat) == run(ops, st2, (fuel - 2) as nat));
        lemma_clearing_loop_body(st2, (fuel - 2) as nat);
        assert(st2.tape.update(st.ptr, 0u64) =~= st.tape.update(st.ptr, 0u64));
    }
}

/// Law: run on its own, the decrement-until-zero loop halts with the
/// current cell at exactly zero, from any starting cell value, given a
/// step budget of one entry test plus two steps per decrement.  This is
/// the fact that makes the preoptimizer's rewrite of `[-]` to a single
/// `ClearCell` sound.
pub proof fn lemma_clearing_loop_zeroes(st: MState, fuel: nat)
    requires
        st.pc == 0,
        0 <= st.ptr < st.tape.len(),
        fuel >= 1 + 2 * st.tape[st.ptr],
    ensures
        run(clearing_loop(), st, fuel) == RunOutcome::Halted(
            MState { tape: st.tape.update(st.ptr, 0u64), pc: 3, ..st },
        ),
{
    let ops = clearing_loop();
    let v = st.tape[st.ptr];
    assert(ops.len() == 3);
    if v == 0 {
        let st1 = MState { pc: 3, ..st };
        assert(step(ops, st) == Some(st1));
        assert(run(ops, st, fuel) == run(ops, st1, (fuel - 1) as nat));
        assert(run(ops, st1, (fuel - 1) as nat) == RunOutcome::Halted(st1));
        assert(st1.tape =~= st.tape.update(st.ptr, 0u64));
        assert(st1 == MState { tape: st.tape.update(st.ptr, 0u64), pc: 3, ..st });
    } else {
        let st1 = MState { pc: 1, ..st };
        assert(step(ops, st) == Some(st1));
        assert(run(ops, st, fuel) == run(ops, st1, (fuel - 1) as nat));
        lemma_clearing_loop_body(st1, (fuel - 1) as nat);
    }
}

} // verus!
