//! The intermediate representation: run-length-encoded operations with
//! compile-time-resolved loop brackets.

use vstd::prelude::*;

verus! {

/// The kind of one operation.  Repeated primitive commands are collapsed
/// into a single operation per maximal run.
#[derive(Clone, Copy, PartialEq, Eq, Structural, Debug)]
pub enum OpKind {
    /// Add to the cell at the data pointer.
    Increment,
    /// Subtract from the cell at the data pointer.
    Decrement,
    /// Move the data pointer towards higher indices.
    MoveForward,
    /// Move the data pointer towards lower indices.
    MoveBackward,
    /// Loop entry: skip past the matching close when the cell is zero.
    LoopOpen,
    /// Loop exit: jump back behind the matching open when the cell is nonzero.
    LoopClose,
    /// Emit the low 8 bits of the cell.
    Output,
    /// Read one byte into the cell.
    Input,
    /// Set the cell to zero directly.
    ClearCell,
}

/// One operation of the intermediate representation.
///
/// The meaning of `operand` depends on `kind`: the run length for
/// `Increment`, `Decrement`, `MoveForward`, `MoveBackward`, `Output`,
/// `Input` and `ClearCell`; the index of the matched partner for
/// `LoopOpen` and `LoopClose`.
#[derive(Clone, Copy, PartialEq, Eq, Structural, Debug)]
pub struct Op {
    pub kind: OpKind,
    pub operand: usize,
}

/// A complete program: an ordered sequence of operations, immutable once
/// built.
#[derive(Debug)]
pub struct Program {
    pub ops: Vec<Op>,
}

impl View for Program {
    type V = Seq<Op>;

    open spec fn view(&self) -> Seq<Op> {
        self.ops@
    }
}

pub open spec fn is_open(op: Op) -> bool {
    op.kind == OpKind::LoopOpen
}

pub open spec fn is_close(op: Op) -> bool {
    op.kind == OpKind::LoopClose
}

/// The operations at `i` and `j` form a matched bracket pair: the open at
/// `i` carries the index of the close at `j` and vice versa.
pub open spec fn pair_at(ops: Seq<Op>, i: int, j: int) -> bool {
    &&& 0 <= i < j < ops.len()
    &&& is_open(ops[i])
    &&& is_close(ops[j])
    &&& ops[i].operand == j
    &&& ops[j].operand == i
}

/// Every bracket operation carries the index of its matched partner, and
/// the partner points back.
pub open spec fn matched(ops: Seq<Op>) -> bool {
    forall|i: int|
        0 <= i < ops.len() ==> {
            &&& (is_open(#[trigger] ops[i]) ==> pair_at(ops, i, ops[i].operand as int))
            &&& (is_close(ops[i]) ==> pair_at(ops, ops[i].operand as int, i))
        }
}

/// No two matched pairs cross: two pairs are either disjoint or properly
/// nested.
pub open spec fn non_crossing(ops: Seq<Op>) -> bool {
    forall|i1: int, j1: int, i2: int, j2: int|
        #[trigger] pair_at(ops, i1, j1) && #[trigger] pair_at(ops, i2, j2) && i1 < i2 ==> (j1 < i2
            || j2 < j1)
}

/// A well-formed operation sequence: brackets are fully matched and the
/// matching is properly nested.
pub open spec fn wf(ops: Seq<Op>) -> bool {
    matched(ops) && non_crossing(ops)
}

/// Law: in a matched operation sequence the loop matching is a bijection.
/// Every `LoopOpen` is paired with exactly one `LoopClose` and vice versa:
/// each bracket has a partner, no close is the partner of two opens, and no
/// open is the partner of two closes.
pub proof fn lemma_loop_matching_bijective(ops: Seq<Op>)
    requires
        matched(ops),
    ensures
        forall|i: int|
            0 <= i < ops.len() && is_open(#[trigger] ops[i]) ==> pair_at(
                ops,
                i,
                ops[i].operand as int,
            ),
        forall|j: int|
            0 <= j < ops.len() && is_close(#[trigger] ops[j]) ==> pair_at(
                ops,
                ops[j].operand as int,
                j,
            ),
        forall|i1: int, i2: int, j: int|
            #[trigger] pair_at(ops, i1, j) && #[trigger] pair_at(ops, i2, j) ==> i1 == i2,
        forall|i: int, j1: int, j2: int|
            #[trigger] pair_at(ops, i, j1) && #[trigger] pair_at(ops, i, j2) ==> j1 == j2,
{
}

/// Check executably that every bracket operation carries the index of its
/// matched partner and the partner points back, i.e. that [`matched`]
/// holds.  Programs built by the IR builder always pass; the check lets an
/// unverified caller establish the same for a program from elsewhere.
pub fn check_matched(prog: &Program) -> (b: bool)
    ensures
        b == matched(prog@),
{
    let n = prog.ops.len();
    let mut i: usize = 0;
    while i < n
        invariant
            n == prog@.len(),
            i <= n,
            forall|p: int|
                0 <= p < i ==> {
                    &&& (is_open(#[trigger] prog@[p]) ==> pair_at(prog@, p, prog@[p].operand as int))
                    &&& (is_close(prog@[p]) ==> pair_at(prog@, prog@[p].operand as int, p))
                },
        decreases n - i,
    {
        let op = prog.ops[i];
        match op.kind {
            OpKind::LoopOpen => {
                let j = op.operand;
                if !(i < j && j < n) {
                    proof {
                        assert(!pair_at(prog@, i as int, j as int));
                    }
                    return false;
                }
                let partner = prog.ops[j];
                if !(partner.kind == OpKind::LoopClose && partner.operand == i) {
                    proof {
                        assert(!pair_at(prog@, i as int, j as int));
                    }
                    return false;
                }
            },
            OpKind::LoopClose => {
                let j = op.operand;
                if !(j < i) {
                    proof {
                        assert(!pair_at(prog@, j as int, i as int));
                    }
                    return false;
                }
                let partner = prog.ops[j];
                if !(partner.kind == OpKind::LoopOpen && partner.operand == i) {
                    proof {
                        assert(!pair_at(prog@, j as int, i as int));
                    }
                    return false;
                }
            },
            _ => {},
        }
        i += 1;
    }
    true
}

} // verus!
