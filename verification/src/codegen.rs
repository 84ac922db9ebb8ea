//! The back end: translation of a program into assembly text for a 64-bit
//! ARM target.
//!
//! The generated code keeps two values in registers across the whole
//! instruction stream: `x0` holds the data pointer and `x1` caches the
//! value of the current cell.  Before the pointer changes, the cached value
//! is stored back to the old cell; after it changes, the new cell is
//! reloaded.  Around each call into the external runtime the registers
//! still needed afterwards are saved on the stack and restored right after
//! the call, since the calling convention lets the callee clobber them.
//! The runtime supplies four symbols: a zero-initializing allocator, a
//! one-character output, a one-character input, and process exit.
//!
//! An immediate operand of `add` or `sub` encodes at most 12 bits, so a
//! run length beyond 4095 is split across several instructions.  The
//! splitting covers every representable operand, which leaves the back end
//! with no failure mode.

use crate::ir::{Op, OpKind, Program};
use vstd::prelude::*;
use vstd::string::StringExecFns;

verus! {

/// The largest immediate a single `add` or `sub` instruction encodes.
pub const IMM_MAX: usize = 4095;

/// The largest number of cells one pointer-move instruction covers: the
/// immediate is scaled by the cell width of eight bytes.
pub const MOVE_MAX_CELLS: usize = 511;

/// The decimal digit characters.
pub open spec fn digit(d: nat) -> char {
    if d == 0 {
        '0'
    } else if d == 1 {
        '1'
    } else if d == 2 {
        '2'
    } else if d == 3 {
        '3'
    } else if d == 4 {
        '4'
    } else if d == 5 {
        '5'
    } else if d == 6 {
        '6'
    } else if d == 7 {
        '7'
    } else if d == 8 {
        '8'
    } else {
        '9'
    }
}

/// The decimal rendering of `n`, most significant digit first.
pub open spec fn dec(n: nat) -> Seq<char>
    decreases n,
{
    if n < 10 {
        seq![digit(n)]
    } else {
        dec(n / 10) + seq![digit(n % 10)]
    }
}

/// One instruction line built from a mnemonic prefix and a decimal
/// immediate.
pub open spec fn imm_line(prefix: Seq<char>, v: nat) -> Seq<char> {
    prefix + dec(v) + "\n"@
}

/// The instruction lines that apply a total immediate of `total`, split
/// into chunks of at most `maxi` per instruction.
pub open spec fn imm_run(prefix: Seq<char>, total: nat, maxi: nat) -> Seq<char>
    decreases total,
{
    if maxi == 0 || total == 0 {
        Seq::empty()
    } else if total <= maxi {
        imm_line(prefix, total)
    } else {
        imm_line(prefix, maxi) + imm_run(prefix, (total - maxi) as nat, maxi)
    }
}

/// The instruction lines that move the pointer by `cells` cells of eight
/// bytes, split into chunks whose byte immediates stay encodable.
pub open spec fn move_run(prefix: Seq<char>, cells: nat) -> Seq<char>
    decreases cells,
{
    if cells == 0 {
        Seq::empty()
    } else if cells <= MOVE_MAX_CELLS {
        imm_line(prefix, cells * 8)
    } else {
        imm_line(prefix, (MOVE_MAX_CELLS * 8) as nat) + move_run(
            prefix,
            (cells - MOVE_MAX_CELLS) as nat,
        )
    }
}

/// `block` repeated `k` times.
pub open spec fn rep(block: Seq<char>, k: nat) -> Seq<char>
    decreases k,
{
    if k == 0 {
        Seq::empty()
    } else {
        block + rep(block, (k - 1) as nat)
    }
}

/// The call into the output primitive for one emitted character.  The
/// pointer and the cell cache are both live afterwards, so both are saved
/// around the call; the argument is the low byte of the cell.
pub open spec fn out_call() -> Seq<char> {
    "\tstp x0, x1, [sp, #-16]!\n\tand x0, x1, #0xff\n\tbl _putchar\n\tldp x0, x1, [sp], #16\n"@
}

/// The call into the input primitive for one read character.  Only the
/// pointer is still needed afterwards, so only it is saved; a read past
/// the end of the stream yields the sentinel cell value zero.
pub open spec fn in_call() -> Seq<char> {
    "\tstr x0, [sp, #-16]!\n\tbl _getchar\n\tcmn x0, #1\n\tcsel x1, xzr, x0, eq\n\tldr x0, [sp], #16\n"@
}

/// The prologue: allocate the zero-initialized tape of 1024 eight-byte
/// cells, seat its address in the pointer register and seed the cell
/// cache.
pub open spec fn prologue_text() -> Seq<char> {
    ".globl _main\n.align 4\n\n_main:\n\t// allocate the zero-initialized tape\n\tmov x0, #8192\n\tmov x1, #1\n\tbl _calloc\n\tldr x1, [x0]\n"@
}

/// The epilogue: exit with status zero.
pub open spec fn epilogue_text() -> Seq<char> {
    "\t// exit with status zero\n\tmov x0, #0\n\tbl _exit\n"@
}

/// The instruction template of one operation.  `idx` is the operation's
/// own index, from which a loop open derives its unique label pair; a loop
/// close derives the same pair from its matched operand.
pub open spec fn op_text(op: Op, idx: int) -> Seq<char> {
    match op.kind {
        OpKind::Increment => "\t// +\n"@ + imm_run(
            "\tadd x1, x1, #"@,
            op.operand as nat,
            IMM_MAX as nat,
        ),
        OpKind::Decrement => "\t// -\n"@ + imm_run(
            "\tsub x1, x1, #"@,
            op.operand as nat,
            IMM_MAX as nat,
        ),
        OpKind::MoveForward => "\t// >\n\tstr x1, [x0]\n"@ + move_run(
            "\tadd x0, x0, #"@,
            op.operand as nat,
        ) + "\tldr x1, [x0]\n"@,
        OpKind::MoveBackward => "\t// <\n\tstr x1, [x0]\n"@ + move_run(
            "\tsub x0, x0, #"@,
            op.operand as nat,
        ) + "\tldr x1, [x0]\n"@,
        OpKind::LoopOpen => "\t// [\n\tcmp x1, #0\n\tbeq end_"@ + dec(idx as nat) + "\nstart_"@
            + dec(idx as nat) + ":\n"@,
        OpKind::LoopClose => "\t// ]\n\tcmp x1, #0\n\tbne start_"@ + dec(op.operand as nat)
            + "\nend_"@ + dec(op.operand as nat) + ":\n"@,
        OpKind::Output => "\t// .\n"@ + rep(out_call(), op.operand as nat),
        OpKind::Input => "\t// ,\n"@ + rep(in_call(), op.operand as nat),
        OpKind::ClearCell => "\t// clear\n\tmov x1, #0\n"@,
    }
}

/// The concatenated templates of the operations from index `i` on.
pub open spec fn body_text(ops: Seq<Op>, i: int) -> Seq<char>
    decreases ops.len() - i,
{
    if i < 0 || i >= ops.len() {
        Seq::empty()
    } else {
        op_text(ops[i], i) + body_text(ops, i + 1)
    }
}

/// What [`compile`] returns: prologue, one template per operation in
/// order, epilogue.
pub open spec fn spec_compile(ops: Seq<Op>) -> Seq<char> {
    prologue_text() + body_text(ops, 0) + epilogue_text()
}

fn digit_str(d: usize) -> (r: &'static str)
    requires
        d < 10,
    ensures
        r@ == seq![digit(d as nat)],
{
    if d == 0 {
        proof {
            reveal_strlit("0");
            assert("0"@ =~= seq![digit(0)]);
        }
        "0"
    } else if d == 1 {
        proof {
            reveal_strlit("1");
            assert("1"@ =~= seq![digit(1)]);
        }
        "1"
    } else if d == 2 {
        proof {
            reveal_strlit("2");
            assert("2"@ =~= seq![digit(2)]);
        }
        "2"
    } else if d == 3 {
        proof {
            reveal_strlit("3");
            assert("3"@ =~= seq![digit(3)]);
        }
        "3"
    } else if d == 4 {
        proof {
            reveal_strlit("4");
            assert("4"@ =~= seq![digit(4)]);
        }
        "4"
    } else if d == 5 {
        proof {
            reveal_strlit("5");
            assert("5"@ =~= seq![digit(5)]);
        }
        "5"
    } else if d == 6 {
        proof {
            reveal_strlit("6");
            assert("6"@ =~= seq![digit(6)]);
        }
        "6"
    } else if d == 7 {
        proof {
            reveal_strlit("7");
            assert("7"@ =~= seq![digit(7)]);
        }
        "7"
    } else if d == 8 {
        proof {
            reveal_strlit("8");
            assert("8"@ =~= seq![digit(8)]);
        }
        "8"
    } else {
        proof {
            reveal_strlit("9");
            assert("9"@ =~= seq![digit(9)]);
        }
        "9"
    }
}

fn dec_string(n: usize) -> (r: String)
    ensures
        r@ == dec(n as nat),
    decreases n,
{
    if n < 10 {
        let mut s = String::new();
        s.append(digit_str(n));
        proof {
            assert(Seq::<char>::empty() + seq![digit(n as nat)] =~= seq![digit(n as nat)]);
        }
        s
    } else {
        let mut s = dec_string(n / 10);
        s.append(digit_str(n % 10));
        s
    }
}

fn emit_imm_run(code: &mut String, prefix: &str, total: usize, maxi: usize)
    requires
        1 <= maxi,
    ensures
        final(code)@ == old(code)@ + imm_run(prefix@, total as nat, maxi as nat),
{
    let mut rem = total;
    while rem > 0
        invariant
            1 <= maxi,
            code@ + imm_run(prefix@, rem as nat, maxi as nat) == old(code)@ + imm_run(
                prefix@,
                total as nat,
                maxi as nat,
            ),
        decreases rem,
    {
        let ghost pre = code@;
        let d = if rem <= maxi {
            rem
        } else {
            maxi
        };
        code.append(prefix);
        let ds = dec_string(d);
        code.append(ds.as_str());
        code.append("\n");
        proof {
            assert(code@ =~= pre + imm_line(prefix@, d as nat));
            assert(imm_run(prefix@, rem as nat, maxi as nat) == imm_line(prefix@, d as nat)
                + imm_run(prefix@, (rem - d) as nat, maxi as nat)) by {
                if rem <= maxi {
                    assert(imm_run(prefix@, (rem - d) as nat, maxi as nat)
                        == Seq::<char>::empty());
                    assert(imm_line(prefix@, d as nat) + Seq::<char>::empty() =~= imm_line(
                        prefix@,
                        d as nat,
                    ));
                }
            };
            assert(code@ + imm_run(prefix@, (rem - d) as nat, maxi as nat) =~= pre + imm_run(
                prefix@,
                rem as nat,
                maxi as nat,
            ));
        }
        rem -= d;
    }
    proof {
        assert(code@ + imm_run(prefix@, 0, maxi as nat) =~= code@);
    }
}

fn emit_move_run(code: &mut String, prefix: &str, cells: usize)
    ensures
        final(code)@ == old(code)@ + move_run(prefix@, cells as nat),
{
    let mut rem = cells;
    while rem > 0
        invariant
            code@ + move_run(prefix@, rem as nat) == old(code)@ + move_run(prefix@, cells as nat),
        decreases rem,
    {
        let ghost pre = code@;
        let d = if rem <= MOVE_MAX_CELLS {
            rem
        } else {
            MOVE_MAX_CELLS
        };
        code.append(prefix);
        let ds = dec_string(d * 8);
        code.append(ds.as_str());
        code.append("\n");
        proof {
            assert(code@ =~= pre + imm_line(prefix@, (d * 8) as nat));
            assert(move_run(prefix@, rem as nat) == imm_line(prefix@, (d * 8) as nat) + move_run(
                prefix@,
                (rem - d) as nat,
            )) by {
                if rem <= MOVE_MAX_CELLS {
                    assert(move_run(prefix@, (rem - d) as nat) == Seq::<char>::empty());
                    assert(imm_line(prefix@, (d * 8) as nat) + Seq::<char>::empty() =~= imm_line(
                        prefix@,
                        (d * 8) as nat,
                    ));
                }
            };
            assert(code@ + move_run(prefix@, (rem - d) as nat) =~= pre + move_run(
                prefix@,
                rem as nat,
            ));
        }
        rem -= d;
    }
    proof {
        assert(code@ + move_run(prefix@, 0) =~= code@);
    }
}

fn emit_rep(code: &mut String, block: &str, k: usize)
    ensures
        final(code)@ == old(code)@ + rep(block@, k as nat),
{
    let mut t: usize = 0;
    while t < k
        invariant
            t <= k,
            code@ + rep(block@, (k - t) as nat) == old(code)@ + rep(block@, k as nat),
        decreases k - t,
    {
        let ghost pre = code@;
        code.append(block);
        proof {
            assert(rep(block@, (k - t) as nat) == block@ + rep(block@, (k - t - 1) as nat));
            assert(code@ + rep(block@, (k - t - 1) as nat) =~= pre + rep(block@, (k - t) as nat));
        }
        t += 1;
    }
    proof {
        assert(code@ + rep(block@, 0) =~= code@);
    }
}

fn emit_op(code: &mut String, op: Op, idx: usize)
    ensures
        final(code)@ == old(code)@ + op_text(op, idx as int),
{
    let ghost pre = code@;
    match op.kind {
        OpKind::Increment => {
            code.append("\t// +\n");
            emit_imm_run(code, "\tadd x1, x1, #", op.operand, IMM_MAX);
            proof {
                assert(code@ =~= pre + op_text(op, idx as int));
            }
        },
        OpKind::Decrement => {
            code.append("\t// -\n");
            emit_imm_run(code, "\tsub x1, x1, #", op.operand, IMM_MAX);
            proof {
                assert(code@ =~= pre + op_text(op, idx as int));
            }
        },
        OpKind::MoveForward => {
            code.append("\t// >\n\tstr x1, [x0]\n");
            emit_move_run(code, "\tadd x0, x0, #", op.operand);
            code.append("\tldr x1, [x0]\n");
            proof {
                assert(code@ =~= pre + op_text(op, idx as int));
            }
        },
        OpKind::MoveBackward => {
            code.append("\t// <\n\tstr x1, [x0]\n");
            emit_move_run(code, "\tsub x0, x0, #", op.operand);
            code.append("\tldr x1, [x0]\n");
            proof {
                assert(code@ =~= pre + op_text(op, idx as int));
            }
        },
        OpKind::LoopOpen => {
            let ds = dec_string(idx);
            code.append("\t// [\n\tcmp x1, #0\n\tbeq end_");
            code.append(ds.as_str());
            code.append("\nstart_");
            code.append(ds.as_str());
            code.append(":\n");
            proof {
                assert(code@ =~= pre + op_text(op, idx as int));
            }
        },
        OpKind::LoopClose => {
            let ds = dec_string(op.operand);
            code.append("\t// ]\n\tcmp x1, #0\n\tbne start_");
            code.append(ds.as_str());
            code.append("\nend_");
            code.append(ds.as_str());
            code.append(":\n");
            proof {
                assert(code@ =~= pre + op_text(op, idx as int));
            }
        },
        OpKind::Output => {
            code.append("\t// .\n");
            emit_rep(
                code,
                "\tstp x0, x1, [sp, #-16]!\n\tand x0, x1, #0xff\n\tbl _putchar\n\tldp x0, x1, [sp], #16\n",
                op.operand,
            );
            proof {
                assert(code@ =~= pre + op_text(op, idx as int));
            }
        },
        OpKind::Input => {
            code.append("\t// ,\n");
            emit_rep(
                code,
                "\tstr x0, [sp, #-16]!\n\tbl _getchar\n\tcmn x0, #1\n\tcsel x1, xzr, x0, eq\n\tldr x0, [sp], #16\n",
                op.operand,
            );
            proof {
                assert(code@ =~= pre + op_text(op, idx as int));
            }
        },
        OpKind::ClearCell => {
            code.append("\t// clear\n\tmov x1, #0\n");
            proof {
                assert(code@ =~= pre + op_text(op, idx as int));
            }
        },
    }
}

/// Translate the program into assembly text for the 64-bit ARM target: the
/// allocating prologue, then one fixed instruction template per operation
/// in program order, then the exiting epilogue, exactly as stated by
/// [`spec_compile`].  Splitting over-wide immediates covers every operand,
/// so translation cannot fail.
pub fn compile(prog: &Program) -> (r: String)
    ensures
        r@ == spec_compile(prog@),
{
    let mut code = String::new();
    code.append(
        ".globl _main\n.align 4\n\n_main:\n\t// allocate the zero-initialized tape\n\tmov x0, #8192\n\tmov x1, #1\n\tbl _calloc\n\tldr x1, [x0]\n",
    );
    proof {
        assert(code@ =~= prologue_text());
    }
    let n = prog.ops.len();
    let mut i: usize = 0;
    while i < n
        invariant
            n == prog@.len(),
            code@ + body_text(prog@, i as int) == prologue_text() + body_text(prog@, 0),
        decreases n - i,
    {
        let ghost pre = code@;
        let op = prog.ops[i];
        emit_op(&mut code, op, i);
        proof {
            assert(body_text(prog@, i as int) == op_text(prog@[i as int], i as int) + body_text(
                prog@,
                i + 1,
            ));
            assert(code@ + body_text(prog@, i + 1) =~= pre + body_text(prog@, i as int));
        }
        i += 1;
    }
    proof {
        assert(body_text(prog@, n as int) == Seq::<char>::empty());
        assert(code@ + Seq::<char>::empty() =~= code@);
    }
    code.append("\t// exit with status zero\n\tmov x0, #0\n\tbl _exit\n");
    proof {
        assert(code@ =~= spec_compile(prog@));
    }
    code
}

} // verus!
