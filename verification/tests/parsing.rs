use tapec::ir::{check_matched, Op, OpKind, Program};
use tapec::parse::{parse, preoptimize, ParseError, CLEAR_MARK};

fn ops_of(src: &[u8]) -> Vec<Op> {
    parse(src).expect("source should parse").ops
}

#[test]
fn empty_source_parses_to_empty_program() {
    assert_eq!(ops_of(b""), vec![]);
}

#[test]
fn run_collapses_to_one_operation() {
    assert_eq!(ops_of(b"++++++"), vec![Op { kind: OpKind::Increment, operand: 6 }]);
}

#[test]
fn runs_of_each_repeatable_command() {
    assert_eq!(ops_of(b"+++"), vec![Op { kind: OpKind::Increment, operand: 3 }]);
    assert_eq!(ops_of(b"---"), vec![Op { kind: OpKind::Decrement, operand: 3 }]);
    assert_eq!(ops_of(b">>>"), vec![Op { kind: OpKind::MoveForward, operand: 3 }]);
    assert_eq!(ops_of(b"<<<"), vec![Op { kind: OpKind::MoveBackward, operand: 3 }]);
    assert_eq!(ops_of(b"..."), vec![Op { kind: OpKind::Output, operand: 3 }]);
    assert_eq!(ops_of(b",,,"), vec![Op { kind: OpKind::Input, operand: 3 }]);
    assert_eq!(
        ops_of(&[CLEAR_MARK, CLEAR_MARK, CLEAR_MARK]),
        vec![Op { kind: OpKind::ClearCell, operand: 3 }]
    );
}

#[test]
fn ignored_byte_breaks_a_run() {
    assert_eq!(
        ops_of(b"++ ++"),
        vec![
            Op { kind: OpKind::Increment, operand: 2 },
            Op { kind: OpKind::Increment, operand: 2 },
        ]
    );
}

#[test]
fn unrecognized_bytes_are_ignored() {
    assert_eq!(ops_of(b"abc+xyz"), vec![Op { kind: OpKind::Increment, operand: 1 }]);
    assert_eq!(ops_of(b"hello world"), vec![]);
}

#[test]
fn nested_brackets_are_backpatched() {
    assert_eq!(
        ops_of(b"[[]]"),
        vec![
            Op { kind: OpKind::LoopOpen, operand: 3 },
            Op { kind: OpKind::LoopOpen, operand: 2 },
            Op { kind: OpKind::LoopClose, operand: 1 },
            Op { kind: OpKind::LoopClose, operand: 0 },
        ]
    );
}

#[test]
fn sequential_brackets_are_backpatched() {
    assert_eq!(
        ops_of(b"[][]"),
        vec![
            Op { kind: OpKind::LoopOpen, operand: 1 },
            Op { kind: OpKind::LoopClose, operand: 0 },
            Op { kind: OpKind::LoopOpen, operand: 3 },
            Op { kind: OpKind::LoopClose, operand: 2 },
        ]
    );
}

#[test]
fn loop_matching_is_a_bijection_on_a_mixed_program() {
    // Pairs: (1,2), (3,4), (0,5) -- each open names its close and back.
    let ops = ops_of(b"[[][]]");
    let operands: Vec<usize> = ops.iter().map(|op| op.operand).collect();
    assert_eq!(operands, vec![5, 2, 1, 4, 3, 0]);
    for (i, op) in ops.iter().enumerate() {
        match op.kind {
            OpKind::LoopOpen => {
                assert_eq!(ops[op.operand].kind, OpKind::LoopClose);
                assert_eq!(ops[op.operand].operand, i);
            }
            OpKind::LoopClose => {
                assert_eq!(ops[op.operand].kind, OpKind::LoopOpen);
                assert_eq!(ops[op.operand].operand, i);
            }
            _ => unreachable!(),
        }
    }
}

#[test]
fn stray_close_is_a_parse_error() {
    assert_eq!(parse(b"]").unwrap_err(), ParseError::UnmatchedClose);
    assert_eq!(parse(b"[]]").unwrap_err(), ParseError::UnmatchedClose);
    assert_eq!(parse(b"][").unwrap_err(), ParseError::UnmatchedClose);
}

#[test]
fn unmatched_open_is_a_parse_error() {
    assert_eq!(parse(b"[").unwrap_err(), ParseError::UnmatchedOpen);
    assert_eq!(parse(b"[[]").unwrap_err(), ParseError::UnmatchedOpen);
    assert_eq!(parse(b"+[->").unwrap_err(), ParseError::UnmatchedOpen);
}

#[test]
fn preoptimizer_rewrites_the_clear_idiom() {
    assert_eq!(preoptimize(b"[-]"), vec![CLEAR_MARK]);
    assert_eq!(preoptimize(b"+[-]+"), vec![b'+', CLEAR_MARK, b'+']);
    assert_eq!(preoptimize(b"[-][-]"), vec![CLEAR_MARK, CLEAR_MARK]);
}

#[test]
fn preoptimizer_leaves_other_text_alone() {
    assert_eq!(preoptimize(b"[--]"), b"[--]".to_vec());
    assert_eq!(preoptimize(b"[+]"), b"[+]".to_vec());
    assert_eq!(preoptimize(b""), vec![]);
    assert_eq!(preoptimize(b"+->.<,"), b"+->.<,".to_vec());
}

#[test]
fn preoptimizer_rewrites_inside_an_outer_loop() {
    assert_eq!(preoptimize(b"[[-]]"), vec![b'[', CLEAR_MARK, b']']);
}

#[test]
fn clear_idiom_collapses_to_one_clear_cell() {
    let pre = preoptimize(b"[-]");
    assert_eq!(ops_of(&pre), vec![Op { kind: OpKind::ClearCell, operand: 1 }]);
}

#[test]
fn adjacent_clear_idioms_collapse_to_one_operation() {
    let pre = preoptimize(b"[-][-]");
    assert_eq!(ops_of(&pre), vec![Op { kind: OpKind::ClearCell, operand: 2 }]);
}

#[test]
fn parser_output_passes_the_matching_check() {
    let prog = parse(b"+[>[-]<]").expect("should parse");
    assert!(check_matched(&prog));
}

#[test]
fn matching_check_rejects_a_bad_program() {
    let prog = Program { ops: vec![Op { kind: OpKind::LoopOpen, operand: 0 }] };
    assert!(!check_matched(&prog));
    let prog = Program {
        ops: vec![
            Op { kind: OpKind::LoopOpen, operand: 1 },
            Op { kind: OpKind::LoopClose, operand: 1 },
        ],
    };
    assert!(!check_matched(&prog));
}

#[test]
fn partial_idiom_is_not_rewritten() {
    assert_eq!(preoptimize(b"[-"), b"[-".to_vec());
    assert_eq!(preoptimize(b"-]"), b"-]".to_vec());
}

#[test]
fn clear_marker_and_minus_are_distinct_runs() {
    let src = [CLEAR_MARK, b'-'];
    assert_eq!(
        ops_of(&src),
        vec![
            Op { kind: OpKind::ClearCell, operand: 1 },
            Op { kind: OpKind::Decrement, operand: 1 },
        ]
    );
}
