use tapec::codegen::compile;
use tapec::parse::{parse, preoptimize};

fn text_of(src: &[u8]) -> String {
    compile(&parse(src).expect("source should parse"))
}

const PROLOGUE: &str = ".globl _main\n.align 4\n\n_main:\n\t// allocate the zero-initialized tape\n\tmov x0, #8192\n\tmov x1, #1\n\tbl _calloc\n\tldr x1, [x0]\n";
const EPILOGUE: &str = "\t// exit with status zero\n\tmov x0, #0\n\tbl _exit\n";

#[test]
fn empty_program_is_prologue_and_epilogue() {
    let expected = format!("{}{}", PROLOGUE, EPILOGUE);
    assert_eq!(text_of(b""), expected);
}

#[test]
fn single_increment_compiles_to_the_exact_text() {
    let expected = format!("{}\t// +\n\tadd x1, x1, #1\n{}", PROLOGUE, EPILOGUE);
    assert_eq!(text_of(b"+"), expected);
}

#[test]
fn increment_run_becomes_one_immediate() {
    let text = text_of(b"++++++++++");
    assert!(text.contains("\tadd x1, x1, #10\n"));
}

#[test]
fn decrement_uses_sub_on_the_cell_register() {
    let text = text_of(b"---");
    assert!(text.contains("\tsub x1, x1, #3\n"));
}

#[test]
fn widest_single_immediate_is_not_split() {
    let src = vec![b'+'; 4095];
    let text = text_of(&src);
    assert!(text.contains("\tadd x1, x1, #4095\n"));
    assert_eq!(text.matches("add x1, x1, #").count(), 1);
}

#[test]
fn oversized_increment_is_split_across_instructions() {
    // 5000 = 4095 + 905: two instructions, nothing truncated.
    let src = vec![b'+'; 5000];
    let text = text_of(&src);
    assert!(text.contains("\tadd x1, x1, #4095\n"));
    assert!(text.contains("\tadd x1, x1, #905\n"));
    assert_eq!(text.matches("add x1, x1, #").count(), 2);
}

#[test]
fn move_stores_the_cache_and_reloads_it() {
    let expected = format!(
        "{}\t// >\n\tstr x1, [x0]\n\tadd x0, x0, #8\n\tldr x1, [x0]\n{}",
        PROLOGUE, EPILOGUE
    );
    assert_eq!(text_of(b">"), expected);
}

#[test]
fn backward_move_subtracts_scaled_offset() {
    let text = text_of(b"><<<");
    assert!(text.contains("\tsub x0, x0, #24\n"));
}

#[test]
fn oversized_move_is_split_with_scaled_immediates() {
    // 600 cells = 511 + 89 cells: immediates 4088 and 712 bytes.
    let src = vec![b'>'; 600];
    let text = text_of(&src);
    assert!(text.contains("\tadd x0, x0, #4088\n"));
    assert!(text.contains("\tadd x0, x0, #712\n"));
    assert_eq!(text.matches("add x0, x0, #").count(), 2);
}

#[test]
fn loop_brackets_emit_a_matching_label_pair() {
    let text = text_of(b"[.]");
    assert!(text.contains("\t// [\n\tcmp x1, #0\n\tbeq end_0\nstart_0:\n"));
    assert!(text.contains("\t// ]\n\tcmp x1, #0\n\tbne start_0\nend_0:\n"));
}

#[test]
fn nested_loops_get_distinct_label_pairs() {
    let text = text_of(b"[[]]");
    assert!(text.contains("beq end_0\nstart_0:"));
    assert!(text.contains("beq end_1\nstart_1:"));
    assert!(text.contains("bne start_1\nend_1:"));
    assert!(text.contains("bne start_0\nend_0:"));
    // The inner pair closes before the outer one.
    let inner_close = text.find("end_1:").unwrap();
    let outer_close = text.find("end_0:").unwrap();
    assert!(inner_close < outer_close);
}

#[test]
fn output_saves_both_live_registers_around_the_call() {
    let expected_block =
        "\tstp x0, x1, [sp, #-16]!\n\tand x0, x1, #0xff\n\tbl _putchar\n\tldp x0, x1, [sp], #16\n";
    let text = text_of(b".");
    assert!(text.contains(expected_block));
    assert_eq!(text.matches("bl _putchar").count(), 1);
}

#[test]
fn output_run_calls_the_primitive_once_per_unit() {
    let text = text_of(b"...");
    assert_eq!(text.matches("bl _putchar").count(), 3);
}

#[test]
fn input_saves_the_pointer_and_maps_end_of_stream_to_zero() {
    let expected_block =
        "\tstr x0, [sp, #-16]!\n\tbl _getchar\n\tcmn x0, #1\n\tcsel x1, xzr, x0, eq\n\tldr x0, [sp], #16\n";
    let text = text_of(b",");
    assert!(text.contains(expected_block));
}

#[test]
fn clear_cell_is_a_single_register_zeroing() {
    let pre = preoptimize(b"[-]");
    let text = compile(&parse(&pre).expect("should parse"));
    let expected = format!("{}\t// clear\n\tmov x1, #0\n{}", PROLOGUE, EPILOGUE);
    assert_eq!(text, expected);
    assert!(!text.contains("beq"));
}
