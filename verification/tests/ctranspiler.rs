use std::collections::HashMap;
use xxbf::astsoup::{soupify, SoupInstr};
use xxbf::ctranspiler::{transpile_raw_to_c, transpile_soup_to_c};
use xxbf::parser::parse_instr_seq;

const HEADER: &str = "#include <stdio.h>\nint main(void)\n{\n\tunsigned char m[30000] = {0};\n\tunsigned int h = 0;\n";
const FOOTER: &str = "\treturn 0;\n}\n";

fn raw_c(src: &str) -> String {
    transpile_raw_to_c(parse_instr_seq(src).unwrap())
}

fn soup_c(src: &str) -> String {
    transpile_soup_to_c(soupify(&parse_instr_seq(src).unwrap()))
}

fn framed(body: &str) -> String {
    format!("{}{}{}", HEADER, body, FOOTER)
}

fn map_of(pairs: &[(isize, isize)]) -> HashMap<isize, isize> {
    pairs.iter().copied().collect()
}

#[test]
fn empty_raw_program() {
    assert_eq!(raw_c(""), framed(""));
}

#[test]
fn empty_soup_program() {
    assert_eq!(soup_c(""), framed(""));
}

#[test]
fn raw_statements() {
    assert_eq!(
        raw_c("+-<>.,"),
        framed("\tm[h]++;\n\tm[h]--;\n\th--;\n\th++;\n\tputchar(m[h]);\n\tm[h] = getchar();\n")
    );
}

#[test]
fn raw_loops_nest_and_indent() {
    assert_eq!(
        raw_c("[+[-]]"),
        framed(
            "\twhile (m[h])\n\t{\n\t\tm[h]++;\n\t\twhile (m[h])\n\t\t{\n\t\t\tm[h]--;\n\t\t}\n\t}\n"
        )
    );
}

#[test]
fn batch_lists_cells_in_ascending_order() {
    assert_eq!(
        soup_c(">>+<<<<-->>+++"),
        framed("\tm[h + -2] += -2;\n\tm[h] += 3;\n\tm[h + 2] += 1;\n")
    );
}

#[test]
fn batch_moves_head_last() {
    assert_eq!(soup_c("+>>"), framed("\tm[h] += 1;\n\th += 2;\n"));
    assert_eq!(soup_c("<"), framed("\th += -1;\n"));
}

#[test]
fn batch_prints_large_and_zero_deltas() {
    let src = format!("{}>+-", "+".repeat(1234));
    assert_eq!(soup_c(&src), framed("\tm[h] += 1234;\n\tm[h + 1] += 0;\n\th += 1;\n"));
}

#[test]
fn soup_output_and_input() {
    assert_eq!(soup_c(".,"), framed("\tputchar(m[h]);\n\tm[h] = getchar();\n"));
}

#[test]
fn multiply_loop_is_straight_line() {
    assert_eq!(
        soup_c("[->+++<<-->]"),
        framed("\tm[h + -1] += m[h] * -2;\n\tm[h + 1] += m[h] * 3;\n\tm[h] = 0;\n")
    );
}

#[test]
fn fixed_loop_is_a_while() {
    assert_eq!(
        soup_c("[-->+<]"),
        framed("\twhile (m[h])\n\t{\n\t\tm[h] += -2;\n\t\tm[h + 1] += 1;\n\t}\n")
    );
}

#[test]
fn moving_loop_is_a_while_that_moves() {
    assert_eq!(
        soup_c("[-<<]"),
        framed("\twhile (m[h])\n\t{\n\t\tm[h] += -1;\n\t\th += -2;\n\t}\n")
    );
}

#[test]
fn generic_loop_wraps_its_body() {
    assert_eq!(
        soup_c("[.[-]]"),
        framed("\twhile (m[h])\n\t{\n\t\tputchar(m[h]);\n\t\tm[h] = 0;\n\t}\n")
    );
}

#[test]
fn extreme_numbers_are_written_in_full() {
    let soup = vec![SoupInstr::Soup {
        cell_deltas: map_of(&[(isize::MIN, isize::MAX)]),
        head_delta: isize::MIN,
    }];
    let expected = format!(
        "\tm[h + {}] += {};\n\th += {};\n",
        isize::MIN,
        isize::MAX,
        isize::MIN
    );
    assert_eq!(transpile_soup_to_c(soup), framed(&expected));
}

#[test]
fn hello_world_source_starts_with_a_batch() {
    let code = soup_c("++++++++[>++++[>++>+++>+++>+<<<<-]>+>+>->>+[<]<-]>>.");
    assert!(code.starts_with(&format!("{}\tm[h] += 8;\n\twhile (m[h])\n\t{{\n\t\tm[h + 1] += 4;\n\t\th += 1;\n\t\tm[h + 1] += m[h] * 2;\n", HEADER)));
    assert!(code.ends_with(&format!("\tputchar(m[h]);\n{}", FOOTER)));
}
