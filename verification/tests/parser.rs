use xxbf::astraw::RawInstr;
use xxbf::parser::{parse_instr_seq, ParsingError};

fn shape(prog: &Vec<RawInstr>) -> String {
    format!("{:?}", prog)
}

#[test]
fn parses_each_instruction() {
    let prog = parse_instr_seq("+-<>.,").unwrap();
    assert_eq!(shape(&prog), "[Plus, Minus, Left, Right, Output, Input]");
}

#[test]
fn parses_empty_source() {
    let prog = parse_instr_seq("").unwrap();
    assert!(prog.is_empty());
}

#[test]
fn skips_comments() {
    let prog = parse_instr_seq("a + b\n- c é <").unwrap();
    assert_eq!(shape(&prog), "[Plus, Minus, Left]");
}

#[test]
fn parses_nested_loops() {
    let prog = parse_instr_seq("+[-[>]<]").unwrap();
    assert_eq!(
        shape(&prog),
        "[Plus, BracketLoop([Minus, BracketLoop([Right]), Left])]"
    );
}

#[test]
fn parses_empty_loop() {
    let prog = parse_instr_seq("[]").unwrap();
    assert_eq!(shape(&prog), "[BracketLoop([])]");
}

#[test]
fn reports_closing_then_opening() {
    let errors = parse_instr_seq("]+[").unwrap_err();
    assert_eq!(
        errors,
        vec![
            ParsingError::UnmatchedClosingBracket { pos: 0 },
            ParsingError::UnmatchedOpeningBracket { pos: 2 },
        ]
    );
}

#[test]
fn reports_open_brackets_in_ascending_order() {
    let errors = parse_instr_seq("[+[-[").unwrap_err();
    assert_eq!(
        errors,
        vec![
            ParsingError::UnmatchedOpeningBracket { pos: 0 },
            ParsingError::UnmatchedOpeningBracket { pos: 2 },
            ParsingError::UnmatchedOpeningBracket { pos: 4 },
        ]
    );
}

#[test]
fn reports_every_stray_closing_bracket() {
    let errors = parse_instr_seq("[]]+]").unwrap_err();
    assert_eq!(
        errors,
        vec![
            ParsingError::UnmatchedClosingBracket { pos: 2 },
            ParsingError::UnmatchedClosingBracket { pos: 4 },
        ]
    );
}

#[test]
fn closed_inner_bracket_is_no_error() {
    let errors = parse_instr_seq("[[]").unwrap_err();
    assert_eq!(errors, vec![ParsingError::UnmatchedOpeningBracket { pos: 0 }]);
}

#[test]
fn offsets_count_bytes() {
    // "é" takes two bytes, so the bracket stands at byte 2.
    let errors = parse_instr_seq("é]").unwrap_err();
    assert_eq!(errors, vec![ParsingError::UnmatchedClosingBracket { pos: 2 }]);
}
