use std::collections::HashMap;
use xxbf::astraw::RawInstr;
use xxbf::astsoup::{entries, has_fitting_lengths, has_valid_mult_loops, soupify, SoupInstr};
use xxbf::parser::parse_instr_seq;

fn soup_of(src: &str) -> Vec<SoupInstr> {
    soupify(&parse_instr_seq(src).unwrap())
}

fn map_of(pairs: &[(isize, isize)]) -> HashMap<isize, isize> {
    pairs.iter().copied().collect()
}

#[test]
fn empty_program_has_no_blocks() {
    assert!(soup_of("").is_empty());
}

#[test]
fn run_becomes_one_batch() {
    let soup = soup_of("++>---<<+");
    assert_eq!(soup.len(), 1);
    match &soup[0] {
        SoupInstr::Soup { cell_deltas, head_delta } => {
            assert_eq!(*cell_deltas, map_of(&[(0, 2), (1, -3), (-1, 1)]));
            assert_eq!(*head_delta, -1);
        }
        other => panic!("unexpected block {:?}", other),
    }
}

#[test]
fn cancelled_edits_keep_their_entry() {
    let soup = soup_of("+-");
    match &soup[0] {
        SoupInstr::Soup { cell_deltas, head_delta } => {
            assert_eq!(*cell_deltas, map_of(&[(0, 0)]));
            assert_eq!(*head_delta, 0);
        }
        other => panic!("unexpected block {:?}", other),
    }
}

#[test]
fn moves_alone_make_a_batch_without_entries() {
    let soup = soup_of("<>");
    assert_eq!(soup.len(), 1);
    match &soup[0] {
        SoupInstr::Soup { cell_deltas, head_delta } => {
            assert!(cell_deltas.is_empty());
            assert_eq!(*head_delta, 0);
        }
        other => panic!("unexpected block {:?}", other),
    }
}

#[test]
fn output_and_input_split_batches() {
    let soup = soup_of("+.+,+");
    assert_eq!(soup.len(), 5);
    assert!(matches!(soup[0], SoupInstr::Soup { .. }));
    assert!(matches!(soup[1], SoupInstr::Output));
    assert!(matches!(soup[2], SoupInstr::Soup { .. }));
    assert!(matches!(soup[3], SoupInstr::Input));
    assert!(matches!(soup[4], SoupInstr::Soup { .. }));
}

#[test]
fn adjacent_output_and_input_stand_alone() {
    let soup = soup_of(".,.");
    assert_eq!(soup.len(), 3);
    assert!(matches!(soup[0], SoupInstr::Output));
    assert!(matches!(soup[1], SoupInstr::Input));
    assert!(matches!(soup[2], SoupInstr::Output));
}

#[test]
fn loop_taking_one_from_head_is_a_multiply_loop() {
    let soup = soup_of("[->++<]");
    assert_eq!(soup.len(), 1);
    match &soup[0] {
        SoupInstr::MultFixedLoop { cell_deltas } => {
            assert_eq!(*cell_deltas, map_of(&[(0, -1), (1, 2)]));
        }
        other => panic!("unexpected block {:?}", other),
    }
}

#[test]
fn loop_without_head_move_is_a_fixed_loop() {
    let soup = soup_of("[-->+<]");
    match &soup[0] {
        SoupInstr::SoupFixedLoop { cell_deltas } => {
            assert_eq!(*cell_deltas, map_of(&[(0, -2), (1, 1)]));
        }
        other => panic!("unexpected block {:?}", other),
    }
}

#[test]
fn loop_that_never_touches_head_cell_is_a_fixed_loop() {
    let soup = soup_of("[>+<]");
    assert!(matches!(soup[0], SoupInstr::SoupFixedLoop { .. }));
}

#[test]
fn loop_with_head_move_is_a_moving_loop() {
    let soup = soup_of("[->>]");
    match &soup[0] {
        SoupInstr::SoupMovingLoop { cell_deltas, head_delta } => {
            assert_eq!(*cell_deltas, map_of(&[(0, -1)]));
            assert_eq!(*head_delta, 2);
        }
        other => panic!("unexpected block {:?}", other),
    }
}

#[test]
fn loop_with_output_stays_generic() {
    let soup = soup_of("[.]");
    match &soup[0] {
        SoupInstr::Loop(body) => {
            assert_eq!(body.len(), 1);
            assert!(matches!(body[0], SoupInstr::Output));
        }
        other => panic!("unexpected block {:?}", other),
    }
}

#[test]
fn empty_loop_stays_generic() {
    let soup = soup_of("[]");
    match &soup[0] {
        SoupInstr::Loop(body) => assert!(body.is_empty()),
        other => panic!("unexpected block {:?}", other),
    }
}

#[test]
fn loop_around_a_loop_stays_generic() {
    let soup = soup_of("[[-]]");
    match &soup[0] {
        SoupInstr::Loop(body) => {
            assert_eq!(body.len(), 1);
            assert!(matches!(body[0], SoupInstr::MultFixedLoop { .. }));
        }
        other => panic!("unexpected block {:?}", other),
    }
}

#[test]
fn loop_is_not_merged_with_its_neighbours() {
    let soup = soup_of("+[-]+");
    assert_eq!(soup.len(), 3);
    assert!(matches!(soup[0], SoupInstr::Soup { .. }));
    assert!(matches!(soup[1], SoupInstr::MultFixedLoop { .. }));
    assert!(matches!(soup[2], SoupInstr::Soup { .. }));
}

#[test]
fn entries_lists_every_pair_once() {
    let mut listed = entries(&map_of(&[(3, 1), (-2, 5), (0, -1)]));
    listed.sort();
    assert_eq!(listed, vec![(-2, 5), (0, -1), (3, 1)]);
}

#[test]
fn clone_keeps_the_tree() {
    let raw = parse_instr_seq("+[>[-]<.]").unwrap();
    let copy: Vec<RawInstr> = raw.iter().map(|i| i.clone()).collect();
    assert_eq!(format!("{:?}", copy), format!("{:?}", raw));
    let soup = soupify(&raw);
    let soup_copy: Vec<SoupInstr> = soup.iter().map(|b| b.clone()).collect();
    assert_eq!(soup_copy.len(), 2);
    match &soup_copy[1] {
        SoupInstr::Loop(body) => assert_eq!(body.len(), 4),
        other => panic!("unexpected block {:?}", other),
    }
}

#[test]
fn hello_world_has_four_kinds_of_blocks() {
    let soup = soup_of("++++++++[>++++[>++>+++>+++>+<<<<-]>+>+>->>+[<]<-]>>.");
    assert_eq!(soup.len(), 4);
    assert!(matches!(soup[0], SoupInstr::Soup { .. }));
    match &soup[1] {
        SoupInstr::Loop(body) => {
            assert_eq!(body.len(), 5);
            assert!(matches!(body[0], SoupInstr::Soup { .. }));
            assert!(matches!(body[1], SoupInstr::MultFixedLoop { .. }));
            assert!(matches!(body[2], SoupInstr::Soup { .. }));
            match &body[3] {
                SoupInstr::SoupMovingLoop { cell_deltas, head_delta } => {
                    assert!(cell_deltas.is_empty());
                    assert_eq!(*head_delta, -1);
                }
                other => panic!("unexpected block {:?}", other),
            }
            assert!(matches!(body[4], SoupInstr::Soup { .. }));
        }
        other => panic!("unexpected block {:?}", other),
    }
    assert!(matches!(soup[2], SoupInstr::Soup { .. }));
    assert!(matches!(soup[3], SoupInstr::Output));
}

#[test]
fn programs_in_memory_have_fitting_lengths() {
    assert!(has_fitting_lengths(&Vec::new()));
    assert!(has_fitting_lengths(&parse_instr_seq("+[>[-]<.]").unwrap()));
}

#[test]
fn optimized_programs_have_valid_multiply_loops() {
    assert!(has_valid_mult_loops(&soup_of("+[->+<[-]>[->>+<<]]")));
    assert!(has_valid_mult_loops(&Vec::new()));
}

#[test]
fn multiply_loop_without_minus_one_at_head_is_invalid() {
    let missing = vec![SoupInstr::MultFixedLoop { cell_deltas: map_of(&[(1, 2)]) }];
    assert!(!has_valid_mult_loops(&missing));
    let wrong = vec![SoupInstr::MultFixedLoop { cell_deltas: map_of(&[(0, -2)]) }];
    assert!(!has_valid_mult_loops(&wrong));
    let nested = vec![SoupInstr::Loop(vec![
        SoupInstr::Output,
        SoupInstr::MultFixedLoop { cell_deltas: map_of(&[(0, 1)]) },
    ])];
    assert!(!has_valid_mult_loops(&nested));
    let fine = vec![SoupInstr::Loop(vec![SoupInstr::MultFixedLoop {
        cell_deltas: map_of(&[(0, -1), (3, 4)]),
    }])];
    assert!(has_valid_mult_loops(&fine));
}
