use std::collections::HashMap;
use xxbf::astraw::RawInstr;
use xxbf::astsoup::{soupify, SoupInstr};
use xxbf::parser::parse_instr_seq;
use xxbf::vm::{run_raw, run_soup, step_raw, step_soup, Fault, Outcome, Signal, VmMem};

const HELLO: &str = "++++++++[>++++[>++>+++>+++>+<<<<-]>+>+>->>+[<]<-]>>.>---.+++++++..+++.>>.<-.<.+++.------.--------.>>+.>++.";

const BUDGET: usize = 1_000_000;

fn raw_of(src: &str) -> Vec<RawInstr> {
    parse_instr_seq(src).unwrap()
}

fn finished(outcome: Outcome) -> Vec<u8> {
    match outcome {
        Outcome::Finished(out) => out,
        other => panic!("run did not finish: {:?}", other),
    }
}

fn raw_output(src: &str, input: &[u8]) -> Vec<u8> {
    finished(run_raw(raw_of(src), input.to_vec(), BUDGET))
}

fn soup_output(src: &str, input: &[u8]) -> Vec<u8> {
    finished(run_soup(soupify(&raw_of(src)), input.to_vec(), BUDGET))
}

fn map_of(pairs: &[(isize, isize)]) -> HashMap<isize, isize> {
    pairs.iter().copied().collect()
}

#[test]
fn hello_world_raw() {
    assert_eq!(raw_output(HELLO, &[]), b"Hello World!\n".to_vec());
}

#[test]
fn hello_world_soup() {
    assert_eq!(soup_output(HELLO, &[]), b"Hello World!\n".to_vec());
}

#[test]
fn increment_wraps_to_zero() {
    let src = format!("-{}.", "+");
    // 0 - 1 = 255, 255 + 1 = 0
    assert_eq!(raw_output(&src, &[]), vec![0]);
    assert_eq!(soup_output("-.+.", &[]), vec![255, 0]);
}

#[test]
fn decrement_wraps_to_255() {
    assert_eq!(raw_output("-.", &[]), vec![255]);
    assert_eq!(soup_output("-.", &[]), vec![255]);
}

#[test]
fn many_increments_wrap() {
    let src = format!("{}.", "+".repeat(300));
    assert_eq!(raw_output(&src, &[]), vec![44]);
    assert_eq!(soup_output(&src, &[]), vec![44]);
}

#[test]
fn unwritten_cells_read_zero() {
    let m = VmMem::new(Some(Vec::new()));
    assert_eq!(m.get(0), 0);
    assert_eq!(m.get(12345), 0);
    assert_eq!(raw_output(">>>>.", &[]), vec![0]);
}

#[test]
fn write_beyond_the_store_zero_fills() {
    let mut m = VmMem::new(Some(Vec::new()));
    m.set(5, 7);
    for i in 0..5 {
        assert_eq!(m.get(i), 0);
    }
    assert_eq!(m.get(5), 7);
    assert_eq!(m.get(6), 0);
    m.set(2, 9);
    assert_eq!(m.get(2), 9);
    assert_eq!(m.get(5), 7);
}

#[test]
fn input_is_read_in_order() {
    assert_eq!(raw_output(",.,.,.", b"abc"), b"abc".to_vec());
    assert_eq!(soup_output(",.,.,.", b"abc"), b"abc".to_vec());
}

#[test]
fn reads_past_the_buffer_give_zero() {
    assert_eq!(raw_output("+,.+,.+,.", b"a"), vec![b'a', 0, 0]);
    assert_eq!(soup_output("+,.+,.+,.", b"a"), vec![b'a', 0, 0]);
}

#[test]
fn fixed_input_never_echoes_or_waits() {
    let raw = raw_of("+.,.,");
    let mut m = VmMem::new(Some(vec![5]));
    let mut stack: Vec<&RawInstr> = raw.iter().rev().collect();
    let mut signals = Vec::new();
    loop {
        let s = step_raw(&mut m, &mut stack);
        signals.push(s);
        if s == Signal::Halted {
            break;
        }
    }
    assert_eq!(
        signals,
        vec![
            Signal::Continue,
            Signal::Continue,
            Signal::Continue,
            Signal::Continue,
            Signal::Continue,
            Signal::Halted,
        ]
    );
    assert_eq!(m.into_output(), vec![1, 5]);
}

#[test]
fn interactive_machine_echoes_and_asks() {
    let raw = raw_of("+.,.");
    let mut m = VmMem::new(None);
    let mut stack: Vec<&RawInstr> = raw.iter().rev().collect();
    assert_eq!(step_raw(&mut m, &mut stack), Signal::Continue);
    assert_eq!(step_raw(&mut m, &mut stack), Signal::Echo(1));
    assert_eq!(step_raw(&mut m, &mut stack), Signal::NeedInput);
    assert_eq!(step_raw(&mut m, &mut stack), Signal::NeedInput);
    m.feed(65);
    assert_eq!(step_raw(&mut m, &mut stack), Signal::Continue);
    assert_eq!(step_raw(&mut m, &mut stack), Signal::Echo(65));
    assert_eq!(step_raw(&mut m, &mut stack), Signal::Halted);
    assert_eq!(m.output(), &vec![1, 65]);
}

#[test]
fn interactive_soup_machine_echoes_and_asks() {
    let soup = soupify(&raw_of("+.,."));
    let mut m = VmMem::new(None);
    let mut stack: Vec<&SoupInstr> = soup.iter().rev().collect();
    assert_eq!(step_soup(&mut m, &mut stack), Signal::Continue);
    assert_eq!(step_soup(&mut m, &mut stack), Signal::Echo(1));
    assert_eq!(step_soup(&mut m, &mut stack), Signal::NeedInput);
    m.feed(66);
    assert_eq!(step_soup(&mut m, &mut stack), Signal::Continue);
    assert_eq!(step_soup(&mut m, &mut stack), Signal::Echo(66));
    assert_eq!(step_soup(&mut m, &mut stack), Signal::Halted);
    assert_eq!(m.into_output(), vec![1, 66]);
}

#[test]
fn moving_left_of_cell_zero_is_fatal() {
    assert!(matches!(
        run_raw(raw_of("+.<."), Vec::new(), BUDGET),
        Outcome::Faulted(Fault::HeadUnderflow)
    ));
    assert!(matches!(
        run_soup(soupify(&raw_of("+.<.")), Vec::new(), BUDGET),
        Outcome::Faulted(Fault::HeadUnderflow)
    ));
}

#[test]
fn batch_reaching_left_of_cell_zero_is_fatal() {
    assert!(matches!(
        run_soup(soupify(&raw_of("<+>")), Vec::new(), BUDGET),
        Outcome::Faulted(Fault::HeadUnderflow)
    ));
}

#[test]
fn endless_loop_runs_out_of_steps() {
    assert!(matches!(run_raw(raw_of("+[]"), Vec::new(), 1000), Outcome::OutOfSteps));
    assert!(matches!(
        run_soup(soupify(&raw_of("+[]")), Vec::new(), 1000),
        Outcome::OutOfSteps
    ));
}

#[test]
fn budget_counts_steps() {
    // Three instructions take three steps.
    assert!(matches!(run_raw(raw_of("+++"), Vec::new(), 2), Outcome::OutOfSteps));
    assert!(matches!(run_raw(raw_of("+++"), Vec::new(), 3), Outcome::Finished(_)));
    // The same run is one batch.
    assert!(matches!(run_soup(soupify(&raw_of("+++")), Vec::new(), 0), Outcome::OutOfSteps));
    assert!(matches!(run_soup(soupify(&raw_of("+++")), Vec::new(), 1), Outcome::Finished(_)));
    assert!(matches!(run_raw(Vec::new(), Vec::new(), 0), Outcome::Finished(_)));
}

#[test]
fn multiply_loop_matches_naive_loop_for_every_count() {
    for n in 0..=255u8 {
        let src = ",[->+++>-<<]>.>.<<.";
        let expected = vec![n.wrapping_mul(3), 0u8.wrapping_sub(n), 0];
        assert_eq!(raw_output(src, &[n]), expected);
        assert_eq!(soup_output(src, &[n]), expected);
    }
}

#[test]
fn multiply_loop_is_one_step() {
    let soup = vec![SoupInstr::MultFixedLoop { cell_deltas: map_of(&[(0, -1), (2, 7)]) }];
    let mut m = VmMem::new(Some(Vec::new()));
    m.set(0, 5);
    m.set(2, 250);
    let mut stack: Vec<&SoupInstr> = soup.iter().rev().collect();
    assert_eq!(step_soup(&mut m, &mut stack), Signal::Continue);
    assert_eq!(m.get(0), 0);
    assert_eq!(m.get(2), 29);
    assert_eq!(step_soup(&mut m, &mut stack), Signal::Halted);
}

#[test]
fn fixed_loop_on_zero_is_skipped() {
    let soup = vec![SoupInstr::SoupFixedLoop { cell_deltas: map_of(&[(1, 1)]) }];
    let mut m = VmMem::new(Some(Vec::new()));
    let mut stack: Vec<&SoupInstr> = soup.iter().rev().collect();
    assert_eq!(step_soup(&mut m, &mut stack), Signal::Continue);
    assert_eq!(m.get(1), 0);
    assert_eq!(step_soup(&mut m, &mut stack), Signal::Halted);
}

#[test]
fn fixed_loop_repeats_until_the_head_cell_is_zero() {
    let soup = vec![SoupInstr::SoupFixedLoop { cell_deltas: map_of(&[(0, -2), (1, 3)]) }];
    let mut m = VmMem::new(Some(Vec::new()));
    m.set(0, 6);
    let mut stack: Vec<&SoupInstr> = soup.iter().rev().collect();
    assert_eq!(step_soup(&mut m, &mut stack), Signal::Continue);
    assert_eq!((m.get(0), m.get(1)), (4, 3));
    assert_eq!(stack.len(), 1);
    assert_eq!(step_soup(&mut m, &mut stack), Signal::Continue);
    assert_eq!(step_soup(&mut m, &mut stack), Signal::Continue);
    assert_eq!((m.get(0), m.get(1)), (0, 9));
    assert_eq!(step_soup(&mut m, &mut stack), Signal::Halted);
}

#[test]
fn moving_loop_on_zero_is_skipped() {
    let soup = vec![SoupInstr::SoupMovingLoop { cell_deltas: map_of(&[(1, 1)]), head_delta: 1 }];
    let mut m = VmMem::new(Some(Vec::new()));
    m.set(1, 1);
    let mut stack: Vec<&SoupInstr> = soup.iter().rev().collect();
    assert_eq!(step_soup(&mut m, &mut stack), Signal::Continue);
    assert_eq!(m.head(), 0);
    assert_eq!(m.get(1), 1);
    assert_eq!(step_soup(&mut m, &mut stack), Signal::Halted);
}

#[test]
fn moving_loop_tests_the_cell_it_lands_on() {
    let soup = vec![SoupInstr::SoupMovingLoop { cell_deltas: HashMap::new(), head_delta: 1 }];
    let mut m = VmMem::new(Some(Vec::new()));
    m.set(0, 1);
    m.set(1, 1);
    m.set(2, 1);
    let mut stack: Vec<&SoupInstr> = soup.iter().rev().collect();
    assert_eq!(step_soup(&mut m, &mut stack), Signal::Continue);
    assert_eq!(m.head(), 1);
    assert_eq!(step_soup(&mut m, &mut stack), Signal::Continue);
    assert_eq!(m.head(), 2);
    assert_eq!(step_soup(&mut m, &mut stack), Signal::Continue);
    assert_eq!(m.head(), 3);
    assert_eq!(step_soup(&mut m, &mut stack), Signal::Halted);
}

#[test]
fn raw_and_soup_agree_on_sample_programs() {
    let samples: [(&str, &[u8]); 6] = [
        (",[.,]", b"echo"),
        ("++>+++<[->+<]>.", b""),
        (",>,<[->[->+>+<<]>>[-<<+>>]<<<]>>.", &[6, 7]),
        ("+++[>++[>+<-]<-]>>.", b""),
        (",[>+<-]>.", &[200]),
        ("++++[>++++<-]>[<+>-]<.", b""),
    ];
    for (src, input) in samples {
        assert_eq!(raw_output(src, input), soup_output(src, input), "{}", src);
    }
}

#[test]
fn fault_leaves_the_machine_untouched() {
    let soup = vec![SoupInstr::Soup { cell_deltas: map_of(&[(0, 1), (-1, 1)]), head_delta: 0 }];
    let mut m = VmMem::new(Some(Vec::new()));
    let mut stack: Vec<&SoupInstr> = soup.iter().rev().collect();
    assert_eq!(step_soup(&mut m, &mut stack), Signal::Fault(Fault::HeadUnderflow));
    assert_eq!(m.get(0), 0);
    assert_eq!(stack.len(), 1);
    assert_eq!(step_soup(&mut m, &mut stack), Signal::Fault(Fault::HeadUnderflow));
}

#[test]
fn moving_beyond_the_last_cell_is_fatal() {
    let far = || SoupInstr::Soup { cell_deltas: HashMap::new(), head_delta: isize::MAX };
    assert!(matches!(
        run_soup(vec![far(), far()], Vec::new(), BUDGET),
        Outcome::Finished(_)
    ));
    assert!(matches!(
        run_soup(vec![far(), far(), far()], Vec::new(), BUDGET),
        Outcome::Faulted(Fault::HeadOverflow)
    ));
}

#[test]
fn underflow_is_reported_before_overflow() {
    let soup = vec![
        SoupInstr::Soup { cell_deltas: HashMap::new(), head_delta: isize::MAX },
        SoupInstr::Soup {
            cell_deltas: map_of(&[(isize::MIN, 1), (isize::MAX, 1), (isize::MAX - 1, 1)]),
            head_delta: 0,
        },
    ];
    assert!(matches!(
        run_soup(soup, Vec::new(), BUDGET),
        Outcome::Faulted(Fault::HeadUnderflow)
    ));
}

#[test]
fn fixed_loop_entered_on_zero_runs_no_pass() {
    assert_eq!(raw_output("[>+<]>.", &[]), vec![0]);
    assert_eq!(soup_output("[>+<]>.", &[]), vec![0]);
    let built = vec![
        SoupInstr::SoupFixedLoop { cell_deltas: map_of(&[(1, 1)]) },
        SoupInstr::Soup { cell_deltas: HashMap::new(), head_delta: 1 },
        SoupInstr::Output,
    ];
    assert_eq!(finished(run_soup(built, Vec::new(), 1000)), vec![0]);
}

#[test]
fn moving_loop_entered_on_zero_runs_no_pass() {
    assert_eq!(raw_output(">>[<+<]>.", &[]), vec![0]);
    assert_eq!(soup_output(">>[<+<]>.", &[]), vec![0]);
    let built = vec![
        SoupInstr::Soup { cell_deltas: HashMap::new(), head_delta: 2 },
        SoupInstr::SoupMovingLoop { cell_deltas: map_of(&[(-1, 1)]), head_delta: -2 },
        SoupInstr::Soup { cell_deltas: HashMap::new(), head_delta: 1 },
        SoupInstr::Output,
    ];
    assert_eq!(finished(run_soup(built, Vec::new(), 1000)), vec![0]);
}

#[test]
fn multiply_loop_entered_on_zero_reaches_nowhere() {
    // The loop would add to the cell left of cell 0, but it runs no pass.
    assert_eq!(raw_output("[-<+>].", &[]), vec![0]);
    assert_eq!(soup_output("[-<+>].", &[]), vec![0]);
    let built = vec![
        SoupInstr::MultFixedLoop { cell_deltas: map_of(&[(0, -1), (-1, 1)]) },
        SoupInstr::Output,
    ];
    assert_eq!(finished(run_soup(built, Vec::new(), 1000)), vec![0]);
}

#[test]
fn multiply_loop_equals_the_generic_loop_over_its_batch() {
    for n in [0u8, 1, 2, 128, 255] {
        let d = map_of(&[(0, -1), (1, 3), (2, -1)]);
        let mult = vec![
            SoupInstr::Input,
            SoupInstr::MultFixedLoop { cell_deltas: d.clone() },
            SoupInstr::Soup { cell_deltas: HashMap::new(), head_delta: 1 },
            SoupInstr::Output,
        ];
        let generic = vec![
            SoupInstr::Input,
            SoupInstr::Loop(vec![SoupInstr::Soup { cell_deltas: d, head_delta: 0 }]),
            SoupInstr::Soup { cell_deltas: HashMap::new(), head_delta: 1 },
            SoupInstr::Output,
        ];
        assert_eq!(
            finished(run_soup(mult, vec![n], BUDGET)),
            finished(run_soup(generic, vec![n], BUDGET))
        );
    }
}

#[test]
fn multiply_loop_off_the_tape_is_fatal_when_it_runs() {
    assert!(matches!(
        run_soup(soupify(&raw_of("+[-<+>].")), Vec::new(), BUDGET),
        Outcome::Faulted(Fault::HeadUnderflow)
    ));
    assert!(matches!(
        run_raw(raw_of("+[-<+>]."), Vec::new(), BUDGET),
        Outcome::Faulted(Fault::HeadUnderflow)
    ));
}

#[test]
fn multiply_loop_entered_on_zero_changes_nothing() {
    assert_eq!(raw_output("[->+<]>.<.", &[]), vec![0, 0]);
    assert_eq!(soup_output("[->+<]>.<.", &[]), vec![0, 0]);
}

#[test]
fn signal_looks_ahead_without_stepping() {
    let raw = raw_of("<");
    let m = VmMem::new(Some(Vec::new()));
    let stack: Vec<&RawInstr> = raw.iter().rev().collect();
    assert_eq!(xxbf::vm::signal_raw(&m, &stack), Signal::Fault(Fault::HeadUnderflow));
    assert_eq!(stack.len(), 1);
    let soup = soupify(&raw_of(".")) ;
    let m = VmMem::new(None);
    let stack: Vec<&SoupInstr> = soup.iter().rev().collect();
    assert_eq!(xxbf::vm::signal_soup(&m, &stack), Signal::Echo(0));
    assert_eq!(m.output().len(), 0);
    let empty: Vec<&SoupInstr> = Vec::new();
    assert_eq!(xxbf::vm::signal_soup(&m, &empty), Signal::Halted);
}

#[test]
fn fed_bytes_are_read_first() {
    let mut m = VmMem::new(Some(vec![1, 2]));
    m.feed(9);
    assert_eq!(m.input_char_value(), Some(9));
    assert_eq!(m.input_char_value(), Some(1));
    assert_eq!(m.input_char_value(), Some(2));
    assert_eq!(m.input_char_value(), Some(0));
    assert_eq!(m.input_char_value(), Some(0));
    let mut interactive = VmMem::new(None);
    assert_eq!(interactive.input_char_value(), None);
}

#[test]
fn output_char_value_reports_whether_to_echo() {
    let mut fixed = VmMem::new(Some(Vec::new()));
    assert!(!fixed.output_char_value(7));
    assert_eq!(fixed.output(), &vec![7]);
    let mut interactive = VmMem::new(None);
    assert!(interactive.output_char_value(8));
    assert_eq!(interactive.into_output(), vec![8]);
}

#[test]
fn batch_wraps_each_cell() {
    let soup = vec![
        SoupInstr::Soup { cell_deltas: map_of(&[(0, -1), (1, 513), (2, -257)]), head_delta: 1 },
        SoupInstr::Output,
    ];
    let mut m = VmMem::new(Some(Vec::new()));
    let mut stack: Vec<&SoupInstr> = soup.iter().rev().collect();
    assert_eq!(step_soup(&mut m, &mut stack), Signal::Continue);
    assert_eq!(m.get(0), 255);
    assert_eq!(m.get(1), 1);
    assert_eq!(m.get(2), 255);
    assert_eq!(m.head(), 1);
}

#[test]
fn multiply_loop_scales_and_wraps() {
    let soup = vec![SoupInstr::MultFixedLoop {
        cell_deltas: map_of(&[(0, -1), (1, -3), (-1, 100)]),
    }];
    let mut m = VmMem::new(Some(Vec::new()));
    m.set(1, 200);
    m.set(2, 10);
    m.set(0, 5);
    let mut stack: Vec<&SoupInstr> = soup.iter().rev().collect();
    // Move the head to cell 1 first.
    let mover = vec![SoupInstr::Soup { cell_deltas: HashMap::new(), head_delta: 1 }];
    let mut first: Vec<&SoupInstr> = mover.iter().rev().collect();
    assert_eq!(step_soup(&mut m, &mut first), Signal::Continue);
    assert_eq!(step_soup(&mut m, &mut stack), Signal::Continue);
    // 200 passes: cell 2 gets 10 - 600, cell 0 gets 5 + 20000, both modulo 256.
    assert_eq!(m.get(1), 0);
    assert_eq!(m.get(2), ((10i64 - 600).rem_euclid(256)) as u8);
    assert_eq!(m.get(0), ((5i64 + 20000).rem_euclid(256)) as u8);
}
