use bfc::bfir::{AstNode, Position};
use bfc::bounds::{analyze_motions, BoundsCheck};
use bfc::c::{c_prog_from_instructions, push_int};
use bfc::execution::{execute, ExecutionState, TAPE_SIZE};
use bfc::peephole::{copy_program, fold_to_output, optimize, run_pass, Pass};

fn inc(amount: i8) -> AstNode {
    AstNode::Increment { amount, offset: 0, position: None }
}

fn inc_at(amount: i8, offset: i64) -> AstNode {
    AstNode::Increment { amount, offset, position: None }
}

fn ptr(amount: i64) -> AstNode {
    AstNode::PointerIncrement { amount, position: None }
}

fn write() -> AstNode {
    AstNode::Write { offset: 0, position: None }
}

fn read() -> AstNode {
    AstNode::Read { offset: 0, position: None }
}

fn lp(body: Vec<AstNode>) -> AstNode {
    AstNode::Loop { body, position: None }
}

fn assign(amount: i8) -> AstNode {
    AstNode::Assign { amount, offset: 0, position: None }
}

fn mul(changes: Vec<(i64, i8)>) -> AstNode {
    AstNode::MultiplyMove { changes, position: None }
}

const HEADER: &str = "#include<stdio.h>\n#include<signal.h>\n#define NUM_CELLS 30000\nint main(){ static char c[NUM_CELLS] = { 0 }, *target, *ptr; ptr=c;";

#[test]
fn three_increments_then_write_completes() {
    let prog = vec![inc(1), inc(1), inc(1), write()];
    let (state, warning) = execute(&prog, 4);
    assert!(warning.is_none());
    assert_eq!(state.start_instr, None);
    assert_eq!(state.outputs, vec![3]);
}

#[test]
fn budget_one_short_stops_with_warning() {
    let prog = vec![inc(1), inc(1), inc(1), write()];
    let (state, warning) = execute(&prog, 3);
    let w = warning.unwrap();
    assert_eq!(w.message, "exceeded execution step budget");
    assert_eq!(state.start_instr, Some(3));
    assert!(state.outputs.is_empty());
    assert_eq!(state.cells[0], 3);
}

#[test]
fn clear_loop_fuses_to_empty_multiply() {
    let (out, warnings) = optimize(vec![lp(vec![inc(-1)])], &None);
    assert!(warnings.is_empty());
    assert_eq!(out, vec![mul(vec![])]);
}

#[test]
fn clear_loop_and_fused_form_agree_on_five() {
    let looped = vec![assign(5), lp(vec![inc(-1)])];
    let fused = vec![assign(5), mul(vec![])];
    let (a, wa) = execute(&looped, 1000);
    let (b, wb) = execute(&fused, 1000);
    assert!(wa.is_none() && wb.is_none());
    assert_eq!(a.cells[0], 0);
    assert_eq!(a.cells, b.cells);
    assert_eq!(a.cell_ptr, b.cell_ptr);
}

#[test]
fn read_suspends_after_motion() {
    let prog = vec![ptr(1), read()];
    let (state, warning) = execute(&prog, 100);
    assert!(warning.is_none());
    assert_eq!(state.start_instr, Some(1));
    assert!(state.outputs.is_empty());
    assert_eq!(state.cell_ptr, 1);
}

#[test]
fn transfer_loop_fuses_and_evaluates() {
    let prog = vec![
        inc(1), inc(1), inc(1), inc(1),
        lp(vec![inc(-1), ptr(1), inc(1), inc(1), ptr(-1)]),
    ];
    let (out, _) = optimize(prog, &None);
    assert_eq!(out, vec![inc(4), mul(vec![(1, 2)])]);
    let (state, warning) = execute(&out, 10_000_000);
    assert!(warning.is_none());
    assert_eq!(state.start_instr, None);
    assert_eq!(state.cells[0], 0);
    assert_eq!(state.cells[1], 8);
}

#[test]
fn offset_transfer_loop_fuses() {
    let prog = vec![inc(4), lp(vec![inc(-1), inc_at(2, 1)])];
    let (out, _) = optimize(prog, &None);
    assert_eq!(out, vec![inc(4), mul(vec![(1, 2)])]);
    let (state, warning) = execute(&out, 100);
    assert!(warning.is_none());
    assert_eq!(state.cells[0], 0);
    assert_eq!(state.cells[1], 8);
}

#[test]
fn multiply_changes_are_ordered_by_offset() {
    let prog = vec![lp(vec![inc_at(3, 5), inc(-1), inc_at(7, -2), inc_at(1, 1)])];
    let (out, _) = optimize(prog, &None);
    assert_eq!(out, vec![mul(vec![(-2, 7), (1, 1), (5, 3)])]);
}

#[test]
fn loop_with_repeated_offset_is_not_fused() {
    let body = vec![inc(-1), inc_at(1, 1), inc_at(1, 1)];
    let out = run_pass(Pass::ExtractMultiply, &[lp(body)]);
    assert!(matches!(out[0], AstNode::Loop { .. }));
}

#[test]
fn move_left_at_origin_needs_guard() {
    assert_eq!(analyze_motions(&[-1], 0, 0, TAPE_SIZE), BoundsCheck::RequiresGuard);
    let (state, warning) = execute(&[ptr(-1)], 100);
    assert!(warning.is_some());
    assert_eq!(state.start_instr, Some(0));
    assert_eq!(state.cell_ptr, 0);
}

#[test]
fn motions_inside_tape_are_safe() {
    assert_eq!(analyze_motions(&[1, 2, -3], 0, 0, TAPE_SIZE), BoundsCheck::ProvenSafe);
    assert_eq!(analyze_motions(&[5, -3], 0, 2, 10), BoundsCheck::ProvenSafe);
    assert_eq!(analyze_motions(&[5, -3], 0, 5, 10), BoundsCheck::RequiresGuard);
    assert_eq!(analyze_motions(&[], 3, 3, 4), BoundsCheck::ProvenSafe);
    assert_eq!(analyze_motions(&[], 4, 4, 4), BoundsCheck::RequiresGuard);
}

#[test]
fn optimizing_twice_changes_nothing() {
    let prog = vec![
        inc(1), inc(1), ptr(1), ptr(-1), ptr(2),
        lp(vec![inc(-1), inc_at(3, 1)]),
        lp(vec![write()]),
        assign(0), inc(2), inc(-2),
    ];
    let (once, _) = optimize(prog, &None);
    let (twice, _) = optimize(copy_program(&once), &None);
    assert_eq!(once, twice);
}

#[test]
fn unit_increments_coalesce_modulo_256() {
    let run: Vec<AstNode> = (0..300).map(|_| inc(1)).collect();
    assert_eq!(run_pass(Pass::CombineIncrements, &run), vec![inc(44)]);
    let full: Vec<AstNode> = (0..256).map(|_| inc(1)).collect();
    assert_eq!(run_pass(Pass::CombineIncrements, &full), vec![]);
    let wrap: Vec<AstNode> = (0..200).map(|_| inc(1)).collect();
    assert_eq!(run_pass(Pass::CombineIncrements, &wrap), vec![inc(-56)]);
}

#[test]
fn assign_absorbs_following_increment() {
    let out = run_pass(Pass::CombineIncrements, &[assign(3), inc(4), inc_at(1, 1)]);
    assert_eq!(out, vec![assign(7), inc_at(1, 1)]);
}

#[test]
fn pointer_motions_coalesce() {
    let out = run_pass(Pass::CombinePointerIncrements, &[ptr(1), ptr(1), ptr(-1), write(), ptr(3), ptr(-3)]);
    assert_eq!(out, vec![ptr(1), write()]);
}

#[test]
fn dead_loops_are_removed() {
    let out = run_pass(Pass::RemoveDeadLoops, &[assign(0), lp(vec![write()]), lp(vec![read()]), inc(1), lp(vec![])]);
    assert_eq!(out, vec![assign(0), inc(1), lp(vec![])]);
}

#[test]
fn speculative_runs_are_deterministic() {
    let prog = vec![inc(7), lp(vec![inc(-1), inc_at(1, 3), ptr(1), write(), ptr(-1)]), read(), write()];
    let (a, wa) = execute(&prog, 30);
    let (b, wb) = execute(&prog, 30);
    assert_eq!(a.cells, b.cells);
    assert_eq!(a.outputs, b.outputs);
    assert_eq!(a.start_instr, b.start_instr);
    assert_eq!(a.cell_ptr, b.cell_ptr);
    assert_eq!(wa.is_some(), wb.is_some());
    assert_eq!(a.start_instr, Some(1));
    assert!(wa.is_some());
}

#[test]
fn initial_state_is_zeroed() {
    let s = ExecutionState::initial();
    assert_eq!(s.cells.len(), TAPE_SIZE);
    assert!(s.cells.iter().all(|c| *c == 0));
    assert_eq!(s.cell_ptr, 0);
    assert_eq!(s.start_instr, None);
}

#[test]
fn c_program_for_simple_nodes() {
    let prog = vec![inc(3), ptr(-2), ptr(4), ptr(0), write(), read()];
    let expected = format!(
        "{}{}{}{}{}{}{}{}}}",
        HEADER,
        "*(ptr + 0) += 3;",
        "if ((ptr + -2) < c) { raise(SIGSEGV); };",
        "ptr += -2;",
        "if ((ptr + 4) >= (c + NUM_CELLS)) { raise(SIGSEGV); };",
        "ptr += 4;",
        "printf(\"%c\", *ptr);",
        "scanf(\"%c\", ptr);",
    );
    assert_eq!(c_prog_from_instructions(&prog), expected);
}

#[test]
fn c_program_for_loops_and_multiply() {
    let prog = vec![
        assign(-5),
        lp(vec![inc_at(-1, 2)]),
        mul(vec![(-1, 3), (1, 0), (2, -2)]),
        AstNode::Write { offset: 3, position: None },
    ];
    let expected = format!(
        "{}{}{}{}{}{}}}",
        HEADER,
        "*(ptr + 0) = -5;",
        "while(*ptr) {*(ptr + 2) += -1;}",
        "target = ptr + -1;*target += (*ptr) * 3;",
        "target = ptr + 2;*target += (*ptr) * -2;*ptr = 0;",
        "printf(\"%c\", *(ptr + 3));",
    );
    assert_eq!(c_prog_from_instructions(&prog), expected);
}

#[test]
fn empty_program_is_header_and_brace() {
    assert_eq!(c_prog_from_instructions(&[]), format!("{}}}", HEADER));
}

#[test]
fn decimal_text_of_extremes() {
    let mut s = String::new();
    push_int(&mut s, i64::MIN);
    assert_eq!(s, "-9223372036854775808");
    let mut t = String::from("x");
    push_int(&mut t, 1234567890);
    assert_eq!(t, "x1234567890");
    let mut z = String::new();
    push_int(&mut z, 0);
    assert_eq!(z, "0");
}

#[test]
fn finished_program_folds_to_its_output() {
    let prog = vec![inc(1), inc(1), write(), ptr(1), inc(-1), write()];
    let folded = fold_to_output(&prog, 100).unwrap();
    assert_eq!(folded, vec![assign(2), write(), assign(-1), write()]);
    let (state, warning) = execute(&folded, 100);
    assert!(warning.is_none());
    assert_eq!(state.outputs, vec![2, -1]);
}

#[test]
fn program_that_reads_does_not_fold() {
    assert!(fold_to_output(&[inc(1), read(), write()], 100).is_none());
    assert!(fold_to_output(&[inc(1), lp(vec![])], 100).is_none());
    assert_eq!(fold_to_output(&[], 100).unwrap(), vec![]);
}

#[test]
fn leaving_the_tape_is_reported_distinctly() {
    let (state, warning) = execute(&[inc(1), write(), ptr(-1)], 100);
    assert_eq!(warning.unwrap().message, "pointer left the tape during execution");
    assert_eq!(state.start_instr, Some(0));
    assert!(state.outputs.is_empty());
    assert_eq!(state.cells[0], 0);
}

#[test]
fn multiply_factors_are_written_in_offset_order() {
    let a = c_prog_from_instructions(&[mul(vec![(1, 2), (2, 3)])]);
    let b = c_prog_from_instructions(&[mul(vec![(2, 3), (1, 2)])]);
    assert_eq!(a, b);
    let expected = format!(
        "{}{}{}}}",
        HEADER,
        "target = ptr + 1;*target += (*ptr) * 2;target = ptr + 2;*target += (*ptr) * 3;",
        "*ptr = 0;",
    );
    assert_eq!(a, expected);
    let c = c_prog_from_instructions(&[mul(vec![(5, 1), (-3, 4), (0, 0), (2, -1)])]);
    let d = c_prog_from_instructions(&[mul(vec![(-3, 4), (2, -1), (5, 1), (0, 0)])]);
    assert_eq!(c, d);
}

#[test]
fn budget_warning_points_at_the_suspended_node() {
    let here = Some(Position { start: 4, end: 7 });
    let prog = vec![
        inc(1),
        AstNode::Loop { body: vec![], position: here },
        write(),
    ];
    let (state, warning) = execute(&prog, 1000);
    let w = warning.unwrap();
    assert_eq!(w.message, "exceeded execution step budget");
    assert_eq!(w.position, here);
    assert_eq!(state.start_instr, Some(1));
    let (_, again) = execute(&prog, 1000);
    assert_eq!(again.unwrap().position, here);
}

#[test]
fn out_of_tape_warning_points_at_the_motion() {
    let here = Some(Position { start: 2, end: 2 });
    let prog = vec![inc(1), write(), AstNode::PointerIncrement { amount: -1, position: here }];
    let (_, warning) = execute(&prog, 100);
    assert_eq!(warning.unwrap().position, here);
}

#[test]
fn optimizer_reaches_fixpoint_without_warning() {
    let prog = vec![inc(1), inc(1), lp(vec![inc(-1), ptr(1), inc(3), ptr(-1)]), write()];
    let (out, warnings) = optimize(prog, &None);
    assert!(warnings.is_empty());
    let (again, more) = optimize(copy_program(&out), &None);
    assert!(more.is_empty());
    assert_eq!(out, again);
}

#[test]
fn optimize_with_increment_coalescing_alone() {
    let run: Vec<AstNode> = (0..200).map(|_| inc_at(1, 3)).collect();
    let (out, warnings) = optimize(run, &Some(vec![Pass::CombineIncrements]));
    assert!(warnings.is_empty());
    assert_eq!(out, vec![inc_at(-56, 3)]);
    let expected = format!("{}*(ptr + 3) += -56;}}", HEADER);
    assert_eq!(c_prog_from_instructions(&out), expected);
}
