use bfc::bfir::{AstNode, Position};
use bfc::bounds::{analyze_motions, BoundsCheck};
use bfc::execution::{execute, TAPE_SIZE};
use bfc::parser::parse;
use bfc::peephole::optimize;

fn strip(nodes: Vec<AstNode>) -> Vec<AstNode> {
    nodes
        .into_iter()
        .map(|n| match n {
            AstNode::Increment { amount, offset, .. } => AstNode::Increment { amount, offset, position: None },
            AstNode::PointerIncrement { amount, .. } => AstNode::PointerIncrement { amount, position: None },
            AstNode::Read { offset, .. } => AstNode::Read { offset, position: None },
            AstNode::Write { offset, .. } => AstNode::Write { offset, position: None },
            AstNode::Loop { body, .. } => AstNode::Loop { body: strip(body), position: None },
            AstNode::Assign { amount, offset, .. } => AstNode::Assign { amount, offset, position: None },
            AstNode::MultiplyMove { changes, .. } => AstNode::MultiplyMove { changes, position: None },
        })
        .collect()
}

#[test]
fn parse_reads_commands_and_skips_comments() {
    let nodes = parse("a+b-\n>,<.").ok().unwrap();
    assert_eq!(
        nodes,
        vec![
            AstNode::Increment { amount: 1, offset: 0, position: Some(Position { start: 1, end: 1 }) },
            AstNode::Increment { amount: -1, offset: 0, position: Some(Position { start: 3, end: 3 }) },
            AstNode::PointerIncrement { amount: 1, position: Some(Position { start: 5, end: 5 }) },
            AstNode::Read { offset: 0, position: Some(Position { start: 6, end: 6 }) },
            AstNode::PointerIncrement { amount: -1, position: Some(Position { start: 7, end: 7 }) },
            AstNode::Write { offset: 0, position: Some(Position { start: 8, end: 8 }) },
        ]
    );
}

#[test]
fn parse_nests_loops_with_their_span() {
    let nodes = parse("[+[-]]").ok().unwrap();
    let inner = AstNode::Loop {
        body: vec![AstNode::Increment { amount: -1, offset: 0, position: Some(Position { start: 3, end: 3 }) }],
        position: Some(Position { start: 2, end: 4 }),
    };
    let outer = AstNode::Loop {
        body: vec![AstNode::Increment { amount: 1, offset: 0, position: Some(Position { start: 1, end: 1 }) }, inner],
        position: Some(Position { start: 0, end: 5 }),
    };
    assert_eq!(nodes, vec![outer]);
}

#[test]
fn parse_rejects_unmatched_close() {
    let err = parse("+]").err().unwrap();
    assert_eq!(err.message, "This ] has no matching [");
    assert_eq!(err.position, Position { start: 1, end: 1 });
}

#[test]
fn parse_rejects_unclosed_open() {
    let err = parse("[[]").err().unwrap();
    assert_eq!(err.message, "This [ has no matching ]");
    assert_eq!(err.position, Position { start: 0, end: 0 });
}

#[test]
fn parse_empty_source() {
    assert!(parse("").ok().unwrap().is_empty());
}

#[test]
fn source_three_plus_dot_evaluates_to_three() {
    let prog = parse("+++.").ok().unwrap();
    let (state, warning) = execute(&prog, 4);
    assert!(warning.is_none());
    assert_eq!(state.start_instr, None);
    assert_eq!(state.outputs, vec![3]);
}

#[test]
fn source_clear_loop_fuses() {
    let (out, _) = optimize(parse("[-]").ok().unwrap(), &None);
    assert_eq!(strip(out), vec![AstNode::MultiplyMove { changes: vec![], position: None }]);
}

#[test]
fn source_move_then_read_suspends() {
    let prog = parse(">,").ok().unwrap();
    let (state, warning) = execute(&prog, 1000);
    assert!(warning.is_none());
    assert_eq!(state.start_instr, Some(1));
    assert_eq!(state.cell_ptr, 1);
    assert!(state.outputs.is_empty());
}

#[test]
fn source_transfer_loop_fuses_and_evaluates() {
    let (out, _) = optimize(parse("++++[->++<]").ok().unwrap(), &None);
    let (again, _) = optimize(parse("++++[->++<]").ok().unwrap(), &None);
    assert_eq!(
        strip(again),
        vec![
            AstNode::Increment { amount: 4, offset: 0, position: None },
            AstNode::MultiplyMove { changes: vec![(1, 2)], position: None },
        ]
    );
    let (state, warning) = execute(&out, 10_000_000);
    assert!(warning.is_none());
    assert_eq!(state.start_instr, None);
    assert_eq!(state.cells[0], 0);
    assert_eq!(state.cells[1], 8);
    let (raw, raw_warning) = execute(&parse("++++[->++<]").ok().unwrap(), 10_000_000);
    assert!(raw_warning.is_none());
    assert_eq!(raw.cells, state.cells);
}

#[test]
fn source_move_left_at_origin() {
    assert_eq!(analyze_motions(&[-1], 0, 0, TAPE_SIZE), BoundsCheck::RequiresGuard);
    let (state, warning) = execute(&parse("<").ok().unwrap(), 1000);
    assert_eq!(warning.unwrap().message, "pointer left the tape during execution");
    assert_eq!(state.start_instr, Some(0));
}

#[test]
fn source_hello_output_matches_unoptimized() {
    let src = "++++++++[>++++[>++>+++>+++>+<<<<-]>+>+>->>+[<]<-]>>.>---.+++++++..+++.>>.<-.<.+++.------.--------.>>+.";
    let raw = parse(src).ok().unwrap();
    let (a, wa) = execute(&raw, 10_000_000);
    let (opt, _) = optimize(parse(src).ok().unwrap(), &None);
    let (b, wb) = execute(&opt, 10_000_000);
    assert!(wa.is_none() && wb.is_none());
    assert_eq!(a.outputs, b.outputs);
    assert_eq!(a.cells, b.cells);
    let text: Vec<u8> = a.outputs.iter().map(|c| *c as u8).collect();
    assert_eq!(String::from_utf8(text).unwrap(), "Hello World!");
}
