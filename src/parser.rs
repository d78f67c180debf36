use vstd::prelude::*;
use vstd::string::StringSliceAdditionalSpecFns;
use crate::bfir::{AstNode, Node, Position, view_node, view_nodes, lemma_view_nodes_push};

verus! {

/// The command characters, as bytes.
pub const PLUS: u8 = 43;
pub const MINUS: u8 = 45;
pub const RIGHT: u8 = 62;
pub const LEFT: u8 = 60;
pub const COMMA: u8 = 44;
pub const DOT: u8 = 46;
pub const OPEN: u8 = 91;
pub const CLOSE: u8 = 93;

/// Why source text could not be read, and where.
#[derive(Debug)]
pub struct ParseError {
    pub message: String,
    pub position: Position,
}

/// The node that a command byte stands for; brackets and every other byte
/// stand for none.
pub open spec fn command_node(c: u8) -> Option<Node> {
    if c == PLUS {
        Some(Node::Increment { amount: 1, offset: 0 })
    } else if c == MINUS {
        Some(Node::Increment { amount: -1i8, offset: 0 })
    } else if c == RIGHT {
        Some(Node::PointerIncrement { amount: 1 })
    } else if c == LEFT {
        Some(Node::PointerIncrement { amount: -1 })
    } else if c == COMMA {
        Some(Node::Read { offset: 0 })
    } else if c == DOT {
        Some(Node::Write { offset: 0 })
    } else {
        None
    }
}

/// `n` appended to the innermost open sequence of `st`.
pub open spec fn append_inner(st: Seq<(Seq<Node>, int)>, n: Node) -> Seq<(Seq<Node>, int)> {
    st.update(st.len() - 1, (st.last().0.push(n), st.last().1))
}

/// The open sequences after reading the first `i` bytes: the program so far,
/// then each loop not yet closed with the index of its `[`. An error gives
/// the index of a `]` that closes nothing.
pub open spec fn parse_prefix(src: Seq<u8>, i: int) -> Result<Seq<(Seq<Node>, int)>, int>
    decreases i,
{
    if i <= 0 {
        Ok(seq![(Seq::<Node>::empty(), 0int)])
    } else {
        match parse_prefix(src, i - 1) {
            Err(p) => Err(p),
            Ok(st) => {
                let c = src[i - 1];
                if c == OPEN {
                    Ok(st.push((Seq::<Node>::empty(), i - 1)))
                } else if c == CLOSE {
                    if st.len() <= 1 {
                        Err(i - 1)
                    } else {
                        Ok(append_inner(st.drop_last(), Node::Loop { body: st.last().0 }))
                    }
                } else {
                    match command_node(c) {
                        Some(n) => Ok(append_inner(st, n)),
                        None => Ok(st),
                    }
                }
            },
        }
    }
}

/// Once a `]` closes nothing, reading further keeps that error.
proof fn lemma_parse_error_stays(src: Seq<u8>, j: int, k: int)
    requires
        0 <= j <= k,
        parse_prefix(src, j) is Err,
    ensures
        parse_prefix(src, k) == parse_prefix(src, j),
    decreases k - j,
{
    if k > j {
        lemma_parse_error_stays(src, j, k - 1);
    }
}

/// The program read from `src`, or the error: `(true, p)` for a `]` at `p`
/// that closes nothing, `(false, p)` for a `[` at `p` that is never closed.
pub open spec fn parse_result(src: Seq<u8>) -> Result<Seq<Node>, (bool, int)> {
    match parse_prefix(src, src.len() as int) {
        Err(p) => Err((true, p)),
        Ok(st) => if st.len() > 1 { Err((false, st.last().1)) } else { Ok(st[0].0) },
    }
}

pub open spec fn stack_view(st: Seq<(Vec<AstNode>, usize)>) -> Seq<(Seq<Node>, int)> {
    Seq::new(st.len(), |k: int| (view_nodes(st[k].0@), st[k].1 as int))
}

fn command(c: u8, index: usize) -> (r: Option<AstNode>)
    ensures
        r is Some <==> command_node(c) is Some,
        r is Some ==> command_node(c) == Some(view_node(r->0)),
{
    let position = Some(Position { start: index, end: index });
    if c == PLUS {
        Some(AstNode::Increment { amount: 1, offset: 0, position })
    } else if c == MINUS {
        Some(AstNode::Increment { amount: -1, offset: 0, position })
    } else if c == RIGHT {
        Some(AstNode::PointerIncrement { amount: 1, position })
    } else if c == LEFT {
        Some(AstNode::PointerIncrement { amount: -1, position })
    } else if c == COMMA {
        Some(AstNode::Read { offset: 0, position })
    } else if c == DOT {
        Some(AstNode::Write { offset: 0, position })
    } else {
        None
    }
}

fn append_to_inner(stack: &mut Vec<(Vec<AstNode>, usize)>, n: AstNode)
    requires
        old(stack)@.len() >= 1,
    ensures
        final(stack)@.len() == old(stack)@.len(),
        stack_view(final(stack)@) == append_inner(stack_view(old(stack)@), view_node(n)),
{
    let ghost before = stack_view(stack@);
    let (mut nodes, open) = stack.pop().unwrap();
    proof { lemma_view_nodes_push(nodes@, n); }
    nodes.push(n);
    stack.push((nodes, open));
    assert(stack_view(stack@) =~= append_inner(before, view_node(n)));
}

/// Reads source text: one node per command character, loop bodies nested
/// between matching brackets, every other character ignored. Each node
/// carries the byte index of its character; a loop spans its brackets.
pub fn parse(source: &str) -> (r: Result<Vec<AstNode>, ParseError>)
    ensures
        match parse_result(source.spec_bytes()) {
            Ok(ns) => r is Ok && view_nodes(r->Ok_0@) == ns,
            Err((closing, p)) => r is Err && r->Err_0.position.start == p && r->Err_0.position.end == p
                && r->Err_0.message@ == (if closing { "This ] has no matching ["@ } else { "This [ has no matching ]"@ }),
        },
{
    let bytes = source.as_bytes();
    let ghost src = source.spec_bytes();
    let mut stack: Vec<(Vec<AstNode>, usize)> = Vec::new();
    stack.push((Vec::new(), 0));
    assert(stack_view(stack@) =~= seq![(Seq::<Node>::empty(), 0int)]);
    let mut i: usize = 0;
    while i < bytes.len()
        invariant
            bytes@ == src,
            src == source.spec_bytes(),
            i <= src.len(),
            stack@.len() >= 1,
            parse_prefix(src, i as int) == Ok::<Seq<(Seq<Node>, int)>, int>(stack_view(stack@)),
        decreases src.len() - i,
    {
        let c = bytes[i];
        let ghost st = stack_view(stack@);
        if c == OPEN {
            stack.push((Vec::new(), i));
            assert(stack_view(stack@) =~= st.push((Seq::<Node>::empty(), i as int)));
        } else if c == CLOSE {
            if stack.len() == 1 {
                assert(st.len() == 1);
                assert(src[i as int] == CLOSE);
                assert(parse_prefix(src, i + 1) == Err::<Seq<(Seq<Node>, int)>, int>(i as int));
                proof { lemma_parse_error_stays(src, i + 1, src.len() as int); }
                return Err(ParseError {
                    message: String::from_str("This ] has no matching ["),
                    position: Position { start: i, end: i },
                });
            }
            let (body, open) = stack.pop().unwrap();
            assert(stack_view(stack@) =~= st.drop_last());
            let node = AstNode::Loop { body, position: Some(Position { start: open, end: i }) };
            assert(view_node(node) == (Node::Loop { body: st.last().0 }));
            append_to_inner(&mut stack, node);
        } else {
            match command(c, i) {
                Some(n) => {
                    append_to_inner(&mut stack, n);
                },
                None => {},
            }
        }
        i = i + 1;
    }
    if stack.len() > 1 {
        let open = stack[stack.len() - 1].1;
        return Err(ParseError {
            message: String::from_str("This [ has no matching ]"),
            position: Position { start: open, end: open },
        });
    }
    let (nodes, _) = stack.pop().unwrap();
    Ok(nodes)
}

} // verus!
