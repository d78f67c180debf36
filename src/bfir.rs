use vstd::prelude::*;

verus! {

/// A span of the source text, in bytes.
#[derive(Clone, Copy, Debug, PartialEq, Eq)]
pub struct Position {
    pub start: usize,
    pub end: usize,
}

/// One node of the intermediate representation. Cell values wrap at 8 bits;
/// offsets are relative to the pointer when the node starts.
#[derive(Debug, PartialEq, Eq)]
pub enum AstNode {
    Increment { amount: i8, offset: i64, position: Option<Position> },
    PointerIncrement { amount: i64, position: Option<Position> },
    Read { offset: i64, position: Option<Position> },
    Write { offset: i64, position: Option<Position> },
    Loop { body: Vec<AstNode>, position: Option<Position> },
    Assign { amount: i8, offset: i64, position: Option<Position> },
    /// Adds the current cell times each factor to the cell at its offset,
    /// then zeroes the current cell. Offsets ascend strictly.
    MultiplyMove { changes: Vec<(i64, i8)>, position: Option<Position> },
}

/// A non-fatal note from a pass, tied to a source span where one is known.
#[derive(Debug)]
pub struct Warning {
    pub message: String,
    pub position: Option<Position>,
}

/// A fresh copy of a list of changes.
pub fn copy_changes(c: &Vec<(i64, i8)>) -> (r: Vec<(i64, i8)>)
    ensures
        r@ == c@,
{
    let mut r: Vec<(i64, i8)> = Vec::new();
    let mut i: usize = 0;
    while i < c.len()
        invariant
            i <= c@.len(),
            r@ == c@.subrange(0, i as int),
        decreases c@.len() - i,
    {
        r.push(c[i]);
        i = i + 1;
        assert(r@ =~= c@.subrange(0, i as int));
    }
    assert(c@.subrange(0, c@.len() as int) =~= c@);
    r
}

/// Node-by-node equality of two programs, ignoring source positions.
pub fn nodes_equal(a: &[AstNode], b: &[AstNode]) -> (r: bool)
    ensures
        r == (view_nodes(a@) == view_nodes(b@)),
    decreases a@,
{
    proof {
        lemma_view_nodes(a@);
        lemma_view_nodes(b@);
    }
    if a.len() != b.len() {
        return false;
    }
    let mut i: usize = 0;
    while i < a.len()
        invariant
            i <= a@.len(),
            a@.len() == b@.len(),
            view_nodes(a@).len() == a@.len(),
            view_nodes(b@).len() == b@.len(),
            forall|j: int| 0 <= j < a@.len() ==> #[trigger] view_nodes(a@)[j] == view_node(a@[j]),
            forall|j: int| 0 <= j < b@.len() ==> #[trigger] view_nodes(b@)[j] == view_node(b@[j]),
            forall|j: int| 0 <= j < i ==> view_node(#[trigger] a@[j]) == view_node(b@[j]),
        decreases a@.len() - i,
    {
        proof {
            assert(decreases_to!(a@ => a@[i as int]));
        }
        if !node_equal(&a[i], &b[i]) {
            assert(view_nodes(a@)[i as int] != view_nodes(b@)[i as int]);
            return false;
        }
        i = i + 1;
    }
    assert(view_nodes(a@) =~= view_nodes(b@));
    true
}

fn changes_equal(a: &Vec<(i64, i8)>, b: &Vec<(i64, i8)>) -> (r: bool)
    ensures
        r == (a@.map_values(|c: (i64, i8)| change_view(c)) == b@.map_values(|c: (i64, i8)| change_view(c))),
{
    let ghost va = a@.map_values(|c: (i64, i8)| change_view(c));
    let ghost vb = b@.map_values(|c: (i64, i8)| change_view(c));
    if a.len() != b.len() {
        assert(va.len() != vb.len());
        return false;
    }
    let mut i: usize = 0;
    while i < a.len()
        invariant
            i <= a@.len(),
            a@.len() == b@.len(),
            va == a@.map_values(|c: (i64, i8)| change_view(c)),
            vb == b@.map_values(|c: (i64, i8)| change_view(c)),
            forall|j: int| 0 <= j < i ==> va[j] == vb[j],
        decreases a@.len() - i,
    {
        if a[i].0 != b[i].0 || a[i].1 != b[i].1 {
            assert(va[i as int] != vb[i as int]);
            return false;
        }
        i = i + 1;
    }
    assert(va =~= vb);
    true
}

/// Equality of two nodes, ignoring source positions.
pub fn node_equal(a: &AstNode, b: &AstNode) -> (r: bool)
    ensures
        r == (view_node(*a) == view_node(*b)),
    decreases *a,
{
    match (a, b) {
        (AstNode::Increment { amount: x, offset: o, .. }, AstNode::Increment { amount: y, offset: p, .. }) => *x == *y && *o == *p,
        (AstNode::Assign { amount: x, offset: o, .. }, AstNode::Assign { amount: y, offset: p, .. }) => *x == *y && *o == *p,
        (AstNode::PointerIncrement { amount: x, .. }, AstNode::PointerIncrement { amount: y, .. }) => *x == *y,
        (AstNode::Read { offset: o, .. }, AstNode::Read { offset: p, .. }) => *o == *p,
        (AstNode::Write { offset: o, .. }, AstNode::Write { offset: p, .. }) => *o == *p,
        (AstNode::Loop { body: x, .. }, AstNode::Loop { body: y, .. }) => nodes_equal(x.as_slice(), y.as_slice()),
        (AstNode::MultiplyMove { changes: x, .. }, AstNode::MultiplyMove { changes: y, .. }) => changes_equal(x, y),
        _ => false,
    }
}

/// The source span a node carries.
pub open spec fn position_of(n: AstNode) -> Option<Position> {
    match n {
        AstNode::Increment { position, .. } => position,
        AstNode::PointerIncrement { position, .. } => position,
        AstNode::Read { position, .. } => position,
        AstNode::Write { position, .. } => position,
        AstNode::Loop { position, .. } => position,
        AstNode::Assign { position, .. } => position,
        AstNode::MultiplyMove { position, .. } => position,
    }
}

impl AstNode {
    pub fn position(&self) -> (r: Option<Position>)
        ensures
            r == position_of(*self),
    {
        match self {
            AstNode::Increment { position, .. } => *position,
            AstNode::PointerIncrement { position, .. } => *position,
            AstNode::Read { position, .. } => *position,
            AstNode::Write { position, .. } => *position,
            AstNode::Loop { position, .. } => *position,
            AstNode::Assign { position, .. } => *position,
            AstNode::MultiplyMove { position, .. } => *position,
        }
    }
}

/// The meaning of a node, without its source position.
pub enum Node {
    Increment { amount: i8, offset: int },
    PointerIncrement { amount: int },
    Read { offset: int },
    Write { offset: int },
    Loop { body: Seq<Node> },
    Assign { amount: i8, offset: int },
    MultiplyMove { changes: Seq<(int, i8)> },
}

pub open spec fn change_view(c: (i64, i8)) -> (int, i8) {
    (c.0 as int, c.1)
}

pub open spec fn view_node(n: AstNode) -> Node
    decreases n,
{
    match n {
        AstNode::Increment { amount, offset, .. } => Node::Increment { amount, offset: offset as int },
        AstNode::PointerIncrement { amount, .. } => Node::PointerIncrement { amount: amount as int },
        AstNode::Read { offset, .. } => Node::Read { offset: offset as int },
        AstNode::Write { offset, .. } => Node::Write { offset: offset as int },
        AstNode::Loop { body, .. } => Node::Loop { body: view_nodes(body@) },
        AstNode::Assign { amount, offset, .. } => Node::Assign { amount, offset: offset as int },
        AstNode::MultiplyMove { changes, .. } => Node::MultiplyMove {
            changes: changes@.map_values(|c: (i64, i8)| change_view(c)),
        },
    }
}

pub open spec fn view_nodes(s: Seq<AstNode>) -> Seq<Node>
    decreases s,
{
    if s.len() == 0 {
        Seq::empty()
    } else {
        view_nodes(s.subrange(0, s.len() - 1)).push(view_node(s[s.len() - 1]))
    }
}

pub proof fn lemma_view_nodes(s: Seq<AstNode>)
    ensures
        view_nodes(s).len() == s.len(),
        forall|i: int| 0 <= i < s.len() ==> #[trigger] view_nodes(s)[i] == view_node(s[i]),
    decreases s.len(),
{
    if s.len() > 0 {
        lemma_view_nodes(s.subrange(0, s.len() - 1));
    }
}

pub proof fn lemma_view_nodes_push(s: Seq<AstNode>, x: AstNode)
    ensures
        view_nodes(s.push(x)) == view_nodes(s).push(view_node(x)),
{
    assert(s.push(x).subrange(0, s.len() as int) =~= s);
}

pub proof fn lemma_view_nodes_drop_last(s: Seq<AstNode>)
    requires
        s.len() > 0,
    ensures
        view_nodes(s.subrange(0, s.len() - 1)) == view_nodes(s).drop_last(),
{
    lemma_view_nodes(s);
    lemma_view_nodes(s.subrange(0, s.len() - 1));
    assert(view_nodes(s.subrange(0, s.len() - 1)) =~= view_nodes(s).drop_last());
}


} // verus!
