use vstd::prelude::*;
use crate::execution::{execute, speculate, Machine, Outcome, in_tape, initial_machine, run_nodes, run_node};
use crate::bfir::{
    AstNode, Node, Warning, view_node, view_nodes, lemma_view_nodes, lemma_view_nodes_push,
    lemma_view_nodes_drop_last, change_view, copy_changes, nodes_equal,
};

verus! {

/// The rewrite rules of the optimizer.
#[derive(Clone, Copy, Debug, PartialEq, Eq, Structural)]
pub enum Pass {
    /// Folds adjacent increments and assignments of one cell.
    CombineIncrements,
    /// Folds adjacent pointer motions.
    CombinePointerIncrements,
    /// Drops loops whose test fails on entry.
    RemoveDeadLoops,
    /// Turns multiply loops into a single `MultiplyMove`.
    ExtractMultiply,
    /// Moves pointer motion past the cell operations after it, which then
    /// address their cells by offset.
    PropagateOffsets,
}

/// Upper bound on the rounds of the fixpoint iteration.
pub const MAX_ROUNDS: usize = 40;

/// Whether `n` leaves the current cell at zero.
pub open spec fn zeroes_current(n: Node) -> bool {
    match n {
        Node::Assign { amount, offset } => amount == 0 && offset == 0,
        Node::Loop { .. } => true,
        Node::MultiplyMove { .. } => true,
        _ => false,
    }
}

/// `n` addressed `a` cells further along, where it addresses a cell by offset
/// and the new offset fits.
pub open spec fn shifted(n: Node, a: int) -> Option<Node> {
    match n {
        Node::Increment { amount, offset } =>
            if i64::MIN <= offset + a <= i64::MAX { Some(Node::Increment { amount, offset: offset + a }) } else { None },
        Node::Assign { amount, offset } =>
            if i64::MIN <= offset + a <= i64::MAX { Some(Node::Assign { amount, offset: offset + a }) } else { None },
        Node::Read { offset } =>
            if i64::MIN <= offset + a <= i64::MAX { Some(Node::Read { offset: offset + a }) } else { None },
        Node::Write { offset } =>
            if i64::MIN <= offset + a <= i64::MAX { Some(Node::Write { offset: offset + a }) } else { None },
        _ => None,
    }
}

/// Appends `n` to the already rewritten `acc`, folding it into the last node
/// where the rule allows.
pub open spec fn push_node(pass: Pass, acc: Seq<Node>, n: Node) -> Seq<Node> {
    match pass {
        Pass::CombineIncrements => match n {
            Node::Increment { amount: b, offset: p } =>
                if b == 0 {
                    acc
                } else if acc.len() == 0 {
                    acc.push(n)
                } else {
                    match acc.last() {
                        Node::Increment { amount: a, offset: o } =>
                            if o != p {
                                acc.push(n)
                            } else if a.wrapping_add(b) == 0 {
                                acc.drop_last()
                            } else {
                                acc.drop_last().push(Node::Increment { amount: a.wrapping_add(b), offset: o })
                            },
                        Node::Assign { amount: a, offset: o } =>
                            if o != p {
                                acc.push(n)
                            } else {
                                acc.drop_last().push(Node::Assign { amount: a.wrapping_add(b), offset: o })
                            },
                        _ => acc.push(n),
                    }
                },
            _ => acc.push(n),
        },
        Pass::CombinePointerIncrements => match n {
            Node::PointerIncrement { amount: b } =>
                if b == 0 {
                    acc
                } else if acc.len() == 0 {
                    acc.push(n)
                } else {
                    match acc.last() {
                        Node::PointerIncrement { amount: a } =>
                            if a + b == 0 {
                                acc.drop_last()
                            } else if i64::MIN <= a + b <= i64::MAX {
                                acc.drop_last().push(Node::PointerIncrement { amount: a + b })
                            } else {
                                acc.push(n)
                            },
                        _ => acc.push(n),
                    }
                },
            _ => acc.push(n),
        },
        Pass::RemoveDeadLoops =>
            if n is Loop && acc.len() > 0 && zeroes_current(acc.last()) {
                acc
            } else {
                acc.push(n)
            },
        Pass::ExtractMultiply => acc.push(n),
        Pass::PropagateOffsets =>
            if acc.len() > 0 && acc.last() is PointerIncrement && shifted(n, acc.last()->PointerIncrement_amount) is Some {
                acc.drop_last().push(shifted(n, acc.last()->PointerIncrement_amount)->0).push(acc.last())
            } else {
                acc.push(n)
            },
    }
}

/// Index at which an offset goes into a list ordered by offset.
pub open spec fn first_not_below(cs: Seq<(int, i8)>, o: int) -> int
    decreases cs.len(),
{
    if cs.len() == 0 {
        0
    } else if cs[0].0 < o {
        1 + first_not_below(cs.subrange(1, cs.len() as int), o)
    } else {
        0
    }
}

/// The factors of a multiply-loop body, ordered by offset, without the
/// current cell.
pub open spec fn changes_of(body: Seq<Node>) -> Seq<(int, i8)>
    decreases body.len(),
{
    if body.len() == 0 {
        Seq::empty()
    } else {
        let acc = changes_of(body.subrange(0, body.len() - 1));
        match body.last() {
            Node::Increment { amount, offset } =>
                if offset == 0 {
                    acc
                } else {
                    acc.insert(first_not_below(acc, offset), (offset, amount))
                },
            _ => acc,
        }
    }
}

/// A loop body that only adds constants to distinct cells and takes exactly
/// one from the current cell.
pub open spec fn fusable(body: Seq<Node>) -> bool {
    &&& forall|i: int| 0 <= i < body.len() ==> (#[trigger] body[i]) is Increment
    &&& forall|i: int, j: int|
        0 <= i < j < body.len() ==> (#[trigger] body[i])->Increment_offset != (#[trigger] body[j])->Increment_offset
    &&& exists|i: int| 0 <= i < body.len() && (#[trigger] body[i]) == (Node::Increment { amount: -1i8, offset: 0 })
}

/// A node after one rule, applied inside loop bodies first.
pub open spec fn pass_node(pass: Pass, n: Node) -> Node
    decreases n,
{
    match n {
        Node::Loop { body } => {
            let b = pass_nodes(pass, body);
            if pass == Pass::ExtractMultiply && fusable(b) {
                Node::MultiplyMove { changes: changes_of(b) }
            } else {
                Node::Loop { body: b }
            }
        },
        _ => n,
    }
}

/// A sequence after one rule, rewritten from left to right.
pub open spec fn pass_nodes(pass: Pass, s: Seq<Node>) -> Seq<Node>
    decreases s,
{
    if s.len() == 0 {
        Seq::empty()
    } else {
        push_node(pass, pass_nodes(pass, s.subrange(0, s.len() - 1)), pass_node(pass, s[s.len() - 1]))
    }
}

/// The rules in `passes`, applied in order.
pub open spec fn apply_passes(passes: Seq<Pass>, s: Seq<Node>) -> Seq<Node>
    decreases passes.len(),
{
    if passes.len() == 0 {
        s
    } else {
        pass_nodes(passes.last(), apply_passes(passes.subrange(0, passes.len() - 1), s))
    }
}

/// Rounds of `passes` until a round changes nothing, or `fuel` more rounds ran.
pub open spec fn fixpoint(passes: Seq<Pass>, s: Seq<Node>, fuel: nat) -> Seq<Node>
    decreases fuel,
{
    let t = apply_passes(passes, s);
    if t == s || fuel == 0 {
        t
    } else {
        fixpoint(passes, t, (fuel - 1) as nat)
    }
}

pub open spec fn default_passes() -> Seq<Pass> {
    seq![
        Pass::PropagateOffsets,
        Pass::CombineIncrements,
        Pass::CombinePointerIncrements,
        Pass::RemoveDeadLoops,
        Pass::ExtractMultiply,
    ]
}

/// The rules that run: the given selection, or the default order.
pub open spec fn selected(passes: Option<Seq<Pass>>) -> Seq<Pass> {
    match passes {
        Some(p) => p,
        None => default_passes(),
    }
}

/// The optimizer's result on `s`.
pub open spec fn optimized(passes: Option<Seq<Pass>>, s: Seq<Node>) -> Seq<Node> {
    fixpoint(selected(passes), s, (MAX_ROUNDS - 1) as nat)
}

/// A copy of a node that holds no loop.
fn copy_leaf(n: &AstNode) -> (r: AstNode)
    requires
        !(n is Loop),
    ensures
        view_node(r) == view_node(*n),
{
    match n {
        AstNode::Increment { amount, offset, position } =>
            AstNode::Increment { amount: *amount, offset: *offset, position: *position },
        AstNode::PointerIncrement { amount, position } => AstNode::PointerIncrement { amount: *amount, position: *position },
        AstNode::Read { offset, position } => AstNode::Read { offset: *offset, position: *position },
        AstNode::Write { offset, position } => AstNode::Write { offset: *offset, position: *position },
        AstNode::Assign { amount, offset, position } =>
            AstNode::Assign { amount: *amount, offset: *offset, position: *position },
        AstNode::MultiplyMove { changes, position } =>
            AstNode::MultiplyMove { changes: copy_changes(changes), position: *position },
        AstNode::Loop { .. } => AstNode::Read { offset: 0, position: None },
    }
}

fn push_back(r: &mut Vec<AstNode>, n: AstNode)
    ensures
        view_nodes(final(r)@) == view_nodes(old(r)@).push(view_node(n)),
{
    proof { lemma_view_nodes_push(r@, n); }
    r.push(n);
}

fn pop_back(r: &mut Vec<AstNode>) -> (last: AstNode)
    requires
        old(r)@.len() > 0,
    ensures
        view_nodes(final(r)@) == view_nodes(old(r)@).drop_last(),
        view_node(last) == view_nodes(old(r)@).last(),
{
    proof {
        lemma_view_nodes_drop_last(r@);
        lemma_view_nodes(r@);
    }
    r.pop().unwrap()
}

/// Appends `n` to `r` as `push_node` describes.
fn push_rewritten(pass: Pass, r: &mut Vec<AstNode>, n: AstNode)
    ensures
        view_nodes(final(r)@) == push_node(pass, view_nodes(old(r)@), view_node(n)),
{
    proof { lemma_view_nodes(r@); }
    match pass {
        Pass::CombineIncrements => {
            if let AstNode::Increment { amount: b, offset: p, .. } = n {
                if b == 0 {
                    return;
                }
                if r.len() == 0 {
                    push_back(r, n);
                    return;
                }
                let last = pop_back(r);
                match last {
                    AstNode::Increment { amount: a, offset: o, position } => {
                        if o != p {
                            push_back(r, AstNode::Increment { amount: a, offset: o, position });
                            push_back(r, n);
                        } else if a.wrapping_add(b) != 0 {
                            push_back(r, AstNode::Increment { amount: a.wrapping_add(b), offset: o, position });
                        }
                    },
                    AstNode::Assign { amount: a, offset: o, position } => {
                        if o != p {
                            push_back(r, AstNode::Assign { amount: a, offset: o, position });
                            push_back(r, n);
                        } else {
                            push_back(r, AstNode::Assign { amount: a.wrapping_add(b), offset: o, position });
                        }
                    },
                    _ => {
                        push_back(r, last);
                        push_back(r, n);
                    },
                }
            } else {
                push_back(r, n);
            }
        },
        Pass::CombinePointerIncrements => {
            if let AstNode::PointerIncrement { amount: b, .. } = n {
                if b == 0 {
                    return;
                }
                if r.len() == 0 {
                    push_back(r, n);
                    return;
                }
                let last = pop_back(r);
                match last {
                    AstNode::PointerIncrement { amount: a, position } => {
                        let sum: i128 = a as i128 + b as i128;
                        if sum == 0 {
                        } else if i64::MIN as i128 <= sum && sum <= i64::MAX as i128 {
                            push_back(r, AstNode::PointerIncrement { amount: sum as i64, position });
                        } else {
                            push_back(r, AstNode::PointerIncrement { amount: a, position });
                            push_back(r, n);
                        }
                    },
                    _ => {
                        push_back(r, last);
                        push_back(r, n);
                    },
                }
            } else {
                push_back(r, n);
            }
        },
        Pass::RemoveDeadLoops => {
            let dead = match n {
                AstNode::Loop { .. } => r.len() > 0 && match &r[r.len() - 1] {
                    AstNode::Assign { amount, offset, .. } => *amount == 0 && *offset == 0,
                    AstNode::Loop { .. } => true,
                    AstNode::MultiplyMove { .. } => true,
                    _ => false,
                },
                _ => false,
            };
            if !dead {
                push_back(r, n);
            }
        },
        Pass::ExtractMultiply => {
            push_back(r, n);
        },
        Pass::PropagateOffsets => {
            if r.len() == 0 {
                push_back(r, n);
                return;
            }
            let last = pop_back(r);
            if let AstNode::PointerIncrement { amount: a, .. } = last {
                match shift_node(&n, a) {
                    Some(moved) => {
                        push_back(r, moved);
                        push_back(r, last);
                    },
                    None => {
                        push_back(r, last);
                        push_back(r, n);
                    },
                }
            } else {
                push_back(r, last);
                push_back(r, n);
            }
        },
    }
}

fn shift_offset(offset: i64, a: i64) -> (r: Option<i64>)
    ensures
        r is Some <==> i64::MIN <= offset + a <= i64::MAX,
        r is Some ==> r->0 == offset + a,
{
    let t: i128 = offset as i128 + a as i128;
    if i64::MIN as i128 <= t && t <= i64::MAX as i128 {
        Some(t as i64)
    } else {
        None
    }
}

/// `n` addressed `a` cells further along, as `shifted` describes.
fn shift_node(n: &AstNode, a: i64) -> (r: Option<AstNode>)
    ensures
        r is Some <==> shifted(view_node(*n), a as int) is Some,
        r is Some ==> shifted(view_node(*n), a as int) == Some(view_node(r->0)),
{
    match n {
        AstNode::Increment { amount, offset, position } => match shift_offset(*offset, a) {
            Some(o) => Some(AstNode::Increment { amount: *amount, offset: o, position: *position }),
            None => None,
        },
        AstNode::Assign { amount, offset, position } => match shift_offset(*offset, a) {
            Some(o) => Some(AstNode::Assign { amount: *amount, offset: o, position: *position }),
            None => None,
        },
        AstNode::Read { offset, position } => match shift_offset(*offset, a) {
            Some(o) => Some(AstNode::Read { offset: o, position: *position }),
            None => None,
        },
        AstNode::Write { offset, position } => match shift_offset(*offset, a) {
            Some(o) => Some(AstNode::Write { offset: o, position: *position }),
            None => None,
        },
        _ => None,
    }
}

/// Whether a rewritten loop body has the multiply-loop shape.
fn is_fusable(body: &Vec<AstNode>) -> (r: bool)
    ensures
        r == fusable(view_nodes(body@)),
{
    let ghost vb = view_nodes(body@);
    proof { lemma_view_nodes(body@); }
    let mut found = false;
    let mut i: usize = 0;
    while i < body.len()
        invariant
            i <= body@.len(),
            vb == view_nodes(body@),
            vb.len() == body@.len(),
            forall|j: int| 0 <= j < body@.len() ==> #[trigger] vb[j] == view_node(body@[j]),
            forall|j: int| 0 <= j < i ==> (#[trigger] vb[j]) is Increment,
            forall|j: int, k: int| 0 <= j < k < i ==> (#[trigger] vb[j])->Increment_offset != (#[trigger] vb[k])->Increment_offset,
            found == exists|j: int| 0 <= j < i && (#[trigger] vb[j]) == (Node::Increment { amount: -1i8, offset: 0 }),
        decreases body@.len() - i,
    {
        match &body[i] {
            AstNode::Increment { amount, offset, .. } => {
                let mut k: usize = 0;
                while k < i
                    invariant
                        k <= i < body@.len(),
                        vb == view_nodes(body@),
                        vb.len() == body@.len(),
                        forall|j: int| 0 <= j < body@.len() ==> #[trigger] vb[j] == view_node(body@[j]),
                        forall|j: int| 0 <= j < i ==> (#[trigger] vb[j]) is Increment,
                        vb[i as int] == (Node::Increment { amount: *amount, offset: *offset as int }),
                        forall|j: int| 0 <= j < k ==> (#[trigger] vb[j])->Increment_offset != *offset as int,
                    decreases i - k,
                {
                    if let AstNode::Increment { offset: o2, .. } = &body[k] {
                        if *o2 == *offset {
                            assert(vb[k as int]->Increment_offset == vb[i as int]->Increment_offset);
                            return false;
                        }
                    }
                    k = k + 1;
                }
                if *amount == -1 && *offset == 0 {
                    found = true;
                }
            },
            _ => {
                assert(!(vb[i as int] is Increment));
                return false;
            },
        }
        i = i + 1;
    }
    found
}

pub(crate) fn insert_change(cs: &mut Vec<(i64, i8)>, c: (i64, i8))
    ensures
        final(cs)@.map_values(|x: (i64, i8)| change_view(x)) == ({
            let v = old(cs)@.map_values(|x: (i64, i8)| change_view(x));
            v.insert(first_not_below(v, c.0 as int), change_view(c))
        }),
{
    let ghost v = cs@.map_values(|x: (i64, i8)| change_view(x));
    let mut k: usize = 0;
    assert(v.subrange(0, v.len() as int) =~= v);
    while k < cs.len() && cs[k].0 < c.0
        invariant
            k <= cs@.len(),
            v == cs@.map_values(|x: (i64, i8)| change_view(x)),
            first_not_below(v, c.0 as int) == k + first_not_below(v.subrange(k as int, v.len() as int), c.0 as int),
        decreases cs@.len() - k,
    {
        let ghost rest = v.subrange(k as int, v.len() as int);
        assert(rest.subrange(1, rest.len() as int) =~= v.subrange(k + 1, v.len() as int));
        k = k + 1;
    }
    assert(v.subrange(k as int, v.len() as int).len() == 0 || v.subrange(k as int, v.len() as int)[0].0 >= c.0);
    cs.insert(k, c);
    assert(cs@.map_values(|x: (i64, i8)| change_view(x)) =~= v.insert(k as int, change_view(c)));
}

/// `cs` ordered by offset: each entry in turn goes before the first one
/// whose offset is not below its own.
pub open spec fn sorted_changes(cs: Seq<(int, i8)>) -> Seq<(int, i8)>
    decreases cs.len(),
{
    if cs.len() == 0 {
        Seq::empty()
    } else {
        let acc = sorted_changes(cs.subrange(0, cs.len() - 1));
        let c = cs[cs.len() - 1];
        acc.insert(first_not_below(acc, c.0), c)
    }
}

pub open spec fn offsets_ascending(cs: Seq<(int, i8)>) -> bool {
    forall|i: int, j: int| 0 <= i < j < cs.len() ==> (#[trigger] cs[i]).0 <= (#[trigger] cs[j]).0
}

proof fn lemma_first_not_below(cs: Seq<(int, i8)>, o: int)
    ensures
        0 <= first_not_below(cs, o) <= cs.len(),
        forall|j: int| 0 <= j < first_not_below(cs, o) ==> (#[trigger] cs[j]).0 < o,
        first_not_below(cs, o) < cs.len() ==> cs[first_not_below(cs, o)].0 >= o,
    decreases cs.len(),
{
    if cs.len() > 0 {
        let rest = cs.subrange(1, cs.len() as int);
        lemma_first_not_below(rest, o);
        if cs[0].0 < o {
            assert forall|j: int| 0 <= j < first_not_below(cs, o) implies (#[trigger] cs[j]).0 < o by {
                if j > 0 {
                    assert(cs[j] == rest[j - 1]);
                }
            }
        }
    }
}

/// Inserting where `first_not_below` says keeps offsets ascending.
proof fn lemma_insert_keeps_ascending(cs: Seq<(int, i8)>, c: (int, i8))
    requires
        offsets_ascending(cs),
    ensures
        offsets_ascending(cs.insert(first_not_below(cs, c.0), c)),
{
    let k = first_not_below(cs, c.0);
    lemma_first_not_below(cs, c.0);
    cs.insert_ensures(k, c);
    let s = cs.insert(k, c);
    assert forall|i: int, j: int| 0 <= i < j < s.len() implies (#[trigger] s[i]).0 <= (#[trigger] s[j]).0 by {
        if j < k {
            assert(s[i] == cs[i] && s[j] == cs[j]);
        } else if j == k {
            assert(s[i] == cs[i]);
        } else if i < k {
            assert(s[i] == cs[i] && s[j] == cs[j - 1]);
            assert(cs[k].0 >= c.0);
            assert(cs[k].0 <= cs[j - 1].0);
        } else if i == k {
            assert(s[j] == cs[j - 1]);
            assert(cs[k].0 >= c.0);
            if j - 1 > k {
                assert(cs[k].0 <= cs[j - 1].0);
            }
        } else {
            assert(s[i] == cs[i - 1] && s[j] == cs[j - 1]);
        }
    }
}

/// The sorted list holds the same number of entries, with offsets ascending.
pub proof fn lemma_sorted_changes_ascending(cs: Seq<(int, i8)>)
    ensures
        sorted_changes(cs).len() == cs.len(),
        offsets_ascending(sorted_changes(cs)),
    decreases cs.len(),
{
    if cs.len() > 0 {
        let pre = cs.subrange(0, cs.len() - 1);
        lemma_sorted_changes_ascending(pre);
        let acc = sorted_changes(pre);
        let c = cs[cs.len() - 1];
        lemma_first_not_below(acc, c.0);
        acc.insert_ensures(first_not_below(acc, c.0), c);
        lemma_insert_keeps_ascending(acc, c);
    }
}

/// A copy of `changes` ordered by offset, as `sorted_changes` describes.
pub fn sort_changes(changes: &Vec<(i64, i8)>) -> (r: Vec<(i64, i8)>)
    ensures
        r@.map_values(|x: (i64, i8)| change_view(x)) == sorted_changes(changes@.map_values(|x: (i64, i8)| change_view(x))),
{
    let ghost cs = changes@.map_values(|x: (i64, i8)| change_view(x));
    let mut r: Vec<(i64, i8)> = Vec::new();
    let mut i: usize = 0;
    assert(r@.map_values(|x: (i64, i8)| change_view(x)) =~= sorted_changes(cs.subrange(0, 0)));
    while i < changes.len()
        invariant
            i <= changes@.len(),
            cs == changes@.map_values(|x: (i64, i8)| change_view(x)),
            r@.map_values(|x: (i64, i8)| change_view(x)) == sorted_changes(cs.subrange(0, i as int)),
        decreases changes@.len() - i,
    {
        assert(cs.subrange(0, i + 1).subrange(0, i as int) =~= cs.subrange(0, i as int));
        assert(cs[i as int] == change_view(changes@[i as int]));
        insert_change(&mut r, changes[i]);
        i = i + 1;
    }
    assert(cs.subrange(0, changes@.len() as int) =~= cs);
    r
}

/// The factors of a fusable body, as `changes_of` orders them.
fn changes_from(body: &Vec<AstNode>) -> (r: Vec<(i64, i8)>)
    ensures
        r@.map_values(|x: (i64, i8)| change_view(x)) == changes_of(view_nodes(body@)),
{
    let ghost vb = view_nodes(body@);
    proof { lemma_view_nodes(body@); }
    let mut cs: Vec<(i64, i8)> = Vec::new();
    let mut i: usize = 0;
    assert(cs@.map_values(|x: (i64, i8)| change_view(x)) =~= changes_of(vb.subrange(0, 0)));
    while i < body.len()
        invariant
            i <= body@.len(),
            vb == view_nodes(body@),
            vb.len() == body@.len(),
            forall|j: int| 0 <= j < body@.len() ==> #[trigger] vb[j] == view_node(body@[j]),
            cs@.map_values(|x: (i64, i8)| change_view(x)) == changes_of(vb.subrange(0, i as int)),
        decreases body@.len() - i,
    {
        assert(vb.subrange(0, i + 1).subrange(0, i as int) =~= vb.subrange(0, i as int));
        if let AstNode::Increment { amount, offset, .. } = &body[i] {
            if *offset != 0 {
                insert_change(&mut cs, (*offset, *amount));
            }
        }
        i = i + 1;
    }
    assert(vb.subrange(0, body@.len() as int) =~= vb);
    cs
}

/// One node rewritten by `pass`, inside loop bodies first.
pub fn rewrite_node(pass: Pass, n: &AstNode) -> (r: AstNode)
    ensures
        view_node(r) == pass_node(pass, view_node(*n)),
    decreases *n,
{
    match n {
        AstNode::Loop { body, position } => {
            let b = run_pass(pass, body.as_slice());
            if pass == Pass::ExtractMultiply && is_fusable(&b) {
                AstNode::MultiplyMove { changes: changes_from(&b), position: *position }
            } else {
                AstNode::Loop { body: b, position: *position }
            }
        },
        _ => copy_leaf(n),
    }
}

/// A program rewritten by one rule, as `pass_nodes` describes.
pub fn run_pass(pass: Pass, instrs: &[AstNode]) -> (r: Vec<AstNode>)
    ensures
        view_nodes(r@) == pass_nodes(pass, view_nodes(instrs@)),
    decreases instrs@,
{
    let ghost vs = view_nodes(instrs@);
    proof { lemma_view_nodes(instrs@); }
    let mut r: Vec<AstNode> = Vec::new();
    let mut i: usize = 0;
    assert(view_nodes(r@) =~= pass_nodes(pass, vs.subrange(0, 0)));
    while i < instrs.len()
        invariant
            i <= instrs@.len(),
            vs == view_nodes(instrs@),
            vs.len() == instrs@.len(),
            forall|j: int| 0 <= j < instrs@.len() ==> #[trigger] vs[j] == view_node(instrs@[j]),
            view_nodes(r@) == pass_nodes(pass, vs.subrange(0, i as int)),
        decreases instrs@.len() - i,
    {
        assert(vs.subrange(0, i + 1).subrange(0, i as int) =~= vs.subrange(0, i as int));
        proof {
            assert(decreases_to!(instrs@ => instrs@[i as int]));
        }
        let n = rewrite_node(pass, &instrs[i]);
        push_rewritten(pass, &mut r, n);
        i = i + 1;
    }
    assert(vs.subrange(0, instrs@.len() as int) =~= vs);
    r
}

/// One round: each rule of `passes` in order.
pub fn run_passes(passes: &Vec<Pass>, instrs: &[AstNode]) -> (r: Vec<AstNode>)
    ensures
        view_nodes(r@) == apply_passes(passes@, view_nodes(instrs@)),
{
    let mut cur = copy_program(instrs);
    let mut i: usize = 0;
    assert(passes@.subrange(0, 0) =~= Seq::<Pass>::empty());
    while i < passes.len()
        invariant
            i <= passes@.len(),
            view_nodes(cur@) == apply_passes(passes@.subrange(0, i as int), view_nodes(instrs@)),
        decreases passes@.len() - i,
    {
        assert(passes@.subrange(0, i + 1).subrange(0, i as int) =~= passes@.subrange(0, i as int));
        cur = run_pass(passes[i], cur.as_slice());
        i = i + 1;
    }
    assert(passes@.subrange(0, passes@.len() as int) =~= passes@);
    cur
}

/// A copy of a program, node for node.
pub fn copy_program(instrs: &[AstNode]) -> (r: Vec<AstNode>)
    ensures
        view_nodes(r@) == view_nodes(instrs@),
    decreases instrs@,
{
    proof { lemma_view_nodes(instrs@); }
    let mut r: Vec<AstNode> = Vec::new();
    let mut i: usize = 0;
    while i < instrs.len()
        invariant
            i <= instrs@.len(),
            view_nodes(instrs@).len() == instrs@.len(),
            forall|j: int| 0 <= j < instrs@.len() ==> #[trigger] view_nodes(instrs@)[j] == view_node(instrs@[j]),
            view_nodes(r@) == view_nodes(instrs@).subrange(0, i as int),
        decreases instrs@.len() - i,
    {
        proof {
            assert(decreases_to!(instrs@ => instrs@[i as int]));
        }
        let n = match &instrs[i] {
            AstNode::Loop { body, position } => AstNode::Loop { body: copy_program(body.as_slice()), position: *position },
            other => copy_leaf(other),
        };
        push_back(&mut r, n);
        i = i + 1;
        assert(view_nodes(r@) =~= view_nodes(instrs@).subrange(0, i as int));
    }
    assert(view_nodes(instrs@).subrange(0, instrs@.len() as int) =~= view_nodes(instrs@));
    r
}

/// Optimizes `instrs` with the selected rules (all of them, in the default
/// order, when `passes` is `None`), round after round, until a round changes
/// nothing or `MAX_ROUNDS` rounds ran. It warns, once, exactly when the
/// result is not yet a fixpoint of the rules, that is when the round limit cut
/// it short.
pub fn optimize(instrs: Vec<AstNode>, passes: &Option<Vec<Pass>>) -> (r: (Vec<AstNode>, Vec<Warning>))
    ensures
        view_nodes(r.0@) == optimized(
            match passes {
                Some(p) => Some(p@),
                None => None,
            },
            view_nodes(instrs@),
        ),
        r.1@.len() <= 1,
        (r.1@.len() == 0) == (apply_passes(
            selected(
                match passes {
                    Some(p) => Some(p@),
                    None => None,
                },
            ),
            view_nodes(r.0@),
        ) == view_nodes(r.0@)),
{
    let chosen: Vec<Pass> = match passes {
        Some(p) => {
            let mut c: Vec<Pass> = Vec::new();
            let mut i: usize = 0;
            while i < p.len()
                invariant
                    i <= p@.len(),
                    c@ == p@.subrange(0, i as int),
                decreases p@.len() - i,
            {
                c.push(p[i]);
                i = i + 1;
                assert(c@ =~= p@.subrange(0, i as int));
            }
            assert(p@.subrange(0, p@.len() as int) =~= p@);
            c
        },
        None => vec![
            Pass::PropagateOffsets,
            Pass::CombineIncrements,
            Pass::CombinePointerIncrements,
            Pass::RemoveDeadLoops,
            Pass::ExtractMultiply,
        ],
    };
    let ghost ps = selected(
        match passes {
            Some(p) => Some(p@),
            None => None,
        },
    );
    assert(chosen@ =~= ps);
    let ghost target = fixpoint(ps, view_nodes(instrs@), (MAX_ROUNDS - 1) as nat);
    let mut cur = instrs;
    let mut round: usize = 0;
    loop
        invariant
            round < MAX_ROUNDS,
            chosen@ == ps,
            ps == selected(
                match passes {
                    Some(p) => Some(p@),
                    None => None,
                },
            ),
            target == optimized(
                match passes {
                    Some(p) => Some(p@),
                    None => None,
                },
                view_nodes(instrs@),
            ),
            fixpoint(ps, view_nodes(cur@), (MAX_ROUNDS - 1 - round) as nat) == target,
        decreases MAX_ROUNDS - round,
    {
        let next = run_passes(&chosen, cur.as_slice());
        if nodes_equal(next.as_slice(), cur.as_slice()) {
            return (next, Vec::new());
        }
        if round == MAX_ROUNDS - 1 {
            let check = run_passes(&chosen, next.as_slice());
            if nodes_equal(check.as_slice(), next.as_slice()) {
                return (next, Vec::new());
            }
            let mut warnings: Vec<Warning> = Vec::new();
            warnings.push(Warning {
                message: String::from_str("optimization stopped at the round limit before reaching a fixpoint"),
                position: None,
            });
            return (next, warnings);
        }
        cur = next;
        round = round + 1;
    }
}

/// Re-running the optimizer on its own output changes nothing, whenever the
/// rounds reached a fixpoint within the round limit (when `optimize` gave no
/// warning).
pub proof fn lemma_optimize_idempotent(passes: Option<Seq<Pass>>, s: Seq<Node>)
    requires
        apply_passes(selected(passes), optimized(passes, s)) == optimized(passes, s),
    ensures
        optimized(passes, optimized(passes, s)) == optimized(passes, s),
{
}

/// An 8-bit cell value congruent to `k` modulo 256.
pub open spec fn wrap8(k: int) -> i8 {
    if k % 256 > 127 {
        (k % 256 - 256) as i8
    } else {
        (k % 256) as i8
    }
}

/// `k` increments of one at the same offset.
pub open spec fn unit_increments(k: nat, offset: int) -> Seq<Node> {
    Seq::new(k, |i: int| Node::Increment { amount: 1, offset })
}

/// Coalescing a run of `k` unit increments at one offset leaves one increment
/// of `k` modulo 256, or nothing when that is zero.
pub proof fn lemma_coalesce_unit_increments(k: nat, offset: int)
    ensures
        pass_nodes(Pass::CombineIncrements, unit_increments(k, offset)) == if k % 256 == 0 {
            Seq::<Node>::empty()
        } else {
            seq![Node::Increment { amount: wrap8(k as int), offset }]
        },
    decreases k,
{
    let s = unit_increments(k, offset);
    if k > 0 {
        assert(s.subrange(0, k - 1) =~= unit_increments((k - 1) as nat, offset));
        lemma_coalesce_unit_increments((k - 1) as nat, offset);
        let prev = pass_nodes(Pass::CombineIncrements, s.subrange(0, k - 1));
        assert(pass_node(Pass::CombineIncrements, s[k - 1]) == (Node::Increment { amount: 1, offset }));
        if (k - 1) % 256 == 0 {
            assert(k % 256 == 1);
            assert(prev.push(Node::Increment { amount: 1, offset }) =~= seq![Node::Increment { amount: wrap8(k as int), offset }]);
        } else {
            let a = wrap8(k - 1);
            assert(prev.last() == (Node::Increment { amount: a, offset }));
            if (k - 1) % 256 == 255 {
                assert(k % 256 == 0);
                assert(a.wrapping_add(1) == 0);
                assert(prev.drop_last() =~= Seq::<Node>::empty());
            } else {
                assert(k % 256 == (k - 1) % 256 + 1);
                assert(a.wrapping_add(1) == wrap8(k as int));
                assert(prev.drop_last().push(Node::Increment { amount: wrap8(k as int), offset })
                    =~= seq![Node::Increment { amount: wrap8(k as int), offset }]);
            }
        }
    } else {
        assert(s =~= Seq::<Node>::empty());
    }
}

/// A program that writes `out`, byte by byte, through the current cell.
pub open spec fn writes_of(out: Seq<i8>) -> Seq<Node>
    decreases out.len(),
{
    if out.len() == 0 {
        Seq::empty()
    } else {
        writes_of(out.drop_last()).push(Node::Assign { amount: out.last(), offset: 0 }).push(Node::Write { offset: 0 })
    }
}

/// Evaluates `instrs` at compile time within `steps` steps. When the whole
/// program finishes, the result is a program that only writes what it wrote;
/// otherwise there is none.
pub fn fold_to_output(instrs: &[AstNode], steps: u64) -> (r: Option<Vec<AstNode>>)
    ensures
        r is Some <==> speculate(view_nodes(instrs@), steps).1 is None,
        r is Some ==> view_nodes(r->0@) == writes_of(speculate(view_nodes(instrs@), steps).0.out),
{
    let (state, _) = execute(instrs, steps);
    if state.start_instr.is_some() {
        return None;
    }
    let ghost out = state.outputs@;
    let mut r: Vec<AstNode> = Vec::new();
    let mut i: usize = 0;
    assert(out.subrange(0, 0) =~= Seq::<i8>::empty());
    while i < state.outputs.len()
        invariant
            i <= out.len(),
            out == state.outputs@,
            view_nodes(r@) == writes_of(out.subrange(0, i as int)),
        decreases out.len() - i,
    {
        let b = state.outputs[i];
        assert(out.subrange(0, i + 1).drop_last() =~= out.subrange(0, i as int));
        push_back(&mut r, AstNode::Assign { amount: b, offset: 0, position: None });
        push_back(&mut r, AstNode::Write { offset: 0, position: None });
        i = i + 1;
    }
    assert(out.subrange(0, out.len() as int) =~= out);
    Some(r)
}

/// Running `a + b` runs `a`, then `b` on what `a` left, with what `a` left
/// of the budget.
pub proof fn lemma_run_concat(a: Seq<Node>, b: Seq<Node>, m: Machine, steps: u64)
    requires
        run_nodes(a, m, steps).1 is Completed,
    ensures
        run_nodes(a + b, m, steps) == run_nodes(b, run_nodes(a, m, steps).0, run_nodes(a, m, steps).1->Completed_0),
    decreases a.len(),
{
    if a.len() == 0 {
        assert(a + b =~= b);
    } else {
        let (m1, o) = run_node(a[0], m, steps);
        assert((a + b)[0] == a[0]);
        assert((a + b).subrange(1, (a + b).len() as int) =~= a.subrange(1, a.len() as int) + b);
        if let Outcome::Completed(k) = o {
            let k2 = if k < steps { k } else { steps };
            lemma_run_concat(a.subrange(1, a.len() as int), b, m1, k2);
        }
    }
}

/// The writes of `out`, run with enough budget on a machine whose pointer is
/// on the tape, append exactly `out` to what was written.
pub proof fn lemma_writes_of_output(out: Seq<i8>, m: Machine, steps: u64)
    requires
        in_tape(m, m.ptr),
        steps >= 2 * out.len(),
    ensures
        run_nodes(writes_of(out), m, steps).1 == Outcome::Completed((steps - 2 * out.len()) as u64),
        run_nodes(writes_of(out), m, steps).0.out == m.out + out,
        run_nodes(writes_of(out), m, steps).0.ptr == m.ptr,
        run_nodes(writes_of(out), m, steps).0.tape.len() == m.tape.len(),
    decreases out.len(),
{
    if out.len() == 0 {
        assert(m.out + out =~= m.out);
    } else {
        let pre = out.drop_last();
        let x = out.last();
        lemma_writes_of_output(pre, m, steps);
        let tail = seq![Node::Assign { amount: x, offset: 0 }, Node::Write { offset: 0 }];
        assert(writes_of(out) =~= writes_of(pre) + tail);
        lemma_run_concat(writes_of(pre), tail, m, steps);
        let (m1, _) = run_nodes(writes_of(pre), m, steps);
        let k = (steps - 2 * pre.len()) as u64;
        let (m2, o2) = run_node(tail[0], m1, k);
        assert(tail.subrange(1, 2) =~= seq![Node::Write { offset: 0 }]);
        let (m3, o3) = run_node(tail[1], m2, (k - 1) as u64);
        assert(tail.subrange(1, 2).subrange(1, 1) =~= Seq::<Node>::empty());
        assert(run_nodes(tail.subrange(1, 2).subrange(1, 1), m3, (k - 2) as u64) == (m3, Outcome::Completed((k - 2) as u64)));
        assert(o2 == Outcome::Completed((k - 1) as u64));
        assert(o3 == Outcome::Completed((k - 2) as u64));
        assert(run_nodes(tail.subrange(1, 2), m2, (k - 1) as u64) == (m3, Outcome::Completed((k - 2) as u64)));
        assert(run_nodes(tail, m1, k) == (m3, Outcome::Completed((k - 2) as u64)));
        assert(m3.out == m.out + pre + seq![x]);
        assert(m.out + pre + seq![x] =~= m.out + out);
    }
}

/// When speculative execution finishes a program, the program that
/// `fold_to_output` puts in its place writes the same bytes from a fresh
/// tape, given two steps per byte.
pub proof fn lemma_fold_preserves_output(s: Seq<Node>, steps: u64, budget: u64)
    requires
        speculate(s, steps).1 is None,
        budget >= 2 * speculate(s, steps).0.out.len(),
    ensures
        run_nodes(writes_of(speculate(s, steps).0.out), initial_machine(), budget).1 is Completed,
        run_nodes(writes_of(speculate(s, steps).0.out), initial_machine(), budget).0.out == speculate(s, steps).0.out,
{
    let out = speculate(s, steps).0.out;
    assert(in_tape(initial_machine(), 0));
    lemma_writes_of_output(out, initial_machine(), budget);
    assert(initial_machine().out + out =~= out);
}

/// Optimizing a run of `k` unit increments at one offset with increment
/// coalescing alone gives one increment of `k` modulo 256, or nothing when
/// that is zero.
pub proof fn lemma_optimize_unit_increments(k: nat, offset: int)
    ensures
        optimized(Some(seq![Pass::CombineIncrements]), unit_increments(k, offset)) == if k % 256 == 0 {
            Seq::<Node>::empty()
        } else {
            seq![Node::Increment { amount: wrap8(k as int), offset }]
        },
{
    let ps = seq![Pass::CombineIncrements];
    let s = unit_increments(k, offset);
    assert(ps.len() == 1 && ps.last() == Pass::CombineIncrements);
    assert(ps.subrange(0, 0) =~= Seq::<Pass>::empty());
    assert(apply_passes(ps.subrange(0, 0), s) == s);
    assert(apply_passes(ps, s) == pass_nodes(Pass::CombineIncrements, s));
    lemma_coalesce_unit_increments(k, offset);
    let t = pass_nodes(Pass::CombineIncrements, s);
    assert(apply_passes(ps.subrange(0, 0), t) == t);
    assert(apply_passes(ps, t) == pass_nodes(Pass::CombineIncrements, t));
    if k % 256 == 0 {
        assert(t.len() == 0);
        assert(pass_nodes(Pass::CombineIncrements, t) == t);
    } else {
        let n = Node::Increment { amount: wrap8(k as int), offset };
        assert(wrap8(k as int) != 0);
        assert(t.subrange(0, 0) =~= Seq::<Node>::empty());
        assert(pass_nodes(Pass::CombineIncrements, t.subrange(0, 0)) == Seq::<Node>::empty());
        assert(pass_node(Pass::CombineIncrements, t[0]) == n);
        assert(Seq::<Node>::empty().push(n) =~= t);
        assert(pass_nodes(Pass::CombineIncrements, t) == t);
    }
    assert(fixpoint(ps, s, (MAX_ROUNDS - 1) as nat) == t || fixpoint(ps, t, (MAX_ROUNDS - 2) as nat) == t);
}

} // verus!
