use vstd::prelude::*;
use vstd::arithmetic::div_mod::lemma_add_mod_noop;
use crate::bfir::Node;
use crate::execution::{Machine, Outcome, run_node, run_nodes};
use crate::fusion::{residue, lemma_residue_add, lemma_residue_injective};

verus! {

/// Running two nodes: the first, then the second with what is left.
proof fn lemma_run_pair(x: Node, y: Node, m: Machine, steps: u64)
    ensures
        ({
            let (m1, o1) = run_node(x, m, steps);
            run_nodes(seq![x, y], m, steps) == match o1 {
                Outcome::Completed(k) => {
                    let k1 = if k < steps { k } else { steps };
                    let (m2, o2) = run_node(y, m1, k1);
                    match o2 {
                        Outcome::Completed(j) => (m2, Outcome::Completed(if j < k1 { j } else { k1 })),
                        _ => (m2, o2),
                    }
                },
                _ => (m1, o1),
            }
        }),
{
    let s = seq![x, y];
    assert(s[0] == x);
    assert(s.subrange(1, 2) =~= seq![y]);
    let (m1, o1) = run_node(x, m, steps);
    if let Outcome::Completed(k) = o1 {
        let k1 = if k < steps { k } else { steps };
        lemma_run_single(y, m1, k1);
    }
}

proof fn lemma_run_single(x: Node, m: Machine, steps: u64)
    ensures
        ({
            let (m1, o1) = run_node(x, m, steps);
            run_nodes(seq![x], m, steps) == match o1 {
                Outcome::Completed(k) => (m1, Outcome::Completed(if k < steps { k } else { steps })),
                _ => (m1, o1),
            }
        }),
{
    let s = seq![x];
    assert(s[0] == x);
    assert(s.subrange(1, 1) =~= Seq::<Node>::empty());
    let (m1, o1) = run_node(x, m, steps);
    if let Outcome::Completed(k) = o1 {
        let k1 = if k < steps { k } else { steps };
        assert(run_nodes(Seq::<Node>::empty(), m1, k1) == (m1, Outcome::Completed(k1)));
    }
}

/// Two increments of one cell, where both run, leave the machine as their
/// merged increment does.
#[verifier::rlimit(50)]
pub proof fn lemma_merge_increments_sound(a: i8, b: i8, o: int, m: Machine, steps: u64)
    requires
        run_nodes(seq![Node::Increment { amount: a, offset: o }, Node::Increment { amount: b, offset: o }], m, steps).1 is Completed,
    ensures
        run_nodes(seq![Node::Increment { amount: a.wrapping_add(b), offset: o }], m, steps).1 is Completed,
        run_nodes(seq![Node::Increment { amount: a.wrapping_add(b), offset: o }], m, steps).0
            == run_nodes(seq![Node::Increment { amount: a, offset: o }, Node::Increment { amount: b, offset: o }], m, steps).0,
{
    let x = Node::Increment { amount: a, offset: o };
    let y = Node::Increment { amount: b, offset: o };
    let z = Node::Increment { amount: a.wrapping_add(b), offset: o };
    lemma_run_pair(x, y, m, steps);
    lemma_run_single(z, m, steps);
    let i = m.ptr + o;
    let v = m.tape[i];
    lemma_residue_add(v, a);
    lemma_residue_add(v.wrapping_add(a), b);
    lemma_residue_add(a, b);
    lemma_residue_add(v, a.wrapping_add(b));
    lemma_add_mod_noop(residue(v) + residue(a), residue(b), 256);
    lemma_add_mod_noop(residue(v), residue(a) + residue(b), 256);
    assert(residue(v.wrapping_add(a)) % 256 == residue(v.wrapping_add(a)));
    assert(residue(a.wrapping_add(b)) % 256 == residue(a.wrapping_add(b)));
    assert(residue(b) % 256 == residue(b));
    assert(residue(v) % 256 == residue(v));
    lemma_add_mod_noop(residue(v), residue(a.wrapping_add(b)), 256);
    lemma_add_mod_noop(residue(v.wrapping_add(a)), residue(b), 256);
    lemma_residue_injective(v.wrapping_add(a).wrapping_add(b), v.wrapping_add(a.wrapping_add(b)));
    assert(m.tape.update(i, v.wrapping_add(a)).update(i, v.wrapping_add(a).wrapping_add(b))
        =~= m.tape.update(i, v.wrapping_add(a.wrapping_add(b))));
}

/// An assignment followed by an increment of the same cell, where both run,
/// leave the machine as the single assignment of the sum does.
pub proof fn lemma_merge_assign_sound(a: i8, b: i8, o: int, m: Machine, steps: u64)
    requires
        run_nodes(seq![Node::Assign { amount: a, offset: o }, Node::Increment { amount: b, offset: o }], m, steps).1 is Completed,
    ensures
        run_nodes(seq![Node::Assign { amount: a.wrapping_add(b), offset: o }], m, steps).1 is Completed,
        run_nodes(seq![Node::Assign { amount: a.wrapping_add(b), offset: o }], m, steps).0
            == run_nodes(seq![Node::Assign { amount: a, offset: o }, Node::Increment { amount: b, offset: o }], m, steps).0,
{
    let x = Node::Assign { amount: a, offset: o };
    let y = Node::Increment { amount: b, offset: o };
    let z = Node::Assign { amount: a.wrapping_add(b), offset: o };
    lemma_run_pair(x, y, m, steps);
    lemma_run_single(z, m, steps);
    let i = m.ptr + o;
    assert(m.tape.update(i, a).update(i, a.wrapping_add(b)) =~= m.tape.update(i, a.wrapping_add(b)));
}

/// Two pointer motions, where both run, leave the machine as their sum does.
pub proof fn lemma_merge_motions_sound(a: int, b: int, m: Machine, steps: u64)
    requires
        run_nodes(seq![Node::PointerIncrement { amount: a }, Node::PointerIncrement { amount: b }], m, steps).1 is Completed,
    ensures
        run_nodes(seq![Node::PointerIncrement { amount: a + b }], m, steps).1 is Completed,
        run_nodes(seq![Node::PointerIncrement { amount: a + b }], m, steps).0
            == run_nodes(seq![Node::PointerIncrement { amount: a }, Node::PointerIncrement { amount: b }], m, steps).0,
{
    lemma_run_pair(Node::PointerIncrement { amount: a }, Node::PointerIncrement { amount: b }, m, steps);
    lemma_run_single(Node::PointerIncrement { amount: a + b }, m, steps);
}

/// A loop right after a node that zeroes the current cell changes nothing:
/// where the pair runs, it leaves the machine as the first node alone does.
pub proof fn lemma_dead_loop_sound(x: Node, body: Seq<Node>, m: Machine, steps: u64)
    requires
        x == (Node::Assign { amount: 0, offset: 0 }) || x is Loop || x is MultiplyMove,
        run_nodes(seq![x, Node::Loop { body }], m, steps).1 is Completed,
    ensures
        run_nodes(seq![x], m, steps).1 is Completed,
        run_nodes(seq![x], m, steps).0 == run_nodes(seq![x, Node::Loop { body }], m, steps).0,
{
    lemma_run_pair(x, Node::Loop { body }, m, steps);
    lemma_run_single(x, m, steps);
    let (m1, o1) = run_node(x, m, steps);
    lemma_leaves_zero(x, m, steps);
}

/// A zeroing node that finishes leaves zero in the current cell.
proof fn lemma_leaves_zero(x: Node, m: Machine, steps: u64)
    requires
        x == (Node::Assign { amount: 0, offset: 0 }) || x is Loop || x is MultiplyMove,
    ensures
        run_node(x, m, steps).1 is Completed ==> {
            let m1 = run_node(x, m, steps).0;
            &&& 0 <= m1.ptr < m1.tape.len()
            &&& m1.tape[m1.ptr] == 0
        },
    decreases steps,
{
    if steps > 0 {
        if let Node::Loop { body } = x {
            let left = (steps - 1) as u64;
            if 0 <= m.ptr < m.tape.len() && m.tape[m.ptr] != 0 {
                let (m2, o) = run_nodes(body, m, left);
                if let Outcome::Completed(k) = o {
                    lemma_leaves_zero(x, m2, if k < left { k } else { left });
                }
            }
        } else if let Node::MultiplyMove { changes } = x {
            if run_node(x, m, steps).1 is Completed {
                crate::execution::lemma_apply_changes_len(m.tape, m.ptr, m.tape[m.ptr], changes);
            }
        }
    }
}

/// Moving a pointer motion past the increment after it, which then
/// addresses its cell by the motion's amount further, keeps the machine that
/// the pair leaves, where the pair runs.
pub proof fn lemma_propagate_offset_sound(a: int, b: i8, o: int, m: Machine, steps: u64)
    requires
        run_nodes(seq![Node::PointerIncrement { amount: a }, Node::Increment { amount: b, offset: o }], m, steps).1 is Completed,
    ensures
        run_nodes(seq![Node::Increment { amount: b, offset: o + a }, Node::PointerIncrement { amount: a }], m, steps).1 is Completed,
        run_nodes(seq![Node::Increment { amount: b, offset: o + a }, Node::PointerIncrement { amount: a }], m, steps).0
            == run_nodes(seq![Node::PointerIncrement { amount: a }, Node::Increment { amount: b, offset: o }], m, steps).0,
{
    lemma_run_pair(Node::PointerIncrement { amount: a }, Node::Increment { amount: b, offset: o }, m, steps);
    lemma_run_pair(Node::Increment { amount: b, offset: o + a }, Node::PointerIncrement { amount: a }, m, steps);
    assert(m.ptr + (o + a) == (m.ptr + a) + o);
}

} // verus!
