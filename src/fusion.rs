use vstd::prelude::*;
use vstd::arithmetic::div_mod::{lemma_add_mod_noop, lemma_mul_mod_noop};
use crate::bfir::Node;
use crate::execution::{Machine, Outcome, in_tape, changes_in_bounds, apply_changes, run_node, run_nodes};
use crate::peephole::{fusable, changes_of, first_not_below};

verus! {

/// The value of a cell modulo 256, in `0..256`.
pub open spec fn residue(x: i8) -> int {
    if x < 0 { x + 256 } else { x as int }
}

/// What the body adds, modulo 256, to the cell at offset `o` in one pass.
pub open spec fn factor_at(b: Seq<Node>, o: int) -> int
    decreases b.len(),
{
    if b.len() == 0 {
        0
    } else {
        (match b[0] {
            Node::Increment { amount, offset } => if offset == o { residue(amount) } else { 0 },
            _ => 0,
        }) + factor_at(b.subrange(1, b.len() as int), o)
    }
}

/// The factors listed for offset `o`, each taken modulo 256, summed.
pub open spec fn change_sum(cs: Seq<(int, i8)>, o: int) -> int
    decreases cs.len(),
{
    if cs.len() == 0 {
        0
    } else {
        (if cs[0].0 == o { residue(cs[0].1) } else { 0 }) + change_sum(cs.subrange(1, cs.len() as int), o)
    }
}

pub proof fn lemma_residue_add(x: i8, y: i8)
    ensures
        residue(x.wrapping_add(y)) == (residue(x) + residue(y)) % 256,
{
}

proof fn lemma_residue_mul(x: i8, y: i8)
    ensures
        residue(x.wrapping_mul(y)) == (residue(x) * residue(y)) % 256,
{
    let p = x as int * y as int;
    assert(residue(x.wrapping_mul(y)) == p % 256);
    lemma_mul_mod_noop(x as int, y as int, 256);
    lemma_mul_mod_noop(residue(x), residue(y), 256);
    assert(residue(x) % 256 == (x as int) % 256);
    assert(residue(y) % 256 == (y as int) % 256);
}

pub proof fn lemma_residue_injective(x: i8, y: i8)
    requires
        residue(x) == residue(y),
    ensures
        x == y,
{
}

proof fn lemma_change_sum_last(cs: Seq<(int, i8)>, o: int)
    requires
        cs.len() > 0,
    ensures
        change_sum(cs, o) == change_sum(cs.subrange(0, cs.len() - 1), o)
            + (if cs[cs.len() - 1].0 == o { residue(cs[cs.len() - 1].1) } else { 0 }),
    decreases cs.len(),
{
    if cs.len() > 1 {
        let rest = cs.subrange(1, cs.len() as int);
        lemma_change_sum_last(rest, o);
        let pre = cs.subrange(0, cs.len() - 1);
        assert(pre[0] == cs[0]);
        assert(rest[rest.len() - 1] == cs[cs.len() - 1]);
        assert(pre.subrange(1, pre.len() as int) =~= rest.subrange(0, rest.len() - 1));
    } else {
        assert(change_sum(cs.subrange(1, cs.len() as int), o) == 0);
        assert(change_sum(cs.subrange(0, 0), o) == 0);
    }
}

proof fn lemma_factor_at_last(b: Seq<Node>, o: int)
    requires
        b.len() > 0,
    ensures
        factor_at(b, o) == factor_at(b.subrange(0, b.len() - 1), o) + (match b[b.len() - 1] {
            Node::Increment { amount, offset } => if offset == o { residue(amount) } else { 0 },
            _ => 0,
        }),
    decreases b.len(),
{
    if b.len() > 1 {
        let rest = b.subrange(1, b.len() as int);
        lemma_factor_at_last(rest, o);
        let pre = b.subrange(0, b.len() - 1);
        assert(pre[0] == b[0]);
        assert(rest[rest.len() - 1] == b[b.len() - 1]);
        assert(pre.subrange(1, pre.len() as int) =~= rest.subrange(0, rest.len() - 1));
    } else {
        assert(factor_at(b.subrange(1, b.len() as int), o) == 0);
        assert(factor_at(b.subrange(0, 0), o) == 0);
    }
}

proof fn lemma_first_not_below_range(cs: Seq<(int, i8)>, o: int)
    ensures
        0 <= first_not_below(cs, o) <= cs.len(),
    decreases cs.len(),
{
    if cs.len() > 0 {
        lemma_first_not_below_range(cs.subrange(1, cs.len() as int), o);
    }
}

proof fn lemma_change_sum_insert(cs: Seq<(int, i8)>, k: int, x: (int, i8), o: int)
    requires
        0 <= k <= cs.len(),
    ensures
        change_sum(cs.insert(k, x), o) == change_sum(cs, o) + (if x.0 == o { residue(x.1) } else { 0 }),
    decreases cs.len(),
{
    let s = cs.insert(k, x);
    cs.insert_ensures(k, x);
    if k == 0 {
        assert(s.subrange(1, s.len() as int) =~= cs);
    } else {
        let rest = cs.subrange(1, cs.len() as int);
        lemma_change_sum_insert(rest, k - 1, x, o);
        assert(s.subrange(1, s.len() as int) =~= rest.insert(k - 1, x));
    }
}

/// Every entry of `changes_of(b)` comes from an increment of `b` off the
/// current cell.
proof fn lemma_changes_of_entries(b: Seq<Node>, lo: int, hi: int)
    requires
        forall|j: int| 0 <= j < b.len() ==> (#[trigger] b[j]) is Increment,
        forall|j: int| 0 <= j < b.len() ==> lo <= (#[trigger] b[j])->Increment_offset < hi,
    ensures
        forall|j: int| 0 <= j < changes_of(b).len() ==> lo <= (#[trigger] changes_of(b)[j]).0 < hi,
        forall|o: int| o != 0 ==> #[trigger] change_sum(changes_of(b), o) == factor_at(b, o),
    decreases b.len(),
{
    if b.len() > 0 {
        let pre = b.subrange(0, b.len() - 1);
        assert forall|j: int| 0 <= j < pre.len() implies (#[trigger] pre[j]) is Increment && lo <= pre[j]->Increment_offset < hi by {
            assert(pre[j] == b[j]);
        }
        lemma_changes_of_entries(pre, lo, hi);
        let acc = changes_of(pre);
        let last = b[b.len() - 1];
        assert(last is Increment);
        let amount = last->Increment_amount;
        let offset = last->Increment_offset;
        assert forall|o: int| o != 0 implies #[trigger] change_sum(changes_of(b), o) == factor_at(b, o) by {
            lemma_factor_at_last(b, o);
            if offset != 0 {
                lemma_first_not_below_range(acc, offset);
                lemma_change_sum_insert(acc, first_not_below(acc, offset), (offset, amount), o);
            }
        }
        if offset != 0 {
            let k = first_not_below(acc, offset);
            lemma_first_not_below_range(acc, offset);
            acc.insert_ensures(k, (offset, amount));
            assert forall|j: int| 0 <= j < changes_of(b).len() implies lo <= (#[trigger] changes_of(b)[j]).0 < hi by {
                if j < k {
                    assert(changes_of(b)[j] == acc[j]);
                } else if j > k {
                    assert(changes_of(b)[j] == acc[j - 1]);
                }
            }
        }
    }
}

/// Running a body of in-bounds increments adds its factors to each cell.
proof fn lemma_body_run(b: Seq<Node>, m: Machine, steps: u64)
    requires
        forall|j: int| 0 <= j < b.len() ==> (#[trigger] b[j]) is Increment,
        forall|j: int| 0 <= j < b.len() ==> in_tape(m, m.ptr + (#[trigger] b[j])->Increment_offset),
        steps >= b.len(),
    ensures
        ({
            let (m2, o) = run_nodes(b, m, steps);
            &&& o == Outcome::Completed((steps - b.len()) as u64)
            &&& m2.ptr == m.ptr
            &&& m2.out == m.out
            &&& m2.tape.len() == m.tape.len()
            &&& forall|i: int| 0 <= i < m.tape.len() ==>
                residue(#[trigger] m2.tape[i]) == (residue(m.tape[i]) + factor_at(b, i - m.ptr)) % 256
        }),
    decreases b.len(),
{
    if b.len() > 0 {
        let n = b[0];
        let rest = b.subrange(1, b.len() as int);
        let amount = n->Increment_amount;
        let offset = n->Increment_offset;
        let (m1, o1) = run_node(n, m, steps);
        assert(in_tape(m, m.ptr + offset));
        assert(o1 == Outcome::Completed((steps - 1) as u64));
        assert forall|j: int| 0 <= j < rest.len() implies (#[trigger] rest[j]) is Increment && in_tape(m1, m1.ptr + rest[j]->Increment_offset) by {
            assert(rest[j] == b[j + 1]);
        }
        lemma_body_run(rest, m1, (steps - 1) as u64);
        let (m2, o2) = run_nodes(rest, m1, (steps - 1) as u64);
        assert(run_nodes(b, m, steps) == run_nodes(rest, m1, (steps - 1) as u64));
        assert forall|i: int| 0 <= i < m.tape.len() implies
            residue(#[trigger] m2.tape[i]) == (residue(m.tape[i]) + factor_at(b, i - m.ptr)) % 256 by {
            let d = if offset == i - m.ptr { residue(amount) } else { 0 };
            if i == m.ptr + offset {
                lemma_residue_add(m.tape[i], amount);
            }
            assert(residue(m1.tape[i]) == (residue(m.tape[i]) + d) % 256);
            lemma_add_mod_noop(residue(m.tape[i]) + d, factor_at(rest, i - m.ptr), 256);
            lemma_add_mod_noop(residue(m1.tape[i]), factor_at(rest, i - m.ptr), 256);
            assert((residue(m1.tape[i]) + factor_at(rest, i - m.ptr)) % 256 == (residue(m.tape[i]) + d + factor_at(rest, i - m.ptr)) % 256) by {
                assert(residue(m1.tape[i]) % 256 == residue(m1.tape[i]));
            }
        }
    } else {
        assert forall|i: int| 0 <= i < m.tape.len() implies
            residue(#[trigger] m.tape[i]) == (residue(m.tape[i]) + factor_at(b, i - m.ptr)) % 256 by {
        }
    }
}

/// Running a multiply loop whose current cell holds `v` (modulo 256) adds
/// `v` times each factor to each cell.
proof fn lemma_loop_run(b: Seq<Node>, m: Machine, steps: u64)
    requires
        forall|j: int| 0 <= j < b.len() ==> (#[trigger] b[j]) is Increment,
        forall|j: int| 0 <= j < b.len() ==> in_tape(m, m.ptr + (#[trigger] b[j])->Increment_offset),
        factor_at(b, 0) == 255,
        in_tape(m, m.ptr),
        steps >= residue(m.tape[m.ptr]) * (b.len() + 1) + 1,
    ensures
        ({
            let (m2, o) = run_node(Node::Loop { body: b }, m, steps);
            let v = residue(m.tape[m.ptr]);
            &&& o is Completed
            &&& m2.ptr == m.ptr
            &&& m2.out == m.out
            &&& m2.tape.len() == m.tape.len()
            &&& forall|i: int| 0 <= i < m.tape.len() ==>
                residue(#[trigger] m2.tape[i]) == (residue(m.tape[i]) + v * factor_at(b, i - m.ptr)) % 256
        }),
    decreases residue(m.tape[m.ptr]),
{
    let v = residue(m.tape[m.ptr]);
    let left = (steps - 1) as u64;
    if v == 0 {
        assert(m.tape[m.ptr] == 0);
        assert forall|i: int| 0 <= i < m.tape.len() implies
            residue(#[trigger] m.tape[i]) == (residue(m.tape[i]) + v * factor_at(b, i - m.ptr)) % 256 by {
        }
    } else {
        assert(left >= v * (b.len() + 1)) by (nonlinear_arith)
            requires left >= v * (b.len() + 1), v >= 1;
        assert(v * (b.len() + 1) >= b.len()) by (nonlinear_arith)
            requires v >= 1;
        lemma_body_run(b, m, left);
        let (m1, o1) = run_nodes(b, m, left);
        let k = (left - b.len()) as u64;
        assert(residue(m1.tape[m1.ptr]) == v - 1) by {
            assert(factor_at(b, 0) == 255);
        }
        assert(k >= (v - 1) * (b.len() + 1) + 1) by (nonlinear_arith)
            requires k == left - b.len(), left >= v * (b.len() + 1), v >= 1;
        assert forall|j: int| 0 <= j < b.len() implies in_tape(m1, m1.ptr + (#[trigger] b[j])->Increment_offset) by {
            assert(in_tape(m, m.ptr + b[j]->Increment_offset));
        }
        lemma_loop_run(b, m1, k);
        assert(run_node(Node::Loop { body: b }, m, steps) == run_node(Node::Loop { body: b }, m1, k));
        let (m2, o2) = run_node(Node::Loop { body: b }, m1, k);
        assert forall|i: int| 0 <= i < m.tape.len() implies
            residue(#[trigger] m2.tape[i]) == (residue(m.tape[i]) + v * factor_at(b, i - m.ptr)) % 256 by {
            let f = factor_at(b, i - m.ptr);
            let r = residue(m.tape[i]);
            assert(residue(m1.tape[i]) == (r + f) % 256);
            assert(residue(m2.tape[i]) == (residue(m1.tape[i]) + (v - 1) * f) % 256);
            lemma_add_mod_noop(r + f, (v - 1) * f, 256);
            lemma_add_mod_noop(residue(m1.tape[i]), (v - 1) * f, 256);
            assert(residue(m1.tape[i]) % 256 == (r + f) % 256);
            assert(r + f + (v - 1) * f == r + v * f) by (nonlinear_arith);
        }
    }
}

/// The multiply node adds `cur` times each listed factor to its cell.
proof fn lemma_apply_changes_cells(tape: Seq<i8>, ptr: int, cur: i8, cs: Seq<(int, i8)>)
    requires
        forall|j: int| 0 <= j < cs.len() ==> 0 <= ptr + (#[trigger] cs[j]).0 < tape.len(),
    ensures
        apply_changes(tape, ptr, cur, cs).len() == tape.len(),
        forall|i: int| 0 <= i < tape.len() ==>
            residue(#[trigger] apply_changes(tape, ptr, cur, cs)[i]) == (residue(tape[i]) + residue(cur) * change_sum(cs, i - ptr)) % 256,
    decreases cs.len(),
{
    if cs.len() > 0 {
        let pre = cs.subrange(0, cs.len() - 1);
        assert forall|j: int| 0 <= j < pre.len() implies 0 <= ptr + (#[trigger] pre[j]).0 < tape.len() by {
            assert(pre[j] == cs[j]);
        }
        lemma_apply_changes_cells(tape, ptr, cur, pre);
        let t = apply_changes(tape, ptr, cur, pre);
        let (o, f) = cs[cs.len() - 1];
        assert forall|i: int| 0 <= i < tape.len() implies
            residue(#[trigger] apply_changes(tape, ptr, cur, cs)[i]) == (residue(tape[i]) + residue(cur) * change_sum(cs, i - ptr)) % 256 by {
            lemma_change_sum_last(cs, i - ptr);
            let r = residue(tape[i]);
            let s = change_sum(pre, i - ptr);
            let d = if o == i - ptr { residue(f) } else { 0 };
            assert(residue(t[i]) == (r + residue(cur) * s) % 256);
            if o == i - ptr && f != 0 {
                lemma_residue_mul(cur, f);
                lemma_residue_add(t[i], cur.wrapping_mul(f));
                lemma_add_mod_noop(r + residue(cur) * s, residue(cur) * residue(f), 256);
                lemma_add_mod_noop(residue(t[i]), residue(cur) * residue(f), 256);
                assert(residue(t[i]) % 256 == residue(t[i]));
                assert(residue(cur.wrapping_mul(f)) % 256 == residue(cur.wrapping_mul(f)));
                lemma_add_mod_noop(residue(t[i]), residue(cur.wrapping_mul(f)), 256);
                lemma_mul_mod_noop(residue(cur), residue(f), 256);
                assert(residue(f) % 256 == residue(f));
                assert(residue(cur) % 256 == residue(cur));
                lemma_add_mod_noop(residue(t[i]), residue(cur) * residue(f), 256);
                assert(residue(cur) * s + residue(cur) * residue(f) == residue(cur) * (s + d)) by (nonlinear_arith)
                    requires d == residue(f);
            } else if o == i - ptr {
                assert(residue(f) == 0);
                assert(residue(cur) * (s + d) == residue(cur) * s);
            } else {
                assert(d == 0);
            }
        }
    }
}

/// A loop that only adds constants to distinct cells and takes exactly one
/// from the current cell ends, from any value `v` of that cell, in the state
/// that the fused `MultiplyMove` reaches in one step: every cell it touches
/// holds its old value plus `v` times its factor, wrapping at 8 bits, and the
/// current cell holds zero.
pub proof fn lemma_multiply_fusion(b: Seq<Node>, m: Machine, steps: u64)
    requires
        fusable(b),
        in_tape(m, m.ptr),
        forall|j: int| 0 <= j < b.len() ==> in_tape(m, m.ptr + (#[trigger] b[j])->Increment_offset),
        steps >= residue(m.tape[m.ptr]) * (b.len() + 1) + 1,
    ensures
        run_node(Node::Loop { body: b }, m, steps).1 is Completed,
        run_node(Node::MultiplyMove { changes: changes_of(b) }, m, 1).1 is Completed,
        run_node(Node::Loop { body: b }, m, steps).0 == run_node(Node::MultiplyMove { changes: changes_of(b) }, m, 1).0,
{
    let lo = -m.ptr;
    let hi = m.tape.len() - m.ptr;
    assert forall|j: int| 0 <= j < b.len() implies lo <= (#[trigger] b[j])->Increment_offset < hi by {
        assert(in_tape(m, m.ptr + b[j]->Increment_offset));
    }
    lemma_changes_of_entries(b, lo, hi);
    let cs = changes_of(b);
    assert(changes_in_bounds(m, cs));
    // The one node at offset 0 takes one each pass.
    let z = choose|z: int| 0 <= z < b.len() && b[z] == (Node::Increment { amount: -1i8, offset: 0 });
    assert(factor_at(b, 0) == 255) by {
        lemma_factor_at_unique(b, z);
    }
    lemma_loop_run(b, m, steps);
    let (m2, _) = run_node(Node::Loop { body: b }, m, steps);
    let cur = m.tape[m.ptr];
    let t = apply_changes(m.tape, m.ptr, cur, cs);
    lemma_apply_changes_cells(m.tape, m.ptr, cur, cs);
    let (m3, _) = run_node(Node::MultiplyMove { changes: cs }, m, 1);
    assert(m3.tape == t.update(m.ptr, 0));
    assert forall|i: int| 0 <= i < m.tape.len() implies #[trigger] m2.tape[i] == m3.tape[i] by {
        let v = residue(cur);
        if i == m.ptr {
            assert(v * 255 + v == v * 256) by (nonlinear_arith);
            assert((v * 256) % 256 == 0) by (nonlinear_arith);
            assert(residue(m2.tape[i]) == (v + v * 255) % 256);
            lemma_residue_injective(m2.tape[i], 0i8);
        } else {
            assert(change_sum(cs, i - m.ptr) == factor_at(b, i - m.ptr));
            lemma_residue_injective(m2.tape[i], m3.tape[i]);
        }
    }
    assert(m2.tape =~= m3.tape);
}

/// In a body of increments at distinct offsets, the factor at an offset is
/// the amount of the one increment there.
proof fn lemma_factor_at_unique(b: Seq<Node>, z: int)
    requires
        forall|i: int| 0 <= i < b.len() ==> (#[trigger] b[i]) is Increment,
        forall|i: int, j: int|
            0 <= i < j < b.len() ==> (#[trigger] b[i])->Increment_offset != (#[trigger] b[j])->Increment_offset,
        0 <= z < b.len(),
    ensures
        factor_at(b, b[z]->Increment_offset) == residue(b[z]->Increment_amount),
    decreases b.len(),
{
    let o = b[z]->Increment_offset;
    let rest = b.subrange(1, b.len() as int);
    assert forall|i: int| 0 <= i < rest.len() implies (#[trigger] rest[i]) is Increment by {
        assert(rest[i] == b[i + 1]);
    }
    assert forall|i: int, j: int| 0 <= i < j < rest.len() implies
        (#[trigger] rest[i])->Increment_offset != (#[trigger] rest[j])->Increment_offset by {
        assert(rest[i] == b[i + 1] && rest[j] == b[j + 1]);
    }
    if z == 0 {
        lemma_factor_at_absent(rest, o);
        assert forall|i: int| 0 <= i < rest.len() implies (#[trigger] rest[i])->Increment_offset != o by {
            assert(rest[i] == b[i + 1]);
        }
        lemma_factor_at_absent(rest, o);
    } else {
        assert(b[0]->Increment_offset != o);
        assert(rest[z - 1] == b[z]);
        lemma_factor_at_unique(rest, z - 1);
    }
}

proof fn lemma_factor_at_absent(b: Seq<Node>, o: int)
    ensures
        (forall|i: int| 0 <= i < b.len() ==> (#[trigger] b[i]) is Increment && b[i]->Increment_offset != o)
            ==> factor_at(b, o) == 0,
    decreases b.len(),
{
    if b.len() > 0 {
        let rest = b.subrange(1, b.len() as int);
        lemma_factor_at_absent(rest, o);
        if forall|i: int| 0 <= i < b.len() ==> (#[trigger] b[i]) is Increment && b[i]->Increment_offset != o {
            assert forall|i: int| 0 <= i < rest.len() implies (#[trigger] rest[i]) is Increment && rest[i]->Increment_offset != o by {
                assert(rest[i] == b[i + 1]);
            }
            assert(b[0] is Increment && b[0]->Increment_offset != o);
        }
    }
}

} // verus!
