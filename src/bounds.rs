use vstd::prelude::*;
use crate::bfir::Node;
use crate::execution::{Machine, Outcome, run_nodes, run_node};

verus! {

/// Whether a run of pointer motion needs a run-time bounds check.
#[derive(Clone, Copy, Debug, PartialEq, Eq, Structural)]
pub enum BoundsCheck {
    ProvenSafe,
    RequiresGuard,
}

/// Sum of the first `k` motions of a run.
pub open spec fn motion_sum(d: Seq<i64>, k: int) -> int
    decreases k,
{
    if k <= 0 || d.len() == 0 {
        0
    } else {
        d[0] + motion_sum(d.subrange(1, d.len() as int), k - 1)
    }
}

/// Every prefix of the run keeps a pointer that starts anywhere in
/// `[lo, hi]` inside `[0, n)`.
pub open spec fn stays_in_tape(d: Seq<i64>, lo: int, hi: int, n: int) -> bool {
    forall|k: int| 0 <= k <= d.len() ==> 0 <= lo + #[trigger] motion_sum(d, k) && hi + motion_sum(d, k) < n
}

proof fn lemma_motion_sum_step(d: Seq<i64>, k: int)
    requires
        0 <= k < d.len(),
    ensures
        motion_sum(d, k + 1) == motion_sum(d, k) + d[k],
    decreases k,
{
    let rest = d.subrange(1, d.len() as int);
    if k > 0 {
        lemma_motion_sum_step(rest, k - 1);
        assert(rest[k - 1] == d[k]);
    } else {
        assert(motion_sum(rest, 0) == 0);
    }
}

/// Decides whether the pointer motions `deltas`, run in order from a pointer
/// known to lie in `[lo, hi]`, stay within a tape of `n` cells.
pub fn analyze_motions(deltas: &[i64], lo: usize, hi: usize, n: usize) -> (r: BoundsCheck)
    requires
        lo <= hi,
    ensures
        (r == BoundsCheck::ProvenSafe) == stays_in_tape(deltas@, lo as int, hi as int, n as int),
{
    let ghost d = deltas@;
    if hi >= n {
        assert(motion_sum(d, 0) == 0);
        return BoundsCheck::RequiresGuard;
    }
    let mut acc: i128 = 0;
    let mut i: usize = 0;
    while i < deltas.len()
        invariant
            i <= d.len(),
            d == deltas@,
            lo <= hi < n,
            acc == motion_sum(d, i as int),
            forall|k: int| 0 <= k <= i ==> 0 <= lo + #[trigger] motion_sum(d, k) && hi + motion_sum(d, k) < n,
        decreases d.len() - i,
    {
        proof { lemma_motion_sum_step(d, i as int); }
        acc = acc + deltas[i] as i128;
        i = i + 1;
        if acc + (lo as i128) < 0 || acc + (hi as i128) >= n as i128 {
            return BoundsCheck::RequiresGuard;
        }
    }
    BoundsCheck::ProvenSafe
}

/// The run of motions as program nodes.
pub open spec fn motion_nodes(d: Seq<i64>) -> Seq<Node> {
    Seq::new(d.len(), |i: int| Node::PointerIncrement { amount: d[i] as int })
}

/// A run of motion that `analyze_motions` marks safe never leaves the tape
/// when executed on a tape of `n` cells from any start in the known range.
pub proof fn lemma_proven_safe_stays_in_tape(d: Seq<i64>, lo: int, hi: int, m: Machine, steps: u64)
    requires
        stays_in_tape(d, lo, hi, m.tape.len() as int),
        lo <= m.ptr <= hi,
    ensures
        run_nodes(motion_nodes(d), m, steps).1 != Outcome::OutOfBounds,
    decreases d.len(),
{
    let s = motion_nodes(d);
    let n = m.tape.len() as int;
    if d.len() > 0 {
        let rest = d.subrange(1, d.len() as int);
        assert(s.subrange(1, s.len() as int) =~= motion_nodes(rest));
        assert(motion_sum(d, 1) == d[0] + motion_sum(rest, 0));
        assert(motion_sum(d, 1) == d[0]);
        assert forall|k: int| 0 <= k <= rest.len() implies
            0 <= (lo + d[0]) + #[trigger] motion_sum(rest, k) && (hi + d[0]) + motion_sum(rest, k) < n by {
            assert(motion_sum(d, k + 1) == d[0] + motion_sum(rest, k));
        }
        assert(0 <= lo + motion_sum(d, 1) && hi + motion_sum(d, 1) < n);
        assert(s[0] == (Node::PointerIncrement { amount: d[0] as int }));
        if steps > 0 {
            let (m1, o) = run_node(s[0], m, steps);
            assert(m1 == (Machine { ptr: m.ptr + d[0], ..m }));
            assert(o == Outcome::Completed((steps - 1) as u64));
            let k = (steps - 1) as u64;
            assert(run_nodes(s, m, steps) == run_nodes(s.subrange(1, s.len() as int), m1, k));
            lemma_proven_safe_stays_in_tape(rest, lo + d[0], hi + d[0], m1, k);
        } else {
            assert(run_node(s[0], m, steps).1 == Outcome::OutOfSteps);
        }
    } else {
        assert(s.len() == 0);
    }
}

} // verus!
