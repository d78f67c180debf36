use vstd::prelude::*;
use crate::bfir::{AstNode, Node, Warning, position_of, view_node, view_nodes, lemma_view_nodes, change_view};

verus! {

/// Number of cells on the tape.
pub const TAPE_SIZE: usize = 30000;

/// The abstract machine: tape contents, pointer and the bytes written so far.
pub struct Machine {
    pub tape: Seq<i8>,
    pub ptr: int,
    pub out: Seq<i8>,
}

/// How a run of the machine ended.
#[derive(Clone, Copy, Debug, PartialEq, Eq)]
pub enum Outcome {
    /// Finished, with this many steps of the budget unused.
    Completed(u64),
    /// Stopped before a read, whose value is unknown until run time.
    ReachedRead,
    /// The pointer or an access left the tape.
    OutOfBounds,
    /// The step budget ran out.
    OutOfSteps,
}

pub open spec fn initial_machine() -> Machine {
    Machine { tape: Seq::new(TAPE_SIZE as nat, |i: int| 0i8), ptr: 0, out: Seq::empty() }
}

pub open spec fn in_tape(m: Machine, i: int) -> bool {
    0 <= i < m.tape.len()
}

pub open spec fn changes_in_bounds(m: Machine, cs: Seq<(int, i8)>) -> bool {
    forall|j: int| 0 <= j < cs.len() && (#[trigger] cs[j]).1 != 0 ==> in_tape(m, m.ptr + cs[j].0)
}

/// The tape after adding `cur * factor` at each target, in order.
pub open spec fn apply_changes(tape: Seq<i8>, ptr: int, cur: i8, cs: Seq<(int, i8)>) -> Seq<i8>
    decreases cs.len(),
{
    if cs.len() == 0 {
        tape
    } else {
        let t = apply_changes(tape, ptr, cur, cs.subrange(0, cs.len() - 1));
        let (o, f) = cs[cs.len() - 1];
        if f == 0 {
            t
        } else {
            t.update(ptr + o, t[ptr + o].wrapping_add(cur.wrapping_mul(f)))
        }
    }
}

pub proof fn lemma_apply_changes_len(tape: Seq<i8>, ptr: int, cur: i8, cs: Seq<(int, i8)>)
    requires
        forall|j: int| 0 <= j < cs.len() && (#[trigger] cs[j]).1 != 0 ==> 0 <= ptr + cs[j].0 < tape.len(),
    ensures
        apply_changes(tape, ptr, cur, cs).len() == tape.len(),
    decreases cs.len(),
{
    if cs.len() > 0 {
        let pre = cs.subrange(0, cs.len() - 1);
        assert forall|j: int| 0 <= j < pre.len() && (#[trigger] pre[j]).1 != 0 implies 0 <= ptr + pre[j].0 < tape.len() by {
            assert(pre[j] == cs[j]);
        }
        lemma_apply_changes_len(tape, ptr, cur, pre);
    }
}

pub open spec fn min_steps(a: u64, b: u64) -> u64 {
    if a < b { a } else { b }
}

/// Runs one node with a step budget. Each elementary operation and each loop
/// test costs one step. A node that cannot finish leaves the machine as it
/// was, except a loop, which keeps the effect of the iterations it ran.
pub open spec fn run_node(n: Node, m: Machine, steps: u64) -> (Machine, Outcome)
    decreases steps, n,
{
    if steps == 0 {
        (m, Outcome::OutOfSteps)
    } else {
        let left = (steps - 1) as u64;
        match n {
            Node::Increment { amount, offset } =>
                if in_tape(m, m.ptr + offset) {
                    let i = m.ptr + offset;
                    (Machine { tape: m.tape.update(i, m.tape[i].wrapping_add(amount)), ..m }, Outcome::Completed(left))
                } else {
                    (m, Outcome::OutOfBounds)
                },
            Node::Assign { amount, offset } =>
                if in_tape(m, m.ptr + offset) {
                    (Machine { tape: m.tape.update(m.ptr + offset, amount), ..m }, Outcome::Completed(left))
                } else {
                    (m, Outcome::OutOfBounds)
                },
            Node::PointerIncrement { amount } =>
                if in_tape(m, m.ptr + amount) {
                    (Machine { ptr: m.ptr + amount, ..m }, Outcome::Completed(left))
                } else {
                    (m, Outcome::OutOfBounds)
                },
            Node::Read { .. } => (m, Outcome::ReachedRead),
            Node::Write { offset } =>
                if in_tape(m, m.ptr + offset) {
                    (Machine { out: m.out.push(m.tape[m.ptr + offset]), ..m }, Outcome::Completed(left))
                } else {
                    (m, Outcome::OutOfBounds)
                },
            Node::MultiplyMove { changes } =>
                if in_tape(m, m.ptr) && changes_in_bounds(m, changes) {
                    let t = apply_changes(m.tape, m.ptr, m.tape[m.ptr], changes);
                    (Machine { tape: t.update(m.ptr, 0), ..m }, Outcome::Completed(left))
                } else {
                    (m, Outcome::OutOfBounds)
                },
            Node::Loop { body } =>
                if !in_tape(m, m.ptr) {
                    (m, Outcome::OutOfBounds)
                } else if m.tape[m.ptr] == 0 {
                    (m, Outcome::Completed(left))
                } else {
                    let (m2, o) = run_nodes(body, m, left);
                    match o {
                        Outcome::Completed(k) => run_node(Node::Loop { body }, m2, min_steps(k, left)),
                        _ => (m2, o),
                    }
                },
        }
    }
}

/// Runs a sequence of nodes in order, stopping at the first that cannot finish.
pub open spec fn run_nodes(s: Seq<Node>, m: Machine, steps: u64) -> (Machine, Outcome)
    decreases steps, s,
{
    if s.len() == 0 {
        (m, Outcome::Completed(steps))
    } else {
        let (m1, o) = run_node(s[0], m, steps);
        match o {
            Outcome::Completed(k) => run_nodes(s.subrange(1, s.len() as int), m1, min_steps(k, steps)),
            _ => (m1, o),
        }
    }
}

/// Speculative execution of a program from the top-level node `i` on.
/// The result is the machine, the index of the first node not executed, and
/// how the run ended. A top-level node that cannot finish is not executed at
/// all; leaving the tape discards everything and resumes from the start.
pub open spec fn run_top(s: Seq<Node>, i: int, m: Machine, steps: u64) -> (Machine, Option<int>, Outcome)
    decreases s.len() - i,
{
    if i < 0 || i >= s.len() {
        (m, None, Outcome::Completed(steps))
    } else {
        let (m1, o) = run_node(s[i], m, steps);
        match o {
            Outcome::Completed(k) => run_top(s, i + 1, m1, k),
            Outcome::OutOfBounds => (initial_machine(), Some(0), o),
            _ => (m, Some(i), o),
        }
    }
}

/// The index of the top-level node at which speculative execution from node
/// `i` stops, or the program's length when it finishes.
pub open spec fn stop_index(s: Seq<Node>, i: int, m: Machine, steps: u64) -> int
    decreases s.len() - i,
{
    if i < 0 || i >= s.len() {
        s.len() as int
    } else {
        let (m1, o) = run_node(s[i], m, steps);
        match o {
            Outcome::Completed(k) => stop_index(s, i + 1, m1, k),
            _ => i,
        }
    }
}

pub open spec fn speculate(s: Seq<Node>, steps: u64) -> (Machine, Option<int>, Outcome) {
    run_top(s, 0, initial_machine(), steps)
}

/// What `execute` returns on `s` with budget `steps`: the machine and the
/// resume point of `speculate`, and a warning exactly when the budget ran out
/// or the pointer left the tape.
pub open spec fn execute_result(s: Seq<Node>, steps: u64, st: ExecutionState, warned: bool) -> bool {
    let (m, start, o) = speculate(s, steps);
    &&& st.machine() == m
    &&& (st.start_instr matches Some(i) ==> start == Some(i as int))
    &&& (st.start_instr is None ==> start is None)
    &&& warned <==> (o == Outcome::OutOfSteps || o == Outcome::OutOfBounds)
}

/// The warning `execute` gives on `instrs` with budget `steps`: its message
/// names why the run stopped, and its position is that of the top-level node
/// where it stopped.
pub open spec fn execute_warning(instrs: Seq<AstNode>, steps: u64, w: Option<Warning>) -> bool {
    let s = view_nodes(instrs);
    w matches Some(w) ==> {
        let k = stop_index(s, 0, initial_machine(), steps);
        &&& w.message@ == if speculate(s, steps).2 == Outcome::OutOfSteps {
            "exceeded execution step budget"@
        } else {
            "pointer left the tape during execution"@
        }
        &&& 0 <= k < instrs.len()
        &&& w.position == position_of(instrs[k])
    }
}

/// Two runs of speculative execution on one program with one budget give the
/// same tape, pointer, output and resume point, and warn alike.
pub proof fn lemma_execute_deterministic(
    s: Seq<Node>,
    steps: u64,
    a: ExecutionState,
    wa: bool,
    b: ExecutionState,
    wb: bool,
)
    requires
        execute_result(s, steps, a, wa),
        execute_result(s, steps, b, wb),
    ensures
        a.cells@ == b.cells@,
        a.cell_ptr == b.cell_ptr,
        a.outputs@ == b.outputs@,
        a.start_instr == b.start_instr,
        wa == wb,
{
}

/// The state of the machine after speculative execution, with the index of the
/// first top-level node still to run (`None` when the program finished).
pub struct ExecutionState {
    pub start_instr: Option<usize>,
    pub cells: Vec<i8>,
    pub cell_ptr: usize,
    pub outputs: Vec<i8>,
}

impl ExecutionState {
    pub open spec fn machine(&self) -> Machine {
        Machine { tape: self.cells@, ptr: self.cell_ptr as int, out: self.outputs@ }
    }

    /// A zeroed tape, the pointer on the first cell, and nothing written.
    pub fn initial() -> (r: ExecutionState)
        ensures
            r.machine() == initial_machine(),
            r.start_instr.is_none(),
    {
        let r = ExecutionState { start_instr: None, cells: vec![0i8; TAPE_SIZE], cell_ptr: 0, outputs: Vec::new() };
        assert(r.cells@ =~= initial_machine().tape);
        assert(r.outputs@ =~= initial_machine().out);
        r
    }
}

fn offset_index(ptr: usize, offset: i64, len: usize) -> (r: Option<usize>)
    ensures
        r is Some <==> 0 <= ptr + offset < len,
        r is Some ==> r->0 == ptr + offset,
{
    let t: i128 = ptr as i128 + offset as i128;
    if 0 <= t && t < len as i128 {
        Some(t as usize)
    } else {
        None
    }
}

fn apply_multiply(st: &mut ExecutionState, changes: &Vec<(i64, i8)>) -> (ok: bool)
    ensures
        ({
            let cs = changes@.map_values(|c: (i64, i8)| change_view(c));
            let m = old(st).machine();
            &&& ok == (in_tape(m, m.ptr) && changes_in_bounds(m, cs))
            &&& ok ==> final(st).machine() == (Machine {
                tape: apply_changes(m.tape, m.ptr, m.tape[m.ptr], cs).update(m.ptr, 0),
                ..m
            })
            &&& !ok ==> final(st).machine() == m
            &&& final(st).start_instr == old(st).start_instr
        }),
{
    let ghost cs = changes@.map_values(|c: (i64, i8)| change_view(c));
    let ghost m = st.machine();
    if st.cell_ptr >= st.cells.len() {
        return false;
    }
    let mut j: usize = 0;
    while j < changes.len()
        invariant
            j <= changes@.len(),
            st.machine() == m,
            st.start_instr == old(st).start_instr,
            cs == changes@.map_values(|c: (i64, i8)| change_view(c)),
            forall|k: int| 0 <= k < j && (#[trigger] cs[k]).1 != 0 ==> in_tape(m, m.ptr + cs[k].0),
        decreases changes@.len() - j,
    {
        let (o, f) = changes[j];
        assert(cs[j as int] == change_view(changes@[j as int]));
        if f != 0 && offset_index(st.cell_ptr, o, st.cells.len()).is_none() {
            assert(cs[j as int].1 != 0 && !in_tape(m, m.ptr + cs[j as int].0));
            return false;
        }
        j = j + 1;
    }
    let cur = st.cells[st.cell_ptr];
    let mut i: usize = 0;
    while i < changes.len()
        invariant
            i <= changes@.len(),
            cs == changes@.map_values(|c: (i64, i8)| change_view(c)),
            changes_in_bounds(m, cs),
            in_tape(m, m.ptr),
            cur == m.tape[m.ptr],
            st.cell_ptr == m.ptr,
            st.outputs@ == m.out,
            st.start_instr == old(st).start_instr,
            st.cells@ == apply_changes(m.tape, m.ptr, cur, cs.subrange(0, i as int)),
        decreases changes@.len() - i,
    {
        let (o, f) = changes[i];
        assert(cs.subrange(0, i + 1).subrange(0, i as int) =~= cs.subrange(0, i as int));
        assert(cs[i as int] == change_view(changes@[i as int]));
        proof {
            let pre = cs.subrange(0, i as int);
            assert forall|j: int| 0 <= j < pre.len() && (#[trigger] pre[j]).1 != 0 implies 0 <= m.ptr + pre[j].0 < m.tape.len() by {
                assert(pre[j] == cs[j]);
            }
            lemma_apply_changes_len(m.tape, m.ptr, cur, pre);
        }
        if f != 0 {
            assert(cs[i as int].1 != 0);
            let t = offset_index(st.cell_ptr, o, st.cells.len()).unwrap();
            let v = st.cells[t].wrapping_add(cur.wrapping_mul(f));
            st.cells.set(t, v);
        }
        i = i + 1;
    }
    assert(cs.subrange(0, changes@.len() as int) =~= cs);
    proof { lemma_apply_changes_len(m.tape, m.ptr, cur, cs); }
    let p = st.cell_ptr;
    st.cells.set(p, 0);
    true
}

/// Runs one node on `st`, exactly as `run_node` describes.
pub fn execute_node(n: &AstNode, st: &mut ExecutionState, steps: u64) -> (o: Outcome)
    ensures
        (final(st).machine(), o) == run_node(view_node(*n), old(st).machine(), steps),
        final(st).start_instr == old(st).start_instr,
        o matches Outcome::Completed(k) ==> k < steps,
    decreases steps, *n,
{
    if steps == 0 {
        return Outcome::OutOfSteps;
    }
    let left: u64 = steps - 1;
    match n {
        AstNode::Increment { amount, offset, .. } => {
            match offset_index(st.cell_ptr, *offset, st.cells.len()) {
                Some(i) => {
                    let v = st.cells[i].wrapping_add(*amount);
                    st.cells.set(i, v);
                    Outcome::Completed(left)
                },
                None => Outcome::OutOfBounds,
            }
        },
        AstNode::Assign { amount, offset, .. } => {
            match offset_index(st.cell_ptr, *offset, st.cells.len()) {
                Some(i) => {
                    st.cells.set(i, *amount);
                    Outcome::Completed(left)
                },
                None => Outcome::OutOfBounds,
            }
        },
        AstNode::PointerIncrement { amount, .. } => {
            match offset_index(st.cell_ptr, *amount, st.cells.len()) {
                Some(i) => {
                    st.cell_ptr = i;
                    Outcome::Completed(left)
                },
                None => Outcome::OutOfBounds,
            }
        },
        AstNode::Read { .. } => Outcome::ReachedRead,
        AstNode::Write { offset, .. } => {
            match offset_index(st.cell_ptr, *offset, st.cells.len()) {
                Some(i) => {
                    let v = st.cells[i];
                    st.outputs.push(v);
                    Outcome::Completed(left)
                },
                None => Outcome::OutOfBounds,
            }
        },
        AstNode::MultiplyMove { changes, .. } => {
            if apply_multiply(st, changes) {
                Outcome::Completed(left)
            } else {
                Outcome::OutOfBounds
            }
        },
        AstNode::Loop { body, .. } => {
            let ghost target = run_node(view_node(*n), st.machine(), steps);
            let ghost vb = view_nodes(body@);
            let mut left: u64 = left;
            loop
                invariant
                    left < steps,
                    target == run_node(view_node(*n), old(st).machine(), steps),
                    run_node(Node::Loop { body: vb }, st.machine(), (left + 1) as u64) == target,
                    vb == view_nodes(body@),
                    view_node(*n) == (Node::Loop { body: vb }),
                    st.start_instr == old(st).start_instr,
                decreases left,
            {
                if st.cell_ptr >= st.cells.len() {
                    return Outcome::OutOfBounds;
                }
                if st.cells[st.cell_ptr] == 0 {
                    return Outcome::Completed(left);
                }
                let o = execute_nodes(body.as_slice(), st, left);
                match o {
                    Outcome::Completed(k) => {
                        if k == 0 {
                            assert(run_node(Node::Loop { body: vb }, st.machine(), 0) == (st.machine(), Outcome::OutOfSteps));
                            return Outcome::OutOfSteps;
                        }
                        left = k - 1;
                    },
                    _ => {
                        return o;
                    },
                }
            }
        },
    }
}

/// Runs a sequence of nodes on `st`, exactly as `run_nodes` describes.
pub fn execute_nodes(s: &[AstNode], st: &mut ExecutionState, steps: u64) -> (o: Outcome)
    ensures
        (final(st).machine(), o) == run_nodes(view_nodes(s@), old(st).machine(), steps),
        final(st).start_instr == old(st).start_instr,
        o matches Outcome::Completed(k) ==> k <= steps,
    decreases steps, s@,
{
    let ghost vs = view_nodes(s@);
    let ghost target = run_nodes(vs, st.machine(), steps);
    proof { lemma_view_nodes(s@); }
    let mut left: u64 = steps;
    let mut i: usize = 0;
    assert(vs.subrange(0, vs.len() as int) =~= vs);
    while i < s.len()
        invariant
            i <= s@.len(),
            left <= steps,
            target == run_nodes(vs, old(st).machine(), steps),
            vs == view_nodes(s@),
            vs.len() == s@.len(),
            forall|j: int| 0 <= j < s@.len() ==> #[trigger] vs[j] == view_node(s@[j]),
            run_nodes(vs.subrange(i as int, vs.len() as int), st.machine(), left) == target,
            st.start_instr == old(st).start_instr,
        decreases s@.len() - i,
    {
        let ghost rest = vs.subrange(i as int, vs.len() as int);
        assert(rest[0] == vs[i as int]);
        assert(rest.subrange(1, rest.len() as int) =~= vs.subrange(i + 1, vs.len() as int));
        proof {
            assert(decreases_to!(s@ => s@[i as int]));
        }
        let o = execute_node(&s[i], st, left);
        match o {
            Outcome::Completed(k) => {
                left = k;
            },
            _ => {
                return o;
            },
        }
        i = i + 1;
    }
    assert(vs.subrange(i as int, vs.len() as int) =~= Seq::<Node>::empty());
    Outcome::Completed(left)
}

/// Partially evaluates `instrs` at compile time within `steps` steps.
/// Completion gives `start_instr == None` and no warning; a read stops the
/// run silently at the top-level node that holds it; running out of steps,
/// or leaving the tape, comes with a warning.
pub fn execute(instrs: &[AstNode], steps: u64) -> (r: (ExecutionState, Option<Warning>))
    ensures
        execute_result(view_nodes(instrs@), steps, r.0, r.1 is Some),
        execute_warning(instrs@, steps, r.1),
{
    let ghost vs = view_nodes(instrs@);
    let ghost target = speculate(vs, steps);
    let ghost stop = stop_index(vs, 0, initial_machine(), steps);
    proof { lemma_view_nodes(instrs@); }
    let mut st = ExecutionState::initial();
    let mut left: u64 = steps;
    let mut i: usize = 0;
    while i < instrs.len()
        invariant
            i <= instrs@.len(),
            target == speculate(vs, steps),
            vs == view_nodes(instrs@),
            vs.len() == instrs@.len(),
            forall|j: int| 0 <= j < instrs@.len() ==> #[trigger] vs[j] == view_node(instrs@[j]),
            run_top(vs, i as int, st.machine(), left) == target,
            stop == stop_index(vs, 0, initial_machine(), steps),
            stop_index(vs, i as int, st.machine(), left) == stop,
            st.start_instr.is_none(),
        decreases instrs@.len() - i,
    {
        let ghost before = st.machine();
        let is_loop = match &instrs[i] {
            AstNode::Loop { .. } => true,
            _ => false,
        };
        let saved = if is_loop {
            Some((st.cells.clone(), st.cell_ptr, st.outputs.clone()))
        } else {
            None
        };
        let o = execute_node(&instrs[i], &mut st, left);
        match o {
            Outcome::Completed(k) => {
                left = k;
            },
            Outcome::OutOfBounds => {
                let mut fresh = ExecutionState::initial();
                fresh.start_instr = Some(0);
                let w = Warning {
                    message: String::from_str("pointer left the tape during execution"),
                    position: instrs[i].position(),
                };
                return (fresh, Some(w));
            },
            _ => {
                if let Some((cells, cell_ptr, outputs)) = saved {
                    assert(cells@ =~= before.tape);
                    assert(outputs@ =~= before.out);
                    st = ExecutionState { start_instr: None, cells, cell_ptr, outputs };
                } else {
                    assert(st.machine() == before);
                }
                st.start_instr = Some(i);
                if let Outcome::OutOfSteps = o {
                    let w = Warning {
                        message: String::from_str("exceeded execution step budget"),
                        position: instrs[i].position(),
                    };
                    return (st, Some(w));
                }
                return (st, None);
            },
        }
        i = i + 1;
    }
    (st, None)
}

/// Two warnings from speculative runs of one program with one budget carry
/// the same message and the same position.
pub proof fn lemma_execute_warning_deterministic(
    instrs: Seq<AstNode>,
    steps: u64,
    wa: Warning,
    wb: Warning,
)
    requires
        execute_warning(instrs, steps, Some(wa)),
        execute_warning(instrs, steps, Some(wb)),
    ensures
        wa.message@ == wb.message@,
        wa.position == wb.position,
{
}

} // verus!
