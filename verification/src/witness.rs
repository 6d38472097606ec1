//! The witness engine: from the inputs of a circuit to a value for every
//! cell.
//!
//! The engine is a worklist evaluation. Loading an input writes its value
//! to the input's cell and to the cells of its copy-constraint group. A row
//! whose two operand cells are written while its output cell is not is put
//! on a queue; taking it off the queue computes the output and passes it on
//! to the group of the output cell. The model of this evaluation is the
//! state machine below; `compute_witness` runs it.

use crate::circuit::{lemma_first_group_is_first, Circuit, CircuitView, Op};
use crate::error::WitnessError;
use crate::field::{field_add, field_mul, values, FieldElement};
use crate::soundness::{lemma_gate_wired_witness, satisfies};
use std::collections::VecDeque;
use vstd::prelude::*;

verus! {

/// The cells written so far and the rows waiting to be computed, each row
/// by the address of its output cell, oldest first.
pub struct EngineState {
    pub trace: Seq<Option<nat>>,
    pub queue: Seq<usize>,
}

/// Writes `value` to `cell`. If the cell lies in a row whose operands are
/// now both written and whose output is not, the row is queued.
pub open spec fn assign(c: CircuitView, st: EngineState, cell: usize, value: nat) -> EngineState {
    let trace = st.trace.update(cell as int, Some(value));
    let row = cell as int / 3;
    if row < c.n_rows && trace[3 * row] is Some && trace[3 * row + 1] is Some && trace[3 * row
        + 2] is None {
        EngineState { trace, queue: st.queue.push((3 * row + 2) as usize) }
    } else {
        EngineState { trace, queue: st.queue }
    }
}

/// Writes `value` to the first `upto` cells of a group, in order.
pub open spec fn propagate(
    c: CircuitView,
    st: EngineState,
    group: Seq<usize>,
    value: nat,
    upto: nat,
) -> EngineState
    decreases upto,
{
    if upto == 0 {
        st
    } else {
        assign(c, propagate(c, st, group, value, (upto - 1) as nat), group[upto - 1], value)
    }
}

/// Writes `value` to every cell of the first group that holds `id`; no
/// group, nothing written.
pub open spec fn spread(c: CircuitView, st: EngineState, id: usize, value: nat) -> EngineState {
    let g = c.group_index(id);
    if g < c.groups.len() {
        propagate(c, st, c.groups[g], value, c.groups[g].len())
    } else {
        st
    }
}

/// Loads the `i`-th input, counting from 0: its cell is `n_cells - (i + 1)`.
pub open spec fn load_input(c: CircuitView, st: EngineState, i: nat, value: nat) -> EngineState {
    let id = (c.n_cells - (i + 1)) as usize;
    spread(c, EngineState { trace: st.trace.update(id as int, Some(value)), queue: st.queue }, id, value)
}

/// The state after the first `upto` inputs are loaded into an empty trace.
pub open spec fn load_inputs(c: CircuitView, inputs: Seq<nat>, upto: nat) -> EngineState
    decreases upto,
{
    if upto == 0 {
        EngineState { trace: Seq::new(c.n_cells, |i: int| None), queue: Seq::empty() }
    } else {
        load_input(c, load_inputs(c, inputs, (upto - 1) as nat), (upto - 1) as nat, inputs[upto - 1])
    }
}

/// What a gate makes of its operands.
pub open spec fn gate_value(op: Op, lhs: nat, rhs: nat) -> nat {
    match op {
        Op::Add => field_add(lhs, rhs),
        Op::Mul => field_mul(lhs, rhs),
    }
}

/// Takes the oldest row off the queue, computes its output from its
/// operands and writes it; unless it is the circuit's output, the value is
/// passed on to the group of the output cell.
pub open spec fn step(c: CircuitView, st: EngineState) -> EngineState
    recommends
        st.queue.len() > 0,
{
    let id = st.queue[0];
    let value = gate_value(
        c.selectors[id as int / 3],
        st.trace[id - 2].unwrap(),
        st.trace[id - 1].unwrap(),
    );
    let popped = EngineState {
        trace: st.trace.update(id as int, Some(value)),
        queue: st.queue.subrange(1, st.queue.len() as int),
    };
    if id == c.output {
        popped
    } else {
        spread(c, popped, id, value)
    }
}

/// The state after `n` rows have been taken off the queue.
pub open spec fn steps(c: CircuitView, st: EngineState, n: nat) -> EngineState
    decreases n,
{
    if n == 0 {
        st
    } else {
        step(c, steps(c, st, (n - 1) as nat))
    }
}

/// The state in which the evaluation of the rows begins.
pub open spec fn loaded(c: CircuitView, inputs: Seq<nat>) -> EngineState {
    load_inputs(c, inputs, c.n_inputs())
}

/// The queue first runs empty after exactly `n` rows were taken off it.
pub open spec fn ends_after(c: CircuitView, inputs: Seq<nat>, n: nat) -> bool {
    &&& steps(c, loaded(c, inputs), n).queue.len() == 0
    &&& forall|m: nat| m < n ==> (#[trigger] steps(c, loaded(c, inputs), m)).queue.len() > 0
}

/// Every cell is written.
pub open spec fn complete(trace: Seq<Option<nat>>) -> bool {
    forall|i: int| 0 <= i < trace.len() ==> (#[trigger] trace[i]) is Some
}

/// The witness, if every cell is written.
pub open spec fn outcome(trace: Seq<Option<nat>>) -> Result<Seq<nat>, WitnessError> {
    if complete(trace) {
        Ok(Seq::new(trace.len(), |i: int| trace[i].unwrap()))
    } else {
        Err(WitnessError::IncompleteTrace)
    }
}

/// The values of cells that may not be written yet.
pub open spec fn cell_values(s: Seq<Option<FieldElement>>) -> Seq<Option<nat>> {
    Seq::new(
        s.len(),
        |i: int|
            match s[i] {
                Some(e) => Some(e@),
                None => None,
            },
    )
}

/// The inputs in the order of their indices: public ones first.
pub open spec fn input_values(public: Seq<FieldElement>, private: Seq<FieldElement>) -> Seq<nat> {
    values(public + private)
}

/// The state that a trace and a queue stand for.
pub open spec fn state_of(trace: Seq<Option<FieldElement>>, queue: Seq<usize>) -> EngineState {
    EngineState { trace: cell_values(trace), queue }
}

/// The trace has a cell for each address, and every queued row is a row of
/// the circuit whose operands are written.
pub open spec fn queue_ok(c: CircuitView, st: EngineState) -> bool {
    &&& st.trace.len() == c.n_cells
    &&& forall|k: int|
        0 <= k < st.queue.len() ==> {
            let q = #[trigger] st.queue[k];
            &&& q % 3 == 2
            &&& q < 3 * c.n_rows
            &&& st.trace[q - 2] is Some
            &&& st.trace[q - 1] is Some
        }
}

/// How many cells are not written.
spec fn none_count(t: Seq<Option<nat>>) -> nat
    decreases t.len(),
{
    if t.len() == 0 {
        0
    } else {
        none_count(t.drop_last()) + if t.last() is None {
            1nat
        } else {
            0nat
        }
    }
}

/// Whether a queued address is that of a written cell.
spec fn stale(q: usize, t: Seq<Option<nat>>) -> bool {
    q < t.len() && t[q as int] is Some
}

/// How many queued rows have their output written already.
spec fn stale_count(q: Seq<usize>, t: Seq<Option<nat>>) -> nat
    decreases q.len(),
{
    if q.len() == 0 {
        0
    } else {
        stale_count(q.drop_last(), t) + if stale(q.last(), t) {
            1nat
        } else {
            0nat
        }
    }
}

/// From `a` to `b` a cell got written, or the same cells are written and as
/// many queued rows have their output written.
spec fn progress(a: EngineState, b: EngineState) -> bool {
    ||| none_count(b.trace) < none_count(a.trace)
    ||| (none_count(b.trace) == none_count(a.trace) && stale_count(b.queue, b.trace)
        == stale_count(a.queue, a.trace))
}

proof fn lemma_none_update(t: Seq<Option<nat>>, i: int, v: nat)
    requires
        0 <= i < t.len(),
    ensures
        none_count(t.update(i, Some(v))) + (if t[i] is None {
            1nat
        } else {
            0nat
        }) == none_count(t),
    decreases t.len(),
{
    let u = t.update(i, Some(v));
    if i == t.len() - 1 {
        assert(u.drop_last() =~= t.drop_last());
    } else {
        assert(u.drop_last() =~= t.drop_last().update(i, Some(v)));
        lemma_none_update(t.drop_last(), i, v);
    }
}

proof fn lemma_stale_same(q: Seq<usize>, t1: Seq<Option<nat>>, t2: Seq<Option<nat>>)
    requires
        t1.len() == t2.len(),
        forall|i: int| 0 <= i < t1.len() ==> (t1[i] is Some <==> t2[i] is Some),
    ensures
        stale_count(q, t1) == stale_count(q, t2),
    decreases q.len(),
{
    if q.len() > 0 {
        lemma_stale_same(q.drop_last(), t1, t2);
    }
}

proof fn lemma_stale_pop(q: Seq<usize>, t: Seq<Option<nat>>)
    requires
        q.len() > 0,
    ensures
        stale_count(q.subrange(1, q.len() as int), t) + (if stale(q[0], t) {
            1nat
        } else {
            0nat
        }) == stale_count(q, t),
    decreases q.len(),
{
    let rest = q.subrange(1, q.len() as int);
    if q.len() == 1 {
        assert(q.drop_last() =~= Seq::<usize>::empty());
        assert(rest =~= Seq::<usize>::empty());
    } else {
        lemma_stale_pop(q.drop_last(), t);
        assert(rest.drop_last() =~= q.drop_last().subrange(1, q.len() - 1));
        assert(rest.last() == q.last());
    }
}

/// Writing a cell keeps the queue in order.
pub proof fn lemma_assign_queue_ok(c: CircuitView, st: EngineState, cell: usize, value: nat)
    requires
        c.wf(),
        queue_ok(c, st),
        cell < c.n_cells,
    ensures
        queue_ok(c, assign(c, st, cell, value)),
{
}

/// Writing a cell keeps the queue in order and makes progress.
proof fn lemma_assign(c: CircuitView, st: EngineState, cell: usize, value: nat)
    requires
        c.wf(),
        queue_ok(c, st),
        cell < c.n_cells,
    ensures
        queue_ok(c, assign(c, st, cell, value)),
        progress(st, assign(c, st, cell, value)),
{
    let next = assign(c, st, cell, value);
    let trace = st.trace.update(cell as int, Some(value));
    lemma_none_update(st.trace, cell as int, value);
    if st.trace[cell as int] is Some {
        lemma_stale_same(st.queue, st.trace, trace);
    }
    if next.queue.len() > st.queue.len() {
        assert(next.queue.drop_last() =~= st.queue);
    }
}

/// Writes a value to a cell and queues the cell's row if it is ready.
fn assign_cell(
    circuit: &Circuit,
    trace: &mut Vec<Option<FieldElement>>,
    queue: &mut VecDeque<usize>,
    cell: usize,
    value: FieldElement,
)
    requires
        circuit@.wf(),
        queue_ok(circuit@, state_of(old(trace)@, old(queue)@)),
        cell < circuit@.n_cells,
    ensures
        state_of(final(trace)@, final(queue)@) == assign(
            circuit@,
            state_of(old(trace)@, old(queue)@),
            cell,
            value@,
        ),
{
    let ghost before = state_of(trace@, queue@);
    trace.set(cell, Some(value));
    assert(cell_values(trace@) =~= before.trace.update(cell as int, Some(value@)));
    let row: usize = cell / 3;
    if row < circuit.n_rows() {
        // This is actually a gate constraint
        let lhs = trace[row * 3];
        let rhs = trace[row * 3 + 1];
        let out = trace[row * 3 + 2];
        if lhs.is_some() && rhs.is_some() && out.is_none() {
            queue.push_back(row * 3 + 2);
        }
    }
}

/// Writes a value to every cell of the first group that holds `id`.
fn spread_value(
    circuit: &Circuit,
    trace: &mut Vec<Option<FieldElement>>,
    queue: &mut VecDeque<usize>,
    id: usize,
    value: FieldElement,
)
    requires
        circuit@.wf(),
        queue_ok(circuit@, state_of(old(trace)@, old(queue)@)),
    ensures
        state_of(final(trace)@, final(queue)@) == spread(
            circuit@,
            state_of(old(trace)@, old(queue)@),
            id,
            value@,
        ),
        queue_ok(circuit@, state_of(final(trace)@, final(queue)@)),
        progress(state_of(old(trace)@, old(queue)@), state_of(final(trace)@, final(queue)@)),
{
    let ghost c = circuit@;
    let ghost before = state_of(trace@, queue@);
    match circuit.get_copy_constraints(id) {
        None => {},
        Some(group) => {
            proof {
                lemma_first_group_is_first(c.group_sets(), id);
            }
            let mut k: usize = 0;
            while k < group.len()
                invariant
                    c == circuit@,
                    c.wf(),
                    k <= group.len(),
                    0 <= c.group_index(id) < c.groups.len(),
                    group@ == c.groups[c.group_index(id)],
                    queue_ok(c, before),
                    queue_ok(c, state_of(trace@, queue@)),
                    progress(before, state_of(trace@, queue@)),
                    state_of(trace@, queue@) == propagate(c, before, group@, value@, k as nat),
                decreases group.len() - k,
            {
                let cell_id: usize = group[k];
                proof {
                    lemma_assign(c, state_of(trace@, queue@), cell_id, value@);
                }
                assign_cell(circuit, trace, queue, cell_id, value);
                k = k + 1;
            }
        },
    }
}

/// What came out, with the witness as values.
pub open spec fn result_values(r: Result<Vec<FieldElement>, WitnessError>) -> Result<
    Seq<nat>,
    WitnessError,
> {
    match r {
        Ok(w) => Ok(values(w@)),
        Err(e) => Err(e),
    }
}

/// `w` is what the evaluation of `c` on `inputs` ends with: the trace at the
/// moment the queue first runs empty, if every cell is written by then, and
/// the error otherwise.
pub open spec fn witness_of(
    c: CircuitView,
    inputs: Seq<nat>,
    w: Result<Seq<nat>, WitnessError>,
) -> bool {
    exists|n: nat| #[trigger]
        ends_after(c, inputs, n) && w == outcome(steps(c, loaded(c, inputs), n).trace)
}

/// The value of the input with the given index, public inputs first.
fn input_value(public: &Vec<FieldElement>, private: &Vec<FieldElement>, id: usize) -> (r:
    FieldElement)
    requires
        id < public.len() + private.len(),
    ensures
        r@ == input_values(public@, private@)[id as int],
{
    if id < public.len() {
        public[id]
    } else {
        private[id - public.len()]
    }
}

/// Calculate all intermediate witness values in a circuit gate by gate.
///
/// The inputs are loaded in the order of their indices, then the queued
/// rows are computed, oldest first, until none is waiting. The result is
/// the value of every cell, or the error if some cell was never written.
pub fn compute_witness(
    circuit: &Circuit,
    public_input: &Vec<FieldElement>,
    private_input: &Vec<FieldElement>,
) -> (r: Result<Vec<FieldElement>, WitnessError>)
    requires
        public_input.len() + private_input.len() >= circuit@.n_inputs(),
    ensures
        witness_of(circuit@, input_values(public_input@, private_input@), result_values(r)),
        r matches Ok(w) ==> w.len() == circuit@.n_cells,
        circuit@.gate_wired() ==> r is Ok && satisfies(
            circuit@,
            input_values(public_input@, private_input@),
            values(r.unwrap()@),
        ),
{
    circuit.well_formed();
    let ghost c = circuit@;
    let ghost inputs = input_values(public_input@, private_input@);
    // assign input wirings to the cells
    let n_inputs: usize = circuit.n_inputs();
    let n_cells: usize = circuit.n_cells();

    let mut trace: Vec<Option<FieldElement>> = Vec::new();
    let mut filled: usize = 0;
    while filled < n_cells
        invariant
            filled <= n_cells,
            trace.len() == filled,
            forall|j: int| 0 <= j < filled ==> (#[trigger] trace[j]) is None,
        decreases n_cells - filled,
    {
        trace.push(None);
        filled = filled + 1;
    }
    let mut eval_queue: VecDeque<usize> = VecDeque::new();
    assert(state_of(trace@, eval_queue@).trace =~= load_inputs(c, inputs, 0).trace);

    let mut i: usize = 0;
    while i < n_inputs
        invariant
            c == circuit@,
            c.wf(),
            inputs == input_values(public_input@, private_input@),
            n_inputs == c.n_inputs(),
            n_cells == c.n_cells,
            public_input.len() + private_input.len() >= n_inputs,
            i <= n_inputs,
            queue_ok(c, state_of(trace@, eval_queue@)),
            state_of(trace@, eval_queue@) == load_inputs(c, inputs, i as nat),
        decreases n_inputs - i,
    {
        let value = input_value(public_input, private_input, i);

        // assign input cell and its copy constrained cells
        let id: usize = n_cells - (i + 1);
        let ghost before = state_of(trace@, eval_queue@);
        trace.set(id, Some(value));
        assert(cell_values(trace@) =~= before.trace.update(id as int, Some(value@)));
        spread_value(circuit, &mut trace, &mut eval_queue, id, value);
        i = i + 1;
    }

    // loop queue until it's all calculated
    let ghost mut n: nat = 0;
    while eval_queue.len() > 0
        invariant
            c == circuit@,
            c.wf(),
            n_cells == c.n_cells,
            queue_ok(c, state_of(trace@, eval_queue@)),
            state_of(trace@, eval_queue@) == steps(c, loaded(c, inputs), n),
            forall|m: nat| m < n ==> (#[trigger] steps(c, loaded(c, inputs), m)).queue.len() > 0,
        decreases
                none_count(state_of(trace@, eval_queue@).trace),
                stale_count(eval_queue@, state_of(trace@, eval_queue@).trace),
    {
        let ghost top = state_of(trace@, eval_queue@);
        let id: usize = eval_queue.pop_front().unwrap();
        assert(id == top.queue[0]);
        let lhs = trace[id - 2].unwrap();
        let rhs = trace[id - 1].unwrap();
        let op = circuit.get_selector(id / 3).unwrap();
        let value = match op {
            Op::Add => lhs.add(&rhs),
            Op::Mul => lhs.mul(&rhs),
        };
        trace.set(id, Some(value));
        let ghost popped = state_of(trace@, eval_queue@);
        proof {
            assert(popped.trace =~= top.trace.update(id as int, Some(value@)));
            assert(popped.queue =~= top.queue.subrange(1, top.queue.len() as int));
            lemma_none_update(top.trace, id as int, value@);
            lemma_stale_pop(top.queue, top.trace);
            if top.trace[id as int] is Some {
                lemma_stale_same(popped.queue, top.trace, popped.trace);
            }
            assert forall|k: int| 0 <= k < popped.queue.len() implies {
                let q = #[trigger] popped.queue[k];
                &&& q % 3 == 2
                &&& q < 3 * c.n_rows
                &&& popped.trace[q - 2] is Some
                &&& popped.trace[q - 1] is Some
            } by {
                assert(popped.queue[k] == top.queue[k + 1]);
            }
        }
        if id != circuit.output_id() {
            spread_value(circuit, &mut trace, &mut eval_queue, id, value);
        }
        proof {
            assert(state_of(trace@, eval_queue@) == step(c, top));
            n = n + 1;
        }
    }

    let ghost last = state_of(trace@, eval_queue@);
    assert(ends_after(c, inputs, n));
    proof {
        if c.gate_wired() {
            lemma_gate_wired_witness(c, inputs, outcome(last.trace));
        }
    }
    let mut witness: Vec<FieldElement> = Vec::new();
    let mut k: usize = 0;
    while k < n_cells
        invariant
            c == circuit@,
            inputs == input_values(public_input@, private_input@),
            ends_after(c, inputs, n),
            last == steps(c, loaded(c, inputs), n),
            c.gate_wired() ==> complete(last.trace) && satisfies(
                c,
                inputs,
                outcome(last.trace).unwrap(),
            ),
            k <= n_cells,
            trace.len() == n_cells,
            witness.len() == k,
            last.trace == cell_values(trace@),
            forall|j: int| 0 <= j < k ==> (#[trigger] trace[j]) is Some,
            forall|j: int| 0 <= j < k ==> Some((#[trigger] witness[j])@) == last.trace[j],
        decreases n_cells - k,
    {
        match trace[k] {
            None => {
                proof {
                    assert(last.trace[k as int] is None);
                    assert(!complete(last.trace));
                }
                return Err(WitnessError::IncompleteTrace);
            },
            Some(value) => {
                witness.push(value);
            },
        }
        k = k + 1;
    }
    proof {
        assert(complete(last.trace));
        assert(values(witness@) =~= Seq::new(last.trace.len(), |i: int| last.trace[i].unwrap()));
    }
    Ok(witness)
}

} // verus!
