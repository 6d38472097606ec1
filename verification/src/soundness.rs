//! What the witness engine achieves on a circuit whose copy constraints are
//! those of gates: every cell is written, every gate equation holds, every
//! group holds one value, and the inputs stand in their cells.

use crate::circuit::{lemma_first_group, lemma_first_group_is_first, BuilderView, CircuitView};
use crate::wiring::lemma_gates_only_wired;
use crate::witness::{
    assign, lemma_assign_queue_ok, complete, ends_after, gate_value, load_input, load_inputs, loaded, outcome,
    propagate, queue_ok, spread, step, steps, witness_of, EngineState,
};
use vstd::prelude::*;

verus! {

/// No queued row has its output written, and no row is queued twice.
pub open spec fn queue_fresh(st: EngineState) -> bool {
    &&& forall|k: int|
        0 <= k < st.queue.len() ==> st.trace[(#[trigger] st.queue[k]) as int] is None
    &&& forall|k1: int, k2: int|
        0 <= k1 < k2 < st.queue.len() ==> st.queue[k1] != st.queue[k2]
}

/// The operands of row `r` are written and its output is not.
pub open spec fn row_ready(t: Seq<Option<nat>>, r: int) -> bool {
    t[3 * r] is Some && t[3 * r + 1] is Some && t[3 * r + 2] is None
}

/// Every row that is ready is queued.
pub open spec fn ready_queued(c: CircuitView, st: EngineState) -> bool {
    forall|r: int|
        0 <= r < c.n_rows && #[trigger] row_ready(st.trace, r) ==> st.queue.contains(
            (3 * r + 2) as usize,
        )
}

/// If the output of row `r` is written, so are its operands, and the output
/// is what the row's operation makes of them.
pub open spec fn row_sound(c: CircuitView, t: Seq<Option<nat>>, r: int) -> bool {
    t[3 * r + 2] is Some ==> t[3 * r] is Some && t[3 * r + 1] is Some && t[3 * r + 2] == Some(
        gate_value(c.selectors[r], t[3 * r].unwrap(), t[3 * r + 1].unwrap()),
    )
}

/// Every written output is what its gate makes of its operands.
pub open spec fn gates_sound(c: CircuitView, t: Seq<Option<nat>>) -> bool {
    forall|r: int| 0 <= r < c.n_rows ==> #[trigger] row_sound(c, t, r)
}

/// Group `g` is untouched or done: the group of an input that is loaded
/// holds the input everywhere, that of an input not yet loaded is
/// unwritten; another group holds everywhere what its head holds.
pub open spec fn group_ok(
    c: CircuitView,
    inputs: Seq<nat>,
    t: Seq<Option<nat>>,
    loaded: nat,
    g: int,
) -> bool {
    forall|i: int|
        0 <= i < c.groups[g].len() ==> t[(#[trigger] c.groups[g][i]) as int] == (if g
            < c.n_inputs() {
            if g < loaded {
                Some(inputs[g])
            } else {
                None
            }
        } else {
            t[c.groups[g][0] as int]
        })
}

/// Group `g` is being written with `v`: its root and its first `j` cells
/// hold `v`, its other cells are unwritten.
pub open spec fn group_mid(c: CircuitView, t: Seq<Option<nat>>, g: int, j: int, v: nat) -> bool {
    &&& t[c.root(g) as int] == Some(v)
    &&& forall|i: int|
        0 <= i < c.groups[g].len() ==> t[(#[trigger] c.groups[g][i]) as int] == (if i < j
            || c.groups[g][i] == c.root(g) {
            Some(v)
        } else {
            None
        })
}

/// What holds of the engine's state between two of its operations, when
/// the first `loaded` inputs are loaded.
pub open spec fn sound(c: CircuitView, inputs: Seq<nat>, st: EngineState, loaded: nat) -> bool {
    &&& queue_ok(c, st)
    &&& queue_fresh(st)
    &&& ready_queued(c, st)
    &&& gates_sound(c, st.trace)
    &&& forall|g: int|
        0 <= g < c.groups.len() ==> #[trigger] group_ok(c, inputs, st.trace, loaded, g)
}

/// What holds of the engine's state while group `g` is written with `v`
/// and its first `j` cells are done.
pub open spec fn mid(
    c: CircuitView,
    inputs: Seq<nat>,
    st: EngineState,
    loaded: nat,
    g: int,
    j: int,
    v: nat,
) -> bool {
    &&& queue_ok(c, st)
    &&& queue_fresh(st)
    &&& ready_queued(c, st)
    &&& gates_sound(c, st.trace)
    &&& forall|h: int|
        0 <= h < c.groups.len() && h != g ==> #[trigger] group_ok(c, inputs, st.trace, loaded, h)
    &&& group_mid(c, st.trace, g, j, v)
}

/// In a gate-wired circuit a cell of a group is the group's root or an
/// operand cell, it is a cell of no other group, and the root of no other
/// group.
proof fn lemma_member(c: CircuitView, g: int, j: int)
    requires
        c.gate_wired(),
        0 <= g < c.groups.len(),
        0 <= j < c.groups[g].len(),
    ensures
        c.groups[g][j] < c.n_cells,
        c.groups[g][j] == c.root(g) || c.is_operand(c.groups[g][j]),
        c.groups[g].contains(c.groups[g][j]),
        c.groups[g].contains(c.root(g)),
        !c.is_operand(c.root(g)),
        forall|i: int| 0 <= i < c.groups[g].len() && i != j ==> c.groups[g][i] != c.groups[g][j],
        forall|h: int, i: int|
            0 <= h < c.groups.len() && h != g && 0 <= i < c.groups[h].len() ==> (
            #[trigger] c.groups[h][i]) != c.groups[g][j],
{
    let cell = c.groups[g][j];
    assert(c.groups[g].contains(cell));
    if g < c.n_inputs() {
        assert(c.groups[g].contains(c.input_cell(g) as usize));
    } else {
        assert(c.groups[g][0] == c.root(g));
    }
    assert forall|h: int, i: int|
        0 <= h < c.groups.len() && h != g && 0 <= i < c.groups[h].len() implies (
    #[trigger] c.groups[h][i]) != cell by {
        if c.groups[h][i] == cell {
            assert(c.groups[h].contains(cell));
        }
    }
}

/// Writing the next cell of a group that is being written.
proof fn lemma_assign_mid(
    c: CircuitView,
    inputs: Seq<nat>,
    st: EngineState,
    loaded: nat,
    g: int,
    j: int,
    v: nat,
)
    requires
        c.gate_wired(),
        0 <= g < c.groups.len(),
        0 <= j < c.groups[g].len(),
        mid(c, inputs, st, loaded, g, j, v),
    ensures
        mid(c, inputs, assign(c, st, c.groups[g][j], v), loaded, g, j + 1, v),
{
    let cell = c.groups[g][j];
    let next = assign(c, st, cell, v);
    let t = st.trace;
    let u = next.trace;
    let row = cell as int / 3;
    lemma_member(c, g, j);
    lemma_assign_queue_ok(c, st, cell, v);
    assert(u == t.update(cell as int, Some(v)));
    if cell == c.root(g) {
        assert(t[cell as int] == Some(v));
        assert(u =~= t);
        if g < c.n_inputs() {
            assert(row >= c.n_rows);
        } else {
            assert(cell as int == 3 * row + 2);
        }
        assert(next.queue == st.queue);
        assert(next == st);
        assert(group_mid(c, u, g, j + 1, v));
    } else {
        assert(c.is_operand(cell));
        assert(t[cell as int] is None);
        assert(row_sound(c, t, row));
        assert(t[3 * row + 2] is None);
        assert(u[3 * row + 2] is None);
        assert(gates_sound(c, u)) by {
            assert forall|r: int| 0 <= r < c.n_rows implies #[trigger] row_sound(c, u, r) by {
                assert(row_sound(c, t, r));
            }
        }
        assert(queue_fresh(next)) by {
            assert forall|k: int| 0 <= k < st.queue.len() implies st.queue[k] != cell && st.queue[k]
                != (3 * row + 2) as usize by {
                let q = st.queue[k];
                assert(q % 3 == 2);
                if q == (3 * row + 2) as usize {
                    assert(t[q - 2] is Some);
                    assert(t[q - 1] is Some);
                }
            }
            assert forall|k: int| 0 <= k < next.queue.len() implies next.trace[(
            #[trigger] next.queue[k]) as int] is None by {
                if k < st.queue.len() {
                    assert(next.queue[k] == st.queue[k]);
                }
            }
            assert forall|k1: int, k2: int| 0 <= k1 < k2 < next.queue.len() implies next.queue[k1]
                != next.queue[k2] by {
                if k2 < st.queue.len() {
                    assert(next.queue[k1] == st.queue[k1]);
                    assert(next.queue[k2] == st.queue[k2]);
                } else {
                    assert(next.queue[k1] == st.queue[k1]);
                }
            }
        }
        assert(ready_queued(c, next)) by {
            assert forall|r: int| 0 <= r < c.n_rows && #[trigger] row_ready(u, r) implies next.queue.contains(
                (3 * r + 2) as usize,
            ) by {
                if r == row {
                    assert(next.queue.last() == (3 * row + 2) as usize);
                } else {
                    assert(row_ready(t, r));
                    let k = choose|k: int|
                        0 <= k < st.queue.len() && st.queue[k] == (3 * r + 2) as usize;
                    assert(next.queue[k] == (3 * r + 2) as usize);
                }
            }
        }
        assert forall|h: int| 0 <= h < c.groups.len() && h != g implies #[trigger] group_ok(
            c,
            inputs,
            u,
            loaded,
            h,
        ) by {
            assert(group_ok(c, inputs, t, loaded, h));
            assert forall|i: int| 0 <= i < c.groups[h].len() implies u[(
            #[trigger] c.groups[h][i]) as int] == t[c.groups[h][i] as int] by {}
            if h >= c.n_inputs() {
                assert(c.groups[h].len() > 0);
                assert(u[c.groups[h][0] as int] == t[c.groups[h][0] as int]);
            }
        }
        assert(group_mid(c, u, g, j + 1, v)) by {
            assert(c.root(g) != cell);
            assert forall|i: int| 0 <= i < c.groups[g].len() implies u[(
            #[trigger] c.groups[g][i]) as int] == (if i < j + 1 || c.groups[g][i] == c.root(g) {
                Some(v)
            } else {
                None
            }) by {
                if i != j {
                    assert(c.groups[g][i] != cell);
                }
            }
        }
    }
}

/// Writing the first `j` cells of a group that is being written.
proof fn lemma_propagate_mid(
    c: CircuitView,
    inputs: Seq<nat>,
    st: EngineState,
    loaded: nat,
    g: int,
    v: nat,
    j: nat,
)
    requires
        c.gate_wired(),
        0 <= g < c.groups.len(),
        j <= c.groups[g].len(),
        mid(c, inputs, st, loaded, g, 0, v),
    ensures
        mid(c, inputs, propagate(c, st, c.groups[g], v, j), loaded, g, j as int, v),
    decreases j,
{
    if j > 0 {
        lemma_propagate_mid(c, inputs, st, loaded, g, v, (j - 1) as nat);
        lemma_assign_mid(
            c,
            inputs,
            propagate(c, st, c.groups[g], v, (j - 1) as nat),
            loaded,
            g,
            j - 1,
            v,
        );
    }
}

/// In a gate-wired circuit the first group that holds a cell of group `g`
/// is `g`.
proof fn lemma_group_of_member(c: CircuitView, g: int, a: usize)
    requires
        c.gate_wired(),
        0 <= g < c.groups.len(),
        c.groups[g].contains(a),
    ensures
        c.group_index(a) == g,
{
    assert(c.group_sets()[g].contains(a));
    assert forall|h: int| 0 <= h < g implies !(#[trigger] c.group_sets()[h]).contains(a) by {
        assert(!c.groups[h].contains(a));
    }
    lemma_first_group(c.group_sets(), a, g);
}

/// In a gate-wired circuit a cell that some group holds is held by the
/// first group that holds it, and no group holds a cell that none holds.
proof fn lemma_group_index(c: CircuitView, a: usize)
    requires
        c.gate_wired(),
    ensures
        0 <= c.group_index(a) <= c.groups.len(),
        c.group_index(a) < c.groups.len() ==> c.groups[c.group_index(a)].contains(a),
        c.group_index(a) == c.groups.len() ==> forall|h: int|
            0 <= h < c.groups.len() ==> !(#[trigger] c.groups[h]).contains(a),
{
    lemma_first_group_is_first(c.group_sets(), a);
    let g = c.group_index(a);
    if g < c.groups.len() {
        assert(c.group_sets()[g].contains(a));
    } else {
        assert forall|h: int| 0 <= h < c.groups.len() implies !(#[trigger] c.groups[h]).contains(
            a,
        ) by {
            assert(!c.group_sets()[h].contains(a));
        }
    }
}

/// A group that was written to its end is done.
proof fn lemma_mid_done(
    c: CircuitView,
    inputs: Seq<nat>,
    st: EngineState,
    loaded: nat,
    g: int,
    v: nat,
    after: nat,
)
    requires
        c.gate_wired(),
        0 <= g < c.groups.len(),
        mid(c, inputs, st, loaded, g, c.groups[g].len() as int, v),
        g < c.n_inputs() ==> g == loaded && after == loaded + 1 && v == inputs[g],
        g >= c.n_inputs() ==> after == loaded,
    ensures
        sound(c, inputs, st, after),
{
    let t = st.trace;
    assert forall|h: int| 0 <= h < c.groups.len() implies #[trigger] group_ok(
        c,
        inputs,
        t,
        after,
        h,
    ) by {
        if h != g {
            assert(group_ok(c, inputs, t, loaded, h));
        } else {
            if g >= c.n_inputs() {
                assert(c.groups[g].len() > 0);
                assert(t[c.groups[g][0] as int] == Some(v));
            }
        }
    }
}

/// Loading the next input keeps the state sound.
proof fn lemma_load_input(c: CircuitView, inputs: Seq<nat>, st: EngineState, i: nat)
    requires
        c.gate_wired(),
        i < c.n_inputs(),
        sound(c, inputs, st, i),
    ensures
        sound(c, inputs, load_input(c, st, i, inputs[i as int]), i + 1),
{
    let v = inputs[i as int];
    let g = i as int;
    let id = (c.n_cells - (i + 1)) as usize;
    let t = st.trace;
    let written = EngineState { trace: t.update(id as int, Some(v)), queue: st.queue };
    let u = written.trace;
    assert(id == c.input_cell(g));
    assert(c.groups[g].contains(id));
    lemma_group_of_member(c, g, id);
    assert(mid(c, inputs, written, i, g, 0, v)) by {
        assert(queue_ok(c, written));
        assert(queue_fresh(written)) by {
            assert forall|k: int| 0 <= k < st.queue.len() implies (#[trigger] st.queue[k]) != id by {
            }
        }
        assert(ready_queued(c, written)) by {
            assert forall|r: int| 0 <= r < c.n_rows && #[trigger] row_ready(u, r) implies written.queue.contains(
                (3 * r + 2) as usize,
            ) by {
                assert(row_ready(t, r));
            }
        }
        assert(gates_sound(c, u)) by {
            assert forall|r: int| 0 <= r < c.n_rows implies #[trigger] row_sound(c, u, r) by {
                assert(row_sound(c, t, r));
            }
        }
        assert forall|h: int| 0 <= h < c.groups.len() && h != g implies #[trigger] group_ok(
            c,
            inputs,
            u,
            i,
            h,
        ) by {
            assert(group_ok(c, inputs, t, i, h));
            assert forall|k: int| 0 <= k < c.groups[h].len() implies (#[trigger] c.groups[h][k])
                != id by {
                if c.groups[h][k] == id {
                    assert(c.groups[h].contains(id));
                }
            }
        }
        assert(group_mid(c, u, g, 0, v)) by {
            assert(group_ok(c, inputs, t, i, g));
        }
    }
    lemma_propagate_mid(c, inputs, written, i, g, v, c.groups[g].len());
    lemma_mid_done(c, inputs, spread(c, written, id, v), i, g, v, i + 1);
}

/// After any number of inputs are loaded the state is sound.
proof fn lemma_loaded(c: CircuitView, inputs: Seq<nat>, k: nat)
    requires
        c.gate_wired(),
        k <= c.n_inputs(),
    ensures
        sound(c, inputs, load_inputs(c, inputs, k), k),
    decreases k,
{
    if k == 0 {
        let st = load_inputs(c, inputs, 0);
        assert(queue_ok(c, st));
        assert(queue_fresh(st));
        assert(ready_queued(c, st));
        assert(gates_sound(c, st.trace));
        assert forall|g: int| 0 <= g < c.groups.len() implies #[trigger] group_ok(
            c,
            inputs,
            st.trace,
            0,
            g,
        ) by {
            if g >= c.n_inputs() {
                assert(c.groups[g].len() > 0);
                assert(c.groups[g][0] < c.n_cells);
            }
        }
    } else {
        lemma_loaded(c, inputs, (k - 1) as nat);
        lemma_load_input(c, inputs, load_inputs(c, inputs, (k - 1) as nat), (k - 1) as nat);
    }
}

/// Computing the oldest queued row keeps the state sound.
proof fn lemma_step(c: CircuitView, inputs: Seq<nat>, st: EngineState)
    requires
        c.gate_wired(),
        sound(c, inputs, st, c.n_inputs()),
        st.queue.len() > 0,
    ensures
        sound(c, inputs, step(c, st), c.n_inputs()),
{
    let loaded = c.n_inputs();
    let t = st.trace;
    let id = st.queue[0];
    let row = id as int / 3;
    assert(id as int == 3 * row + 2);
    assert(t[id as int] is None);
    let v = gate_value(c.selectors[row], t[id - 2].unwrap(), t[id - 1].unwrap());
    let popped = EngineState {
        trace: t.update(id as int, Some(v)),
        queue: st.queue.subrange(1, st.queue.len() as int),
    };
    let u = popped.trace;
    assert(c.is_output(id));
    assert(queue_ok(c, popped)) by {
        assert forall|k: int| 0 <= k < popped.queue.len() implies {
            let q = #[trigger] popped.queue[k];
            &&& q % 3 == 2
            &&& q < 3 * c.n_rows
            &&& u[q - 2] is Some
            &&& u[q - 1] is Some
        } by {
            assert(popped.queue[k] == st.queue[k + 1]);
        }
    }
    assert(queue_fresh(popped)) by {
        assert forall|k: int| 0 <= k < popped.queue.len() implies u[(
        #[trigger] popped.queue[k]) as int] is None by {
            assert(popped.queue[k] == st.queue[k + 1]);
        }
        assert forall|k1: int, k2: int| 0 <= k1 < k2 < popped.queue.len() implies popped.queue[k1]
            != popped.queue[k2] by {
            assert(popped.queue[k1] == st.queue[k1 + 1]);
            assert(popped.queue[k2] == st.queue[k2 + 1]);
        }
    }
    assert(ready_queued(c, popped)) by {
        assert forall|r: int| 0 <= r < c.n_rows && #[trigger] row_ready(u, r) implies popped.queue.contains(
            (3 * r + 2) as usize,
        ) by {
            assert(r != row);
            assert(row_ready(t, r));
            let k = choose|k: int| 0 <= k < st.queue.len() && st.queue[k] == (3 * r + 2) as usize;
            assert(k > 0);
            assert(popped.queue[k - 1] == (3 * r + 2) as usize);
        }
    }
    assert(gates_sound(c, u)) by {
        assert forall|r: int| 0 <= r < c.n_rows implies #[trigger] row_sound(c, u, r) by {
            assert(row_sound(c, t, r));
        }
    }
    lemma_group_index(c, id);
    let g = c.group_index(id);
    assert forall|h: int| 0 <= h < c.groups.len() && h != g implies #[trigger] group_ok(
        c,
        inputs,
        u,
        loaded,
        h,
    ) by {
        assert(group_ok(c, inputs, t, loaded, h));
        assert forall|k: int| 0 <= k < c.groups[h].len() implies (#[trigger] c.groups[h][k])
            != id by {
            if c.groups[h][k] == id {
                assert(c.groups[h].contains(id));
            }
        }
        if h >= c.n_inputs() {
            assert(c.groups[h].len() > 0);
        }
    }
    if g < c.groups.len() {
        let k = choose|k: int| 0 <= k < c.groups[g].len() && c.groups[g][k] == id;
        lemma_member(c, g, k);
        assert(id == c.root(g));
        assert(g >= c.n_inputs());
        assert(c.groups[g][0] == id);
        assert(group_ok(c, inputs, t, loaded, g));
        if id == c.output {
            assert forall|i: int| 0 <= i < c.groups[g].len() implies (#[trigger] c.groups[g][i])
                == id by {
                if i >= 1 {
                    assert(c.is_operand(c.groups[g][i]));
                    assert(c.groups[g][0] < c.groups[g][i]);
                }
            }
            assert(group_ok(c, inputs, u, loaded, g));
        } else {
            assert(group_mid(c, u, g, 0, v)) by {
                assert forall|i: int| 0 <= i < c.groups[g].len() implies u[(
                #[trigger] c.groups[g][i]) as int] == (if i < 0 || c.groups[g][i] == c.root(g) {
                    Some(v)
                } else {
                    None
                }) by {
                    assert(t[c.groups[g][i] as int] == t[c.groups[g][0] as int]);
                }
            }
            assert(mid(c, inputs, popped, loaded, g, 0, v));
            lemma_propagate_mid(c, inputs, popped, loaded, g, v, c.groups[g].len());
            lemma_mid_done(c, inputs, spread(c, popped, id, v), loaded, g, v, loaded);
        }
    }
}

/// While no earlier state had an empty queue, every state of the
/// evaluation is sound.
proof fn lemma_steps(c: CircuitView, inputs: Seq<nat>, n: nat)
    requires
        c.gate_wired(),
        forall|m: nat| m < n ==> (#[trigger] steps(c, loaded(c, inputs), m)).queue.len() > 0,
    ensures
        sound(c, inputs, steps(c, loaded(c, inputs), n), c.n_inputs()),
    decreases n,
{
    if n == 0 {
        lemma_loaded(c, inputs, c.n_inputs());
    } else {
        lemma_steps(c, inputs, (n - 1) as nat);
        let before = steps(c, loaded(c, inputs), (n - 1) as nat);
        assert(before.queue.len() > 0);
        lemma_step(c, inputs, before);
    }
}

/// Row `r` computes what its gate makes of its operands.
pub open spec fn gate_holds(c: CircuitView, w: Seq<nat>, r: int) -> bool {
    w[3 * r + 2] == gate_value(c.selectors[r], w[3 * r], w[3 * r + 1])
}

/// Every cell of group `g` holds the same value.
pub open spec fn group_agrees(c: CircuitView, w: Seq<nat>, g: int) -> bool {
    forall|i: int, j: int|
        0 <= i < c.groups[g].len() && 0 <= j < c.groups[g].len() ==> w[(
        #[trigger] c.groups[g][i]) as int] == w[(#[trigger] c.groups[g][j]) as int]
}

/// `w` is a witness of the circuit for the inputs: it has a value for
/// every cell, the inputs stand in their cells, every gate equation holds,
/// and every copy constraint holds.
pub open spec fn satisfies(c: CircuitView, inputs: Seq<nat>, w: Seq<nat>) -> bool {
    &&& w.len() == c.n_cells
    &&& forall|k: int| 0 <= k < c.n_inputs() ==> w[c.input_cell(k)] == #[trigger] inputs[k]
    &&& forall|r: int| 0 <= r < c.n_rows ==> #[trigger] gate_holds(c, w, r)
    &&& forall|g: int| 0 <= g < c.groups.len() ==> #[trigger] group_agrees(c, w, g)
}

/// In a sound state with an empty queue every cell below row `r` is
/// written.
proof fn lemma_rows_written(c: CircuitView, inputs: Seq<nat>, st: EngineState, r: nat)
    requires
        c.gate_wired(),
        sound(c, inputs, st, c.n_inputs()),
        st.queue.len() == 0,
        r <= c.n_rows,
    ensures
        forall|a: int| 0 <= a < 3 * r ==> (#[trigger] st.trace[a]) is Some,
    decreases r,
{
    if r > 0 {
        lemma_rows_written(c, inputs, st, (r - 1) as nat);
        let t = st.trace;
        let base = 3 * (r - 1);
        assert forall|e: int| 0 <= e < 2 implies (#[trigger] t[base + e]) is Some by {
            let a = (base + e) as usize;
            assert(c.is_operand(a));
            lemma_group_index(c, a);
            let g = c.group_index(a);
            let i = choose|i: int| 0 <= i < c.groups[g].len() && c.groups[g][i] == a;
            assert(group_ok(c, inputs, t, c.n_inputs(), g));
            if g >= c.n_inputs() {
                lemma_member(c, g, i);
                assert(i != 0);
                assert(c.groups[g][0] < c.groups[g][i]);
                assert(c.is_output(c.groups[g][0]));
                assert(t[c.groups[g][0] as int] is Some);
            }
        }
        assert(t[base + 0] is Some);
        assert(t[base + 1] is Some);
        if t[base + 2] is None {
            assert(row_ready(t, r - 1));
            assert(st.queue.contains((base + 2) as usize));
        }
        assert forall|a: int| 0 <= a < 3 * r implies (#[trigger] t[a]) is Some by {
            if a >= base {
                assert(a == base + 0 || a == base + 1 || a == base + 2);
            }
        }
    }
}

/// In a sound state with an empty queue the trace is a witness.
proof fn lemma_final(c: CircuitView, inputs: Seq<nat>, st: EngineState)
    requires
        c.gate_wired(),
        sound(c, inputs, st, c.n_inputs()),
        st.queue.len() == 0,
    ensures
        complete(st.trace),
        outcome(st.trace) is Ok,
        satisfies(c, inputs, outcome(st.trace).unwrap()),
{
    let t = st.trace;
    lemma_rows_written(c, inputs, st, c.n_rows);
    assert forall|k: int| 0 <= k < c.n_inputs() implies t[c.input_cell(k)] == Some(
        #[trigger] inputs[k],
    ) by {
        assert(c.groups[k].contains(c.input_cell(k) as usize));
        let i = choose|i: int|
            0 <= i < c.groups[k].len() && c.groups[k][i] == c.input_cell(k) as usize;
        assert(group_ok(c, inputs, t, c.n_inputs(), k));
    }
    assert forall|a: int| 0 <= a < t.len() implies (#[trigger] t[a]) is Some by {
        if a >= 3 * c.n_rows {
            let k = c.n_cells - 1 - a;
            assert(c.input_cell(k) == a);
            assert(t[c.input_cell(k)] == Some(inputs[k]));
        }
    }
    let w = outcome(t).unwrap();
    assert forall|r: int| 0 <= r < c.n_rows implies #[trigger] gate_holds(c, w, r) by {
        assert(row_sound(c, t, r));
    }
    assert forall|g: int| 0 <= g < c.groups.len() implies #[trigger] group_agrees(c, w, g) by {
        assert(group_ok(c, inputs, t, c.n_inputs(), g));
        assert forall|i: int| 0 <= i < c.groups[g].len() implies (#[trigger] c.groups[g][i])
            < c.n_cells by {}
    }
    assert forall|k: int| 0 <= k < c.n_inputs() implies w[c.input_cell(k)] == #[trigger] inputs[k] by {
        assert(t[c.input_cell(k)] == Some(inputs[k]));
    }
}

/// On a circuit whose copy constraints are those of gates the engine
/// never fails: whatever the inputs, every cell is written when the queue
/// runs empty, and the trace is a witness of the circuit for the inputs.
pub proof fn lemma_gate_wired_witness(
    c: CircuitView,
    inputs: Seq<nat>,
    w: Result<Seq<nat>, crate::error::WitnessError>,
)
    requires
        c.gate_wired(),
        witness_of(c, inputs, w),
    ensures
        w is Ok,
        satisfies(c, inputs, w.unwrap()),
{
    let n = choose|n: nat| #[trigger]
        ends_after(c, inputs, n) && w == outcome(steps(c, loaded(c, inputs), n).trace);
    lemma_steps(c, inputs, n);
    lemma_final(c, inputs, steps(c, loaded(c, inputs), n));
}

/// A circuit built from gates alone, on valid operands, has a witness for
/// any inputs, and the engine finds it: the evaluation ends with every cell
/// written, the inputs in their cells, every gate equation and every copy
/// constraint satisfied.
pub proof fn lemma_gates_only_witness(
    b: BuilderView,
    c: CircuitView,
    inputs: Seq<nat>,
    w: Result<Seq<nat>, crate::error::WitnessError>,
)
    requires
        b.gates_only(),
        c.is_build_of(b),
        c.wf(),
        witness_of(c, inputs, w),
    ensures
        w is Ok,
        satisfies(c, inputs, w.unwrap()),
{
    lemma_gates_only_wired(b, c);
    lemma_gate_wired_witness(c, inputs, w);
}

/// The evaluation has one result.
pub proof fn lemma_witness_unique(
    c: CircuitView,
    inputs: Seq<nat>,
    w1: Result<Seq<nat>, crate::error::WitnessError>,
    w2: Result<Seq<nat>, crate::error::WitnessError>,
)
    requires
        witness_of(c, inputs, w1),
        witness_of(c, inputs, w2),
    ensures
        w1 == w2,
{
    let n1 = choose|n: nat| #[trigger]
        ends_after(c, inputs, n) && w1 == outcome(steps(c, loaded(c, inputs), n).trace);
    let n2 = choose|n: nat| #[trigger]
        ends_after(c, inputs, n) && w2 == outcome(steps(c, loaded(c, inputs), n).trace);
    if n1 < n2 {
        assert(steps(c, loaded(c, inputs), n1).queue.len() > 0);
    } else if n2 < n1 {
        assert(steps(c, loaded(c, inputs), n2).queue.len() > 0);
    }
}

} // verus!
