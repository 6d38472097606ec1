//! The shape of the copy constraints of a circuit that was declared by
//! gates alone.

use crate::circuit::{
    first_group, lemma_first_group, lemma_first_group_is_first, merge_all, merge_pair, resolve,
    BuilderView, Cellref, CircuitView, Op,
};
use vstd::prelude::*;

verus! {

impl CircuitView {
    /// `a` is the cell of an operand of some row.
    pub open spec fn is_operand(self, a: usize) -> bool {
        a < 3 * self.n_rows && a % 3 != 2
    }

    /// `a` is the output cell of some row.
    pub open spec fn is_output(self, a: usize) -> bool {
        a < 3 * self.n_rows && a % 3 == 2
    }

    /// The cell that the values of group `g` come from: the input's cell
    /// for the group of an input, and the least address for another group.
    pub open spec fn root(self, g: int) -> usize {
        if g < self.n_inputs() {
            self.input_cell(g) as usize
        } else {
            self.groups[g][0]
        }
    }

    /// The copy constraints are those of gates: no cell is in two groups;
    /// every operand cell is in a group; the group of an input holds, beside
    /// the input's cell, operand cells only; and every other group holds an
    /// output cell, at its head, and beside it operand cells only.
    pub open spec fn gate_wired(self) -> bool {
        &&& self.wf()
        &&& forall|g: int, h: int, a: usize|
            0 <= g < self.groups.len() && 0 <= h < self.groups.len() && g != h && (
            #[trigger] self.groups[g].contains(a)) ==> !(#[trigger] self.groups[h].contains(a))
        &&& forall|a: usize| #[trigger]
            self.is_operand(a) ==> 0 <= self.group_index(a) < self.groups.len()
        &&& forall|g: int, i: int|
            0 <= g < self.n_inputs() && 0 <= i < self.groups[g].len() ==> (
            #[trigger] self.groups[g][i]) == self.input_cell(g) || self.is_operand(
                self.groups[g][i],
            )
        &&& forall|g: int|
            self.n_inputs() <= g < self.groups.len() ==> (#[trigger] self.groups[g]).len() > 0
                && self.is_output(self.groups[g][0])
        &&& forall|g: int, i: int|
            self.n_inputs() <= g < self.groups.len() && 1 <= i < self.groups[g].len()
                ==> self.is_operand(#[trigger] self.groups[g][i])
    }
}

impl BuilderView {
    /// `x` could be an operand of row `r` when that row was added: an input
    /// that was declared, or a wire cell of an earlier row.
    pub open spec fn operand_ok(self, r: int, x: Cellref) -> bool {
        match x {
            Cellref::Input(i) => 1 <= i <= self.n_inputs(),
            Cellref::Wire(a) => a < 3 * r,
        }
    }

    /// Pairs `2 r` and `2 r + 1` are those that row `r` was declared with.
    pub open spec fn gate_row(self, r: int) -> bool {
        &&& self.pairs[2 * r].1 == Cellref::Wire((3 * r) as usize)
        &&& self.pairs[2 * r + 1].1 == Cellref::Wire((3 * r + 1) as usize)
        &&& self.operand_ok(r, self.pairs[2 * r].0)
        &&& self.operand_ok(r, self.pairs[2 * r + 1].0)
    }

    /// Nothing but gates was declared: the wire constraints are those of
    /// the gates, two for each row.
    pub open spec fn gates_only(self) -> bool {
        &&& self.pairs.len() == 2 * self.n_rows()
        &&& self.n_cells() <= usize::MAX
        &&& forall|r: int| 0 <= r < self.n_rows() ==> #[trigger] self.gate_row(r)
    }
}

/// A gate on valid operands keeps a builder one of gates only.
pub proof fn lemma_gate_keeps_gates_only(b: BuilderView, op: Op, lhs: Cellref, rhs: Cellref)
    requires
        b.gates_only(),
        b.valid_ref(lhs),
        b.valid_ref(rhs),
        b.n_cells() + 3 <= usize::MAX,
    ensures
        b.with_gate(op, lhs, rhs).gates_only(),
{
    let next = b.with_gate(op, lhs, rhs);
    assert forall|r: int| 0 <= r < next.n_rows() implies #[trigger] next.gate_row(r) by {
        if r < b.n_rows() {
            assert(b.gate_row(r));
            assert(next.pairs[2 * r] == b.pairs[2 * r]);
            assert(next.pairs[2 * r + 1] == b.pairs[2 * r + 1]);
        }
    }
}

/// From pair `k` on, every reference of a builder of gates only is valid.
proof fn lemma_gates_only_valid_from(b: BuilderView, k: nat)
    requires
        b.gates_only(),
    ensures
        b.first_invalid(k) is None,
    decreases b.pairs.len() - k,
{
    if k < b.pairs.len() {
        let r = k as int / 2;
        assert(b.gate_row(r));
        assert(k as int == 2 * r || k as int == 2 * r + 1);
        lemma_gates_only_valid_from(b, k + 1);
    }
}

/// A builder of gates only can be built as soon as it has a gate.
pub proof fn lemma_gates_only_buildable(b: BuilderView)
    requires
        b.gates_only(),
    ensures
        b.build_error() == (if b.n_rows() == 0 {
            Some(crate::error::CircuitError::NoRows)
        } else {
            None
        }),
{
    lemma_gates_only_valid_from(b, 0);
}

/// The operand cell `a` is the second cell of one of the first `m` pairs.
spec fn allocated(a: usize, m: nat) -> bool {
    a % 3 != 2 && 2 * (a as int / 3) + (a as int % 3) < m
}

/// The shape of the groups after `m` pairs of a builder of gates only,
/// with the root of each group.
spec fn shaped(b: BuilderView, groups: Seq<Set<usize>>, roots: Seq<usize>, m: nat) -> bool {
    &&& groups.len() == roots.len()
    &&& groups.len() >= b.n_inputs()
    &&& forall|g: int| 0 <= g < groups.len() ==> (#[trigger] groups[g]).contains(roots[g])
    &&& forall|g: int| 0 <= g < b.n_inputs() ==> #[trigger] roots[g] == b.n_cells() - 1 - g
    &&& forall|g: int|
        b.n_inputs() <= g < groups.len() ==> (#[trigger] roots[g]) % 3 == 2 && roots[g] < 3 * (m
            / 2)
    &&& forall|g: int, a: usize|
        0 <= g < groups.len() && (#[trigger] groups[g].contains(a)) ==> a == roots[g] || (
        allocated(a, m) && (g >= b.n_inputs() ==> a > roots[g]))
    &&& forall|g: int, h: int, a: usize|
        0 <= g < groups.len() && 0 <= h < groups.len() && g != h && (#[trigger] groups[g].contains(
            a,
        )) ==> !(#[trigger] groups[h].contains(a))
    &&& forall|a: usize| #[trigger] allocated(a, m) ==> 0 <= first_group(groups, a) < groups.len()
}

/// A cell that some group holds has a first group.
proof fn lemma_held(groups: Seq<Set<usize>>, g: int, a: usize)
    requires
        0 <= g < groups.len(),
        groups[g].contains(a),
    ensures
        0 <= first_group(groups, a) <= g,
{
    lemma_first_group_is_first(groups, a);
}

/// Merging the next pair of a builder of gates only keeps the shape.
proof fn lemma_shaped_step(b: BuilderView, groups: Seq<Set<usize>>, roots: Seq<usize>, m: nat) -> (next_roots:
    Seq<usize>)
    requires
        b.gates_only(),
        m < 2 * b.n_rows(),
        shaped(b, groups, roots, m),
    ensures
        shaped(
            b,
            merge_pair(groups, b.resolved_pairs()[m as int].0, b.resolved_pairs()[m as int].1),
            next_roots,
            m + 1,
        ),
{
    let r = m as int / 2;
    let e = m as int % 2;
    assert(b.gate_row(r));
    let x = b.resolved_pairs()[m as int].0;
    let y = b.resolved_pairs()[m as int].1;
    let x_ref = b.pairs[m as int].0;
    assert(m as int == 2 * r + e);
    assert(b.pairs[m as int].1 == Cellref::Wire((3 * r + e) as usize));
    assert(y == (3 * r + e) as usize);
    assert(b.operand_ok(r, x_ref));
    assert(x == resolve(b.n_cells(), x_ref));
    // the second cell of the pair is new
    assert forall|g: int| 0 <= g < groups.len() implies !(#[trigger] groups[g]).contains(y) by {
        if groups[g].contains(y) {
            assert(!allocated(y, m));
            assert(y == roots[g]);
            if g < b.n_inputs() {
                assert(roots[g] == b.n_cells() - 1 - g);
            }
        }
    }
    lemma_first_group(groups, y, groups.len() as int);
    lemma_first_group_is_first(groups, x);
    let i = first_group(groups, x);
    let merged = merge_pair(groups, x, y);
    assert(allocated(y, m + 1));
    if i < groups.len() {
        assert(merged == groups.update(i, groups[i].insert(y)));
        assert forall|g: int, a: usize|
            0 <= g < merged.len() && (#[trigger] merged[g].contains(a)) implies a == roots[g] || (
        allocated(a, m + 1) && (g >= b.n_inputs() ==> a > roots[g])) by {
            if !(g == i && a == y) {
                assert(groups[g].contains(a));
            }
        }
        assert forall|g: int, h: int, a: usize|
            0 <= g < merged.len() && 0 <= h < merged.len() && g != h && (
            #[trigger] merged[g].contains(a)) implies !(#[trigger] merged[h].contains(a)) by {
            if a == y {
                if g == i {
                    assert(!groups[h].contains(y));
                } else {
                    assert(!groups[g].contains(y));
                }
            } else {
                assert(groups[g].contains(a));
                if merged[h].contains(a) {
                    assert(groups[h].contains(a));
                }
            }
        }
        assert forall|a: usize| #[trigger] allocated(a, m + 1) implies 0 <= first_group(merged, a)
            < merged.len() by {
            if a == y {
                lemma_held(merged, i, a);
            } else {
                assert(allocated(a, m));
                lemma_first_group_is_first(groups, a);
                let k = first_group(groups, a);
                assert(merged[k].contains(a));
                lemma_held(merged, k, a);
            }
        }
        roots
    } else {
        // the first cell is held by no group: it is the output of an earlier row
        match x_ref {
            Cellref::Input(k) => {
                let g = k - 1;
                assert(roots[g] == b.n_cells() - 1 - g);
                assert(groups[g].contains(roots[g]));
                assert(x == roots[g]);
                lemma_held(groups, g, x);
            },
            Cellref::Wire(a) => {
                if a % 3 != 2 {
                    assert(allocated(a, m));
                }
            },
        }
        assert(x % 3 == 2 && x < 3 * r);
        assert(merged == groups.push(set![x, y]));
        let next_roots = roots.push(x);
        assert forall|g: int| 0 <= g < merged.len() implies (#[trigger] merged[g]).contains(
            next_roots[g],
        ) by {
            if g < groups.len() {
                assert(merged[g] == groups[g]);
            }
        }
        assert forall|g: int, a: usize|
            0 <= g < merged.len() && (#[trigger] merged[g].contains(a)) implies a == next_roots[g]
            || (allocated(a, m + 1) && (g >= b.n_inputs() ==> a > next_roots[g])) by {
            if g < groups.len() {
                assert(groups[g].contains(a));
            }
        }
        assert forall|g: int, h: int, a: usize|
            0 <= g < merged.len() && 0 <= h < merged.len() && g != h && (
            #[trigger] merged[g].contains(a)) implies !(#[trigger] merged[h].contains(a)) by {
            if g < groups.len() && h < groups.len() {
                assert(groups[g].contains(a));
                if merged[h].contains(a) {
                    assert(groups[h].contains(a));
                }
            } else if g < groups.len() {
                assert(groups[g].contains(a));
            } else {
                if merged[h].contains(a) {
                    assert(groups[h].contains(a));
                }
            }
        }
        assert forall|a: usize| #[trigger] allocated(a, m + 1) implies 0 <= first_group(merged, a)
            < merged.len() by {
            if a == y {
                lemma_held(merged, groups.len() as int, a);
            } else {
                assert(allocated(a, m));
                lemma_first_group_is_first(groups, a);
                let k = first_group(groups, a);
                assert(merged[k].contains(a));
                lemma_held(merged, k, a);
            }
        }
        assert forall|g: int| b.n_inputs() <= g < merged.len() implies (#[trigger] next_roots[g])
            % 3 == 2 && next_roots[g] < 3 * ((m + 1) / 2) by {
            if g < groups.len() {
                assert(roots[g] % 3 == 2 && roots[g] < 3 * (m / 2));
            }
        }
        next_roots
    }
}

/// The shape of the groups of a builder of gates only after its first `m`
/// pairs.
proof fn lemma_shaped(b: BuilderView, m: nat) -> (roots: Seq<usize>)
    requires
        b.gates_only(),
        m <= 2 * b.n_rows(),
    ensures
        shaped(b, merge_all(b.initial_groups(), b.resolved_pairs(), m), roots, m),
    decreases m,
{
    if m == 0 {
        let groups = b.initial_groups();
        let roots = Seq::new(b.n_inputs(), |g: int| (b.n_cells() - 1 - g) as usize);
        assert forall|a: usize| #[trigger] allocated(a, 0) implies 0 <= first_group(groups, a)
            < groups.len() by {}
        roots
    } else {
        let before = lemma_shaped(b, (m - 1) as nat);
        lemma_shaped_step(
            b,
            merge_all(b.initial_groups(), b.resolved_pairs(), (m - 1) as nat),
            before,
            (m - 1) as nat,
        )
    }
}

/// The copy constraints of a circuit built from gates alone are those of
/// gates.
pub proof fn lemma_gates_only_wired(b: BuilderView, c: CircuitView)
    requires
        b.gates_only(),
        c.is_build_of(b),
        c.wf(),
    ensures
        c.gate_wired(),
{
    let m = 2 * b.n_rows();
    let roots = lemma_shaped(b, m);
    let sets = b.groups();
    assert(sets == c.group_sets());
    assert(c.group_sets().len() == c.groups.len());
    assert forall|g: int, a: usize| 0 <= g < c.groups.len() implies (c.groups[g].contains(a)
        <==> sets[g].contains(a)) by {
        assert(c.group_sets()[g] == c.groups[g].to_set());
    }
    assert forall|a: usize| allocated(a, m) <==> c.is_operand(a) by {}
    assert forall|g: int, h: int, a: usize|
        0 <= g < c.groups.len() && 0 <= h < c.groups.len() && g != h && (
        #[trigger] c.groups[g].contains(a)) implies !(#[trigger] c.groups[h].contains(a)) by {
        assert(sets[g].contains(a));
        if c.groups[h].contains(a) {
            assert(sets[h].contains(a));
        }
    }
    assert forall|a: usize| #[trigger] c.is_operand(a) implies 0 <= c.group_index(a)
        < c.groups.len() by {
        assert(allocated(a, m));
    }
    assert forall|g: int, i: int|
        0 <= g < c.n_inputs() && 0 <= i < c.groups[g].len() implies (#[trigger] c.groups[g][i])
        == c.input_cell(g) || c.is_operand(c.groups[g][i]) by {
        let a = c.groups[g][i];
        assert(c.groups[g].contains(a));
        assert(sets[g].contains(a));
        assert(roots[g] == b.n_cells() - 1 - g);
    }
    assert forall|g: int| c.n_inputs() <= g < c.groups.len() implies (#[trigger] c.groups[g]).len()
        > 0 && c.is_output(c.groups[g][0]) by {
        assert(sets[g].contains(roots[g]));
        assert(c.groups[g].contains(roots[g]));
        let k = choose|k: int| 0 <= k < c.groups[g].len() && c.groups[g][k] == roots[g];
        let first = c.groups[g][0];
        assert(c.groups[g].contains(first));
        assert(sets[g].contains(first));
        if first != roots[g] {
            assert(first > roots[g]);
            assert(k > 0);
            assert(c.groups[g][0] < c.groups[g][k]);
        }
    }
    assert forall|g: int, i: int|
        c.n_inputs() <= g < c.groups.len() && 1 <= i < c.groups[g].len() implies c.is_operand(
        #[trigger] c.groups[g][i],
    ) by {
        let a = c.groups[g][i];
        assert(c.groups[g].len() > 0 && c.is_output(c.groups[g][0]));
        assert(c.groups[g].contains(a));
        assert(sets[g].contains(a));
        assert(sets[g].contains(roots[g]));
        assert(c.groups[g].contains(roots[g]));
        let k = choose|k: int| 0 <= k < c.groups[g].len() && c.groups[g][k] == roots[g];
        let first = c.groups[g][0];
        assert(c.groups[g].contains(first));
        assert(sets[g].contains(first));
        if first != roots[g] {
            assert(k > 0);
            assert(c.groups[g][0] < c.groups[g][k]);
        }
        assert(c.groups[g][0] < c.groups[g][i]);
    }
}

} // verus!
