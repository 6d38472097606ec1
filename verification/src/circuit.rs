//! The circuit data model and its builder.
//!
//! A circuit is a table of gates, one per row. Its cells live in one address
//! space: the wire cells `3 * row + {0, 1, 2}` hold the left operand, the
//! right operand and the output of a row, and the last `n_inputs` addresses
//! hold the inputs, so that the `k`-th input (counting from 1, public inputs
//! first) sits at `n_cells - k`.

use crate::error::{CircuitError, RefError};
use crate::wiring::{
    lemma_gate_keeps_gates_only, lemma_gates_only_buildable, lemma_gates_only_wired,
};
use vstd::prelude::*;

verus! {

/// The operation of a gate.
#[derive(Clone, Copy, PartialEq, Eq, Debug, Structural)]
pub enum Op {
    /// The output is the sum of the operands.
    Add,
    /// The output is the product of the operands.
    Mul,
}

/// How many public and private inputs a circuit takes.
#[derive(Clone, Copy, Debug)]
pub struct InputConfig {
    n_pub: usize,
    n_priv: usize,
}

impl InputConfig {
    #[verifier::type_invariant]
    spec fn fits(&self) -> bool {
        self.n_pub + self.n_priv <= usize::MAX
    }

    /// The number of public inputs.
    pub closed spec fn spec_n_pub(&self) -> usize {
        self.n_pub
    }

    /// The number of private inputs.
    pub closed spec fn spec_n_priv(&self) -> usize {
        self.n_priv
    }

    /// The number of inputs, public and private.
    pub open spec fn spec_total_input(&self) -> usize {
        (self.spec_n_pub() + self.spec_n_priv()) as usize
    }

    /// Generate new input config.
    pub fn new(n_pub: usize, n_priv: usize) -> (r: Self)
        requires
            n_pub + n_priv <= usize::MAX,
        ensures
            r.spec_n_pub() == n_pub,
            r.spec_n_priv() == n_priv,
    {
        Self { n_pub, n_priv }
    }

    /// Returns number of public input.
    #[verifier::when_used_as_spec(spec_n_pub)]
    pub fn n_pub(&self) -> (r: usize)
        ensures
            r == self.spec_n_pub(),
    {
        self.n_pub
    }

    /// Returns number of private input.
    #[verifier::when_used_as_spec(spec_n_priv)]
    pub fn n_priv(&self) -> (r: usize)
        ensures
            r == self.spec_n_priv(),
    {
        self.n_priv
    }

    /// Returns total number of input.
    #[verifier::when_used_as_spec(spec_total_input)]
    pub fn total_input(&self) -> (r: usize)
        ensures
            r == self.spec_n_pub() + self.spec_n_priv(),
            r == self.spec_total_input(),
    {
        proof {
            use_type_invariant(self);
        }
        self.n_pub + self.n_priv
    }
}

/// A reference to a cell while a circuit is being described.
#[derive(Clone, Copy, PartialEq, Eq, Debug, Structural)]
pub enum Cellref {
    /// The input with this 1-based index, public inputs first.
    Input(usize),
    /// The wire cell at this address.
    Wire(usize),
}

/// What a builder has been told so far.
pub struct BuilderView {
    pub n_pub: nat,
    pub n_priv: nat,
    pub ops: Seq<Op>,
    pub pairs: Seq<(Cellref, Cellref)>,
}

impl BuilderView {
    /// The number of inputs, public and private.
    pub open spec fn n_inputs(self) -> nat {
        self.n_pub + self.n_priv
    }

    /// The number of rows: one for each gate.
    pub open spec fn n_rows(self) -> nat {
        self.ops.len()
    }

    /// The number of cells: one for each input and three for each row.
    pub open spec fn n_cells(self) -> nat {
        self.n_inputs() + 3 * self.n_rows()
    }

    /// A reference is valid when it names an input that was declared or a
    /// wire cell that has been allocated.
    pub open spec fn valid_ref(self, r: Cellref) -> bool {
        match r {
            Cellref::Input(i) => 1 <= i <= self.n_inputs(),
            Cellref::Wire(x) => x < 3 * self.n_rows(),
        }
    }

    /// The builder after one more gate on two valid operands.
    pub open spec fn with_gate(self, op: Op, lhs: Cellref, rhs: Cellref) -> BuilderView {
        BuilderView {
            ops: self.ops.push(op),
            pairs: self.pairs.push((lhs, Cellref::Wire((3 * self.n_rows()) as usize))).push(
                (rhs, Cellref::Wire((3 * self.n_rows() + 1) as usize)),
            ),
            ..self
        }
    }

    /// The builder after one more wire constraint.
    pub open spec fn with_constraint(self, x: Cellref, y: Cellref) -> BuilderView {
        BuilderView { pairs: self.pairs.push((x, y)), ..self }
    }
}

/// The error that an invalid reference is reported with.
pub open spec fn ref_error(r: Cellref) -> RefError {
    match r {
        Cellref::Input(i) => RefError::Input(i),
        Cellref::Wire(x) => RefError::Wire(x),
    }
}

/// Accumulates gates and wire constraints; `build` turns it into a circuit.
pub struct CircuitBuilder {
    current_row: usize,
    ops: Vec<Op>,
    /// Store which two cells are equal
    wiring_pairs: Vec<(Cellref, Cellref)>,
    input_config: InputConfig,
}

impl View for CircuitBuilder {
    type V = BuilderView;

    closed spec fn view(&self) -> BuilderView {
        BuilderView {
            n_pub: self.input_config.spec_n_pub() as nat,
            n_priv: self.input_config.spec_n_priv() as nat,
            ops: self.ops@,
            pairs: self.wiring_pairs@,
        }
    }
}

impl CircuitBuilder {
    /// The builder's fields agree and its cells fit the address space.
    pub closed spec fn wf(&self) -> bool {
        &&& self.current_row == self.ops.len()
        &&& self@.n_cells() <= usize::MAX
    }

    /// A well-formed builder has room for its cells.
    pub proof fn lemma_wf_fits(&self)
        requires
            self.wf(),
        ensures
            self@.n_cells() <= usize::MAX,
    {
    }

    /// Create computation builder instance
    pub fn new(input_config: InputConfig) -> (r: Self)
        ensures
            r.wf(),
            r@ == (BuilderView {
                n_pub: input_config.spec_n_pub() as nat,
                n_priv: input_config.spec_n_priv() as nat,
                ops: Seq::empty(),
                pairs: Seq::empty(),
            }),
            r@.gates_only(),
    {
        proof {
            use_type_invariant(&input_config);
        }
        Self { current_row: 0, ops: Vec::new(), wiring_pairs: Vec::new(), input_config }
    }

    /// Returns pair of vec of input refs.
    /// First item is public inputs' refs and second item is private inputs' refs.
    pub fn get_input_refs(&self) -> (r: (Vec<Cellref>, Vec<Cellref>))
        requires
            self.wf(),
        ensures
            r.0@ == Seq::new(self@.n_pub, |k: int| Cellref::Input((k + 1) as usize)),
            r.1@ == Seq::new(self@.n_priv, |k: int| Cellref::Input((self@.n_pub + k + 1) as usize)),
    {
        let pb_len = self.input_config.n_pub();
        let prv_len = self.input_config.n_priv();
        proof {
            use_type_invariant(&self.input_config);
        }
        let mut pb: Vec<Cellref> = Vec::new();
        let mut k: usize = 0;
        while k < pb_len
            invariant
                k <= pb_len,
                pb_len + prv_len <= usize::MAX,
                pb@ == Seq::new(k as nat, |j: int| Cellref::Input((j + 1) as usize)),
            decreases pb_len - k,
        {
            pb.push(Cellref::Input(k + 1));
            k = k + 1;
            assert(pb@ =~= Seq::new(k as nat, |j: int| Cellref::Input((j + 1) as usize)));
        }
        let mut prv: Vec<Cellref> = Vec::new();
        let mut k: usize = 0;
        while k < prv_len
            invariant
                k <= prv_len,
                pb_len + prv_len <= usize::MAX,
                prv@ == Seq::new(k as nat, |j: int| Cellref::Input((pb_len + j + 1) as usize)),
            decreases prv_len - k,
        {
            prv.push(Cellref::Input(pb_len + k + 1));
            k = k + 1;
            assert(prv@ =~= Seq::new(
                k as nat,
                |j: int| Cellref::Input((pb_len + j + 1) as usize),
            ));
        }
        (pb, prv)
    }

    /// Whether a reference names an input that was declared or a wire cell
    /// that has been allocated.
    pub fn validate_cell_ref(&self, cell: Cellref) -> (r: Result<(), RefError>)
        requires
            self.wf(),
        ensures
            r is Ok <==> self@.valid_ref(cell),
            r matches Err(e) ==> e == ref_error(cell),
    {
        let n_input = self.input_config.total_input();
        match cell {
            Cellref::Input(x) => {
                if x == 0 || x > n_input {
                    return Err(RefError::Input(x));
                }
            },
            Cellref::Wire(x) => {
                if x >= self.current_row * 3 {
                    return Err(RefError::Wire(x));
                }
            },
        };
        Ok(())
    }

    fn add_gate(&mut self, op: Op, lhs: Cellref, rhs: Cellref) -> (r: Result<
        Cellref,
        CircuitError,
    >)
        requires
            old(self).wf(),
            old(self)@.n_cells() + 3 <= usize::MAX,
        ensures
            final(self).wf(),
            old(self)@.gates_only() ==> final(self)@.gates_only(),
            match r {
                Ok(out) => {
                    &&& old(self)@.valid_ref(lhs)
                    &&& old(self)@.valid_ref(rhs)
                    &&& out == Cellref::Wire((3 * old(self)@.n_rows() + 2) as usize)
                    &&& final(self)@ == old(self)@.with_gate(op, lhs, rhs)
                },
                Err(e) => {
                    &&& final(self)@ == old(self)@
                    &&& !old(self)@.valid_ref(lhs) ==> e == CircuitError::Lhs(ref_error(lhs))
                    &&& old(self)@.valid_ref(lhs) ==> !old(self)@.valid_ref(rhs) && e
                        == CircuitError::Rhs(ref_error(rhs))
                },
            },
    {
        match self.validate_cell_ref(lhs) {
            Err(e) => {
                return Err(CircuitError::Lhs(e));
            },
            Ok(_) => {},
        }
        match self.validate_cell_ref(rhs) {
            Err(e) => {
                return Err(CircuitError::Rhs(e));
            },
            Ok(_) => {},
        }
        self.ops.push(op);
        let pos: usize = self.current_row * 3;
        self.current_row = self.current_row + 1;

        // add wiring constraints
        let new_lhs = Cellref::Wire(pos);
        let new_rhs = Cellref::Wire(pos + 1);

        self.wiring_pairs.push((lhs, new_lhs));
        self.wiring_pairs.push((rhs, new_rhs));
        proof {
            if old(self)@.gates_only() {
                lemma_gate_keeps_gates_only(old(self)@, op, lhs, rhs);
            }
        }

        Ok(Cellref::Wire(pos + 2))
    }

    /// Add new addition gate constraint to a circuit.
    ///
    /// Both operands are checked, the left one first, and an invalid one
    /// leaves the builder as it was. With valid operands a new row is
    /// allocated, whose operand cells are wired to `lhs` and `rhs`; the
    /// result refers to the output cell of that row.
    pub fn add_addition(&mut self, lhs: Cellref, rhs: Cellref) -> (r: Result<
        Cellref,
        CircuitError,
    >)
        requires
            old(self).wf(),
            old(self)@.n_cells() + 3 <= usize::MAX,
        ensures
            final(self).wf(),
            old(self)@.gates_only() ==> final(self)@.gates_only(),
            match r {
                Ok(out) => {
                    &&& old(self)@.valid_ref(lhs)
                    &&& old(self)@.valid_ref(rhs)
                    &&& out == Cellref::Wire((3 * old(self)@.n_rows() + 2) as usize)
                    &&& final(self)@ == old(self)@.with_gate(Op::Add, lhs, rhs)
                },
                Err(e) => {
                    &&& final(self)@ == old(self)@
                    &&& !old(self)@.valid_ref(lhs) ==> e == CircuitError::Lhs(ref_error(lhs))
                    &&& old(self)@.valid_ref(lhs) ==> !old(self)@.valid_ref(rhs) && e
                        == CircuitError::Rhs(ref_error(rhs))
                },
            },
    {
        self.add_gate(Op::Add, lhs, rhs)
    }

    /// Add new multiplication gate constraint to a circuit.
    ///
    /// Both operands are checked, the left one first, and an invalid one
    /// leaves the builder as it was. With valid operands a new row is
    /// allocated, whose operand cells are wired to `lhs` and `rhs`; the
    /// result refers to the output cell of that row.
    pub fn add_multiplication(&mut self, lhs: Cellref, rhs: Cellref) -> (r: Result<
        Cellref,
        CircuitError,
    >)
        requires
            old(self).wf(),
            old(self)@.n_cells() + 3 <= usize::MAX,
        ensures
            final(self).wf(),
            old(self)@.gates_only() ==> final(self)@.gates_only(),
            match r {
                Ok(out) => {
                    &&& old(self)@.valid_ref(lhs)
                    &&& old(self)@.valid_ref(rhs)
                    &&& out == Cellref::Wire((3 * old(self)@.n_rows() + 2) as usize)
                    &&& final(self)@ == old(self)@.with_gate(Op::Mul, lhs, rhs)
                },
                Err(e) => {
                    &&& final(self)@ == old(self)@
                    &&& !old(self)@.valid_ref(lhs) ==> e == CircuitError::Lhs(ref_error(lhs))
                    &&& old(self)@.valid_ref(lhs) ==> !old(self)@.valid_ref(rhs) && e
                        == CircuitError::Rhs(ref_error(rhs))
                },
            },
    {
        self.add_gate(Op::Mul, lhs, rhs)
    }

    /// Add wire constraint to a circuit.
    ///
    /// The pair is recorded as it is; `build` resolves it.
    pub fn add_wire_constraint(&mut self, x: Cellref, y: Cellref)
        requires
            old(self).wf(),
        ensures
            final(self).wf(),
            final(self)@ == old(self)@.with_constraint(x, y),
    {
        self.wiring_pairs.push((x, y))
    }
}

/// The address that a reference stands for in a circuit of `n_cells` cells.
pub open spec fn resolve(n_cells: nat, r: Cellref) -> usize {
    match r {
        Cellref::Wire(x) => x,
        Cellref::Input(i) => (n_cells - i) as usize,
    }
}

/// The index of the first group from `from` on that holds `x`, or the number
/// of groups if none does.
pub open spec fn first_group_from(groups: Seq<Set<usize>>, x: usize, from: int) -> int
    decreases groups.len() - from,
{
    if from < 0 || from >= groups.len() {
        groups.len() as int
    } else if groups[from].contains(x) {
        from
    } else {
        first_group_from(groups, x, from + 1)
    }
}

/// The index of the first group that holds `x`, or the number of groups if
/// none does.
pub open spec fn first_group(groups: Seq<Set<usize>>, x: usize) -> int {
    first_group_from(groups, x, 0)
}

/// One step of the greedy union: `y` joins the first group that holds `x`;
/// failing that, `x` joins the first group that holds `y`; failing that, the
/// two start a group of their own.
pub open spec fn merge_pair(groups: Seq<Set<usize>>, x: usize, y: usize) -> Seq<Set<usize>> {
    let i = first_group(groups, x);
    let j = first_group(groups, y);
    if i < groups.len() {
        groups.update(i, groups[i].insert(y))
    } else if j < groups.len() {
        groups.update(j, groups[j].insert(x))
    } else {
        groups.push(set![x, y])
    }
}

/// The groups after the first `upto` pairs have been merged in, in order.
pub open spec fn merge_all(
    groups: Seq<Set<usize>>,
    pairs: Seq<(usize, usize)>,
    upto: nat,
) -> Seq<Set<usize>>
    decreases upto,
{
    if upto == 0 {
        groups
    } else {
        merge_pair(
            merge_all(groups, pairs, (upto - 1) as nat),
            pairs[upto - 1].0,
            pairs[upto - 1].1,
        )
    }
}

/// No element occurs twice and the elements ascend.
pub open spec fn strictly_sorted(s: Seq<usize>) -> bool {
    forall|i: int, j: int| 0 <= i < j < s.len() ==> s[i] < s[j]
}

impl BuilderView {
    /// The first reference from pair `k` on that is not valid, as an error.
    pub open spec fn first_invalid(self, k: nat) -> Option<RefError>
        decreases self.pairs.len() - k,
    {
        if k >= self.pairs.len() {
            None
        } else if !self.valid_ref(self.pairs[k as int].0) {
            Some(ref_error(self.pairs[k as int].0))
        } else if !self.valid_ref(self.pairs[k as int].1) {
            Some(ref_error(self.pairs[k as int].1))
        } else {
            self.first_invalid(k + 1)
        }
    }

    /// Why this builder cannot be built, if it cannot: it has no gate, or
    /// one of its wire constraints names no cell of the circuit.
    pub open spec fn build_error(self) -> Option<CircuitError> {
        if self.n_rows() == 0 {
            Some(CircuitError::NoRows)
        } else {
            match self.first_invalid(0) {
                Some(e) => Some(CircuitError::Constraint(e)),
                None => None,
            }
        }
    }

    /// The recorded pairs as pairs of addresses.
    pub open spec fn resolved_pairs(self) -> Seq<(usize, usize)> {
        Seq::new(
            self.pairs.len(),
            |k: int| (resolve(self.n_cells(), self.pairs[k].0), resolve(self.n_cells(), self.pairs[k].1)),
        )
    }

    /// One group for each input, holding that input's cell.
    pub open spec fn initial_groups(self) -> Seq<Set<usize>> {
        Seq::new(self.n_inputs(), |k: int| set![(self.n_cells() - 1 - k) as usize])
    }

    /// The copy-constraint groups: every recorded pair merged, in the order
    /// of declaration, into the inputs' groups.
    pub open spec fn groups(self) -> Seq<Set<usize>> {
        merge_all(self.initial_groups(), self.resolved_pairs(), self.pairs.len())
    }
}

/// What a circuit holds.
pub struct CircuitView {
    pub n_pub: nat,
    pub n_priv: nat,
    pub selectors: Seq<Op>,
    pub groups: Seq<Seq<usize>>,
    pub n_cells: nat,
    pub n_rows: nat,
    pub output: nat,
}

impl CircuitView {
    /// The number of inputs, public and private.
    pub open spec fn n_inputs(self) -> nat {
        self.n_pub + self.n_priv
    }

    /// The address of the `k`-th input, counting from 0.
    pub open spec fn input_cell(self, k: int) -> int {
        self.n_cells - 1 - k
    }

    /// The shape every circuit has: a selector per row, at least one row,
    /// the cells of the rows and of the inputs, the output in the last row,
    /// each input's cell in the group of its own, and in every group
    /// ascending addresses of cells of the circuit.
    pub open spec fn wf(self) -> bool {
        &&& self.selectors.len() == self.n_rows
        &&& self.n_rows >= 1
        &&& self.n_cells == self.n_inputs() + 3 * self.n_rows
        &&& self.n_cells <= usize::MAX
        &&& self.output == 3 * self.n_rows - 1
        &&& self.groups.len() >= self.n_inputs()
        &&& forall|k: int|
            0 <= k < self.n_inputs() ==> (#[trigger] self.groups[k]).contains(
                self.input_cell(k) as usize,
            )
        &&& forall|g: int| 0 <= g < self.groups.len() ==> strictly_sorted(#[trigger] self.groups[g])
        &&& forall|g: int, i: int|
            0 <= g < self.groups.len() && 0 <= i < self.groups[g].len() ==> (
            #[trigger] self.groups[g][i]) < self.n_cells
    }

    /// The circuit is what `build` makes of a builder: the builder's
    /// operations as selectors, and its groups, each as the ascending list
    /// of its addresses.
    pub open spec fn is_build_of(self, b: BuilderView) -> bool {
        &&& self.n_pub == b.n_pub
        &&& self.n_priv == b.n_priv
        &&& self.selectors == b.ops
        &&& self.n_rows == b.n_rows()
        &&& self.n_cells == b.n_cells()
        &&& self.output == 3 * b.n_rows() - 1
        &&& self.group_sets() == b.groups()
        &&& forall|g: int| 0 <= g < self.groups.len() ==> strictly_sorted(#[trigger] self.groups[g])
    }
}

/// The finished circuit.
pub struct Circuit {
    input_config: InputConfig,
    selectors: Vec<Op>,
    copy_constraints: Vec<Vec<usize>>,
    /// Total number of cells including.
    /// gate constraints cells: lhs, rhs, out.
    /// input cells: public inputs, private inputs.
    n_cells: usize,
    /// Total number of rows.
    n_rows: usize,
    /// The last cell id of computation trace table.
    /// Circuit allows single output.
    output: usize,
}

/// The lists that a vector of vectors holds.
pub open spec fn lists_of(v: Seq<Vec<usize>>) -> Seq<Seq<usize>> {
    Seq::new(v.len(), |g: int| v[g]@)
}

impl View for Circuit {
    type V = CircuitView;

    closed spec fn view(&self) -> CircuitView {
        CircuitView {
            n_pub: self.input_config.spec_n_pub() as nat,
            n_priv: self.input_config.spec_n_priv() as nat,
            selectors: self.selectors@,
            groups: lists_of(self.copy_constraints@),
            n_cells: self.n_cells as nat,
            n_rows: self.n_rows as nat,
            output: self.output as nat,
        }
    }
}

impl Circuit {
    #[verifier::type_invariant]
    spec fn inv(&self) -> bool {
        self@.wf()
    }

    /// Every circuit is well formed.
    pub fn well_formed(&self)
        ensures
            self@.wf(),
    {
        proof {
            use_type_invariant(self);
        }
    }

    /// The input configuration the circuit was built with.
    pub fn input_config(&self) -> (r: InputConfig)
        ensures
            r.spec_n_pub() == self@.n_pub,
            r.spec_n_priv() == self@.n_priv,
    {
        self.input_config
    }

    /// The operation of each row, in the order of declaration.
    pub fn selectors(&self) -> (r: &Vec<Op>)
        ensures
            r@ == self@.selectors,
    {
        &self.selectors
    }

    /// The groups of cells that must hold equal values, each ascending.
    pub fn copy_constraints(&self) -> (r: &Vec<Vec<usize>>)
        ensures
            lists_of(r@) == self@.groups,
    {
        &self.copy_constraints
    }

    /// Returns total number of inputs.
    pub fn n_inputs(&self) -> (r: usize)
        ensures
            r == self@.n_inputs(),
    {
        self.input_config.total_input()
    }

    /// Returns the total number of cells.
    pub fn n_cells(&self) -> (r: usize)
        ensures
            r == self@.n_cells,
    {
        self.n_cells
    }

    /// Returns the total number of rows.
    pub fn n_rows(&self) -> (r: usize)
        ensures
            r == self@.n_rows,
    {
        self.n_rows
    }

    /// Returns the id of output cell.
    pub fn output_id(&self) -> (r: usize)
        ensures
            r == self@.output,
    {
        self.output
    }

    /// Very naive way to retrieve set of cell ids share same value(copy constraints).
    ///
    /// The result is the first group that holds `id`; there is none when no
    /// group holds it.
    pub fn get_copy_constraints(&self, id: usize) -> (r: Option<&[usize]>)
        ensures
            match r {
                Some(group) => {
                    &&& self@.group_index(id) < self@.groups.len()
                    &&& group@ == self@.groups[self@.group_index(id)]
                },
                None => self@.group_index(id) == self@.groups.len(),
            },
    {
        match find_list(&self.copy_constraints, id) {
            Some(g) => {
                proof {
                    lemma_first_group(self@.group_sets(), id, g as int);
                }
                Some(self.copy_constraints[g].as_slice())
            },
            None => {
                proof {
                    lemma_first_group(self@.group_sets(), id, self@.groups.len() as int);
                }
                None
            },
        }
    }

    /// The operation of a row, if the circuit has that row.
    pub fn get_selector(&self, row: usize) -> (r: Option<Op>)
        ensures
            r == (if row < self@.n_rows {
                Some(self@.selectors[row as int])
            } else {
                None
            }),
    {
        proof {
            use_type_invariant(self);
        }
        if row < self.selectors.len() {
            Some(self.selectors[row])
        } else {
            None
        }
    }
}

impl CircuitView {
    /// The groups as sets of addresses.
    pub open spec fn group_sets(self) -> Seq<Set<usize>> {
        Seq::new(self.groups.len(), |g: int| self.groups[g].to_set())
    }

    /// The index of the first group that holds `id`, or the number of
    /// groups if none does.
    pub open spec fn group_index(self, id: usize) -> int {
        first_group(self.group_sets(), id)
    }
}

/// The first group that holds `x` is the one before which none holds it.
pub proof fn lemma_first_group(groups: Seq<Set<usize>>, x: usize, g: int)
    requires
        0 <= g <= groups.len(),
        g < groups.len() ==> groups[g].contains(x),
        forall|j: int| 0 <= j < g ==> !(#[trigger] groups[j]).contains(x),
    ensures
        first_group(groups, x) == g,
{
    lemma_first_group_from(groups, x, g, 0);
}

proof fn lemma_first_group_from(groups: Seq<Set<usize>>, x: usize, g: int, from: int)
    requires
        0 <= from <= g <= groups.len(),
        g < groups.len() ==> groups[g].contains(x),
        forall|j: int| 0 <= j < g ==> !(#[trigger] groups[j]).contains(x),
    ensures
        first_group_from(groups, x, from) == g,
    decreases g - from,
{
    if from < g {
        lemma_first_group_from(groups, x, g, from + 1);
    }
}

/// What the first group that holds `x` is: it holds `x`, and no group
/// before it does.
pub proof fn lemma_first_group_is_first(groups: Seq<Set<usize>>, x: usize)
    ensures
        0 <= first_group(groups, x) <= groups.len(),
        first_group(groups, x) < groups.len() ==> groups[first_group(groups, x)].contains(x),
        forall|j: int| 0 <= j < first_group(groups, x) ==> !(#[trigger] groups[j]).contains(x),
{
    lemma_first_group_from_is_first(groups, x, 0);
}

proof fn lemma_first_group_from_is_first(groups: Seq<Set<usize>>, x: usize, from: int)
    requires
        0 <= from <= groups.len(),
    ensures
        from <= first_group_from(groups, x, from) <= groups.len(),
        first_group_from(groups, x, from) < groups.len() ==> groups[first_group_from(
            groups,
            x,
            from,
        )].contains(x),
        forall|j: int|
            from <= j < first_group_from(groups, x, from) ==> !(#[trigger] groups[j]).contains(x),
    decreases groups.len() - from,
{
    if from < groups.len() && !groups[from].contains(x) {
        lemma_first_group_from_is_first(groups, x, from + 1);
    }
}

/// Whether a list holds an address.
fn list_contains(list: &Vec<usize>, x: usize) -> (r: bool)
    ensures
        r == list@.contains(x),
{
    let mut i: usize = 0;
    while i < list.len()
        invariant
            i <= list.len(),
            forall|j: int| 0 <= j < i ==> list@[j] != x,
        decreases list.len() - i,
    {
        if list[i] == x {
            return true;
        }
        i = i + 1;
    }
    false
}

/// The first list that holds an address.
fn find_list(lists: &Vec<Vec<usize>>, x: usize) -> (r: Option<usize>)
    ensures
        match r {
            Some(g) => g < lists.len() && lists[g as int]@.contains(x) && forall|j: int|
                0 <= j < g ==> !(#[trigger] lists[j])@.contains(x),
            None => forall|j: int| 0 <= j < lists.len() ==> !(#[trigger] lists[j])@.contains(x),
        },
{
    let mut g: usize = 0;
    while g < lists.len()
        invariant
            g <= lists.len(),
            forall|j: int| 0 <= j < g ==> !(#[trigger] lists[j])@.contains(x),
        decreases lists.len() - g,
    {
        if list_contains(&lists[g], x) {
            return Some(g);
        }
        g = g + 1;
    }
    None
}

fn copy_list(list: &Vec<usize>) -> (r: Vec<usize>)
    ensures
        r@ == list@,
{
    let mut r: Vec<usize> = Vec::new();
    let mut i: usize = 0;
    while i < list.len()
        invariant
            i <= list.len(),
            r@ == list@.take(i as int),
        decreases list.len() - i,
    {
        r.push(list[i]);
        i = i + 1;
        assert(r@ =~= list@.take(i as int));
    }
    assert(list@.take(list.len() as int) =~= list@);
    r
}

fn copy_lists(lists: &Vec<Vec<usize>>) -> (r: Vec<Vec<usize>>)
    ensures
        lists_of(r@) == lists_of(lists@),
{
    let mut r: Vec<Vec<usize>> = Vec::new();
    let mut g: usize = 0;
    while g < lists.len()
        invariant
            g <= lists.len(),
            r.len() == g,
            forall|j: int| 0 <= j < g ==> (#[trigger] r[j])@ == lists[j]@,
        decreases lists.len() - g,
    {
        r.push(copy_list(&lists[g]));
        g = g + 1;
    }
    assert(lists_of(r@) =~= lists_of(lists@));
    r
}

fn copy_ops(ops: &Vec<Op>) -> (r: Vec<Op>)
    ensures
        r@ == ops@,
{
    let mut r: Vec<Op> = Vec::new();
    let mut i: usize = 0;
    while i < ops.len()
        invariant
            i <= ops.len(),
            r@ == ops@.take(i as int),
        decreases ops.len() - i,
    {
        r.push(ops[i]);
        i = i + 1;
        assert(r@ =~= ops@.take(i as int));
    }
    assert(ops@.take(ops.len() as int) =~= ops@);
    r
}

impl Clone for Circuit {
    fn clone(&self) -> (r: Self)
        ensures
            r@ == self@,
    {
        proof {
            use_type_invariant(self);
        }
        Circuit {
            input_config: self.input_config,
            selectors: copy_ops(&self.selectors),
            copy_constraints: copy_lists(&self.copy_constraints),
            n_cells: self.n_cells,
            n_rows: self.n_rows,
            output: self.output,
        }
    }
}

/// The ascending list with one more address, unless it holds it already.
fn insert_sorted(list: &Vec<usize>, x: usize) -> (r: Vec<usize>)
    requires
        strictly_sorted(list@),
    ensures
        strictly_sorted(r@),
        r@.to_set() == list@.to_set().insert(x),
{
    let mut r: Vec<usize> = Vec::new();
    let mut i: usize = 0;
    while i < list.len() && list[i] < x
        invariant
            i <= list.len(),
            r@ == list@.take(i as int),
            forall|j: int| 0 <= j < i ==> list@[j] < x,
        decreases list.len() - i,
    {
        r.push(list[i]);
        i = i + 1;
        assert(r@ =~= list@.take(i as int));
    }
    let ghost split = i as int;
    let present = i < list.len() && list[i] == x;
    if !present {
        r.push(x);
    }
    let ghost mid = r@;
    while i < list.len()
        invariant
            0 <= split <= i <= list.len(),
            r@ == mid + list@.subrange(split, i as int),
        decreases list.len() - i,
    {
        r.push(list[i]);
        i = i + 1;
        assert(r@ =~= mid + list@.subrange(split, i as int));
    }
    proof {
        let n = list@.len() as int;
        if present {
            assert(r@ =~= list@);
            assert(list@[split] == x);
            assert(list@.to_set().insert(x) =~= list@.to_set());
        } else {
            assert(r@.len() == n + 1);
            assert(forall|j: int| 0 <= j < split ==> r@[j] == list@[j]);
            assert(r@[split] == x);
            assert(forall|j: int| split < j <= n ==> r@[j] == list@[j - 1]);
            assert(forall|j: int| split <= j < n ==> list@[j] > x) by {
                if split < n {
                    assert(list@[split] > x);
                }
            }
            assert forall|a: usize| r@.contains(a) <==> (a == x || list@.contains(a)) by {
                if r@.contains(a) {
                    let k = choose|k: int| 0 <= k < r@.len() && r@[k] == a;
                    if k < split {
                        assert(list@[k] == a);
                    } else if k > split {
                        assert(list@[k - 1] == a);
                    }
                }
                if list@.contains(a) {
                    let k = choose|k: int| 0 <= k < list@.len() && list@[k] == a;
                    if k < split {
                        assert(r@[k] == a);
                    } else {
                        assert(r@[k + 1] == a);
                    }
                }
                if a == x {
                    assert(r@[split] == a);
                }
            }
            assert(r@.to_set() =~= list@.to_set().insert(x));
        }
    }
    r
}

/// The address that a valid reference stands for.
fn resolve_ref(n_cells: usize, n_inputs: usize, n_rows: usize, r: Cellref) -> (a: usize)
    requires
        n_cells == n_inputs + 3 * n_rows,
        match r {
            Cellref::Input(i) => 1 <= i <= n_inputs,
            Cellref::Wire(x) => x < 3 * n_rows,
        },
    ensures
        a == resolve(n_cells as nat, r),
        a < n_cells,
{
    match r {
        Cellref::Wire(x) => x,
        Cellref::Input(i) => n_cells - i,
    }
}

/// The ascending list of one or two addresses.
fn pair_list(x: usize, y: usize) -> (r: Vec<usize>)
    ensures
        strictly_sorted(r@),
        r@.to_set() == set![x, y],
{
    let mut r: Vec<usize> = Vec::new();
    if x < y {
        r.push(x);
        r.push(y);
    } else if x == y {
        r.push(x);
    } else {
        r.push(y);
        r.push(x);
    }
    proof {
        assert forall|a: usize| r@.contains(a) <==> (a == x || a == y) by {
            if a == x {
                assert(r@[0] == x || r@[1] == x);
            }
            if a == y {
                assert(r@[0] == y || r@[1] == y);
            }
        }
        assert(r@.to_set() =~= set![x, y]);
    }
    r
}

/// The sets that a vector of lists holds.
pub open spec fn sets_of(v: Seq<Vec<usize>>) -> Seq<Set<usize>> {
    Seq::new(v.len(), |g: int| v[g]@.to_set())
}

impl CircuitBuilder {
    /// Turns what was declared into a circuit.
    ///
    /// Fails for a builder without a gate, and for one with a wire
    /// constraint on a reference that does not name an input of the circuit
    /// or a wire cell of one of its rows (the first such reference is
    /// reported). Otherwise the circuit has the declared operations as its
    /// selectors, and its copy constraints are the greedy union of the
    /// recorded pairs over one group per input, each group listed in
    /// ascending order. The output is the output cell of the last row.
    pub fn build(self) -> (r: Result<Circuit, CircuitError>)
        requires
            self.wf(),
        ensures
            match r {
                Ok(c) => self@.build_error() is None && c@.is_build_of(self@) && c@.wf(),
                Err(e) => self@.build_error() == Some(e),
            },
            self@.gates_only() ==> (r matches Ok(c) ==> c@.gate_wired()),
            self@.gates_only() && self@.n_rows() > 0 ==> r is Ok,
    {
        let ghost b = self@;
        proof {
            if b.gates_only() {
                lemma_gates_only_buildable(b);
            }
        }
        let n_input: usize = self.input_config.total_input();
        let n_rows: usize = self.current_row;
        if n_rows == 0 {
            return Err(CircuitError::NoRows);
        }
        let n_cells: usize = n_input + n_rows * 3;

        let mut k: usize = 0;
        while k < self.wiring_pairs.len()
            invariant
                self.wf(),
                b == self@,
                b.n_rows() > 0,
                b.gates_only() ==> b.first_invalid(0) is None,
                k <= self.wiring_pairs.len(),
                b.first_invalid(0) == b.first_invalid(k as nat),
                forall|j: int|
                    0 <= j < k ==> b.valid_ref((#[trigger] b.pairs[j]).0) && b.valid_ref(
                        b.pairs[j].1,
                    ),
            decreases self.wiring_pairs.len() - k,
        {
            let (x, y) = self.wiring_pairs[k];
            match self.validate_cell_ref(x) {
                Err(e) => {
                    return Err(CircuitError::Constraint(e));
                },
                Ok(_) => {},
            }
            match self.validate_cell_ref(y) {
                Err(e) => {
                    return Err(CircuitError::Constraint(e));
                },
                Ok(_) => {},
            }
            k = k + 1;
        }

        // calculate every wirings
        let mut wirings: Vec<Vec<usize>> = Vec::with_capacity(n_input);
        let mut input_number: usize = 1;
        while input_number <= n_input
            invariant
                1 <= input_number <= n_input + 1,
                n_input + 3 <= n_cells,
                wirings.len() == input_number - 1,
                forall|j: int|
                    0 <= j < wirings.len() ==> (#[trigger] wirings[j])@ == seq![
                        (n_cells - 1 - j) as usize,
                    ],
            decreases n_input + 1 - input_number,
        {
            // each input cell starts a set of its own
            let id: usize = n_cells - input_number;
            let mut set: Vec<usize> = Vec::new();
            set.push(id);
            assert(set@ =~= seq![id]);
            wirings.push(set);
            input_number = input_number + 1;
        }

        let ghost rp = b.resolved_pairs();
        let ghost init = b.initial_groups();
        proof {
            assert forall|j: int| 0 <= j < wirings.len() implies (#[trigger] wirings[j])@.to_set()
                == init[j] by {
                let a = (n_cells - 1 - j) as usize;
                assert(wirings[j]@[0] == a);
                assert(wirings[j]@.to_set() =~= set![a]);
            }
            assert(sets_of(wirings@) =~= init);
            assert forall|j: int| 0 <= j < n_input implies (#[trigger] wirings[j])@.contains(
                (n_cells - 1 - j) as usize,
            ) by {
                assert(wirings[j]@[0] == (n_cells - 1 - j) as usize);
            }
        }

        let mut p: usize = 0;
        while p < self.wiring_pairs.len()
            invariant
                self.wf(),
                b == self@,
                rp == b.resolved_pairs(),
                n_cells == b.n_cells(),
                n_input == b.n_inputs(),
                n_rows == b.n_rows(),
                p <= self.wiring_pairs.len(),
                forall|j: int|
                    0 <= j < b.pairs.len() ==> b.valid_ref((#[trigger] b.pairs[j]).0)
                        && b.valid_ref(b.pairs[j].1),
                sets_of(wirings@) == merge_all(init, rp, p as nat),
                wirings.len() >= n_input,
                forall|g: int| 0 <= g < wirings.len() ==> strictly_sorted((#[trigger] wirings[g])@),
                forall|g: int, i: int|
                    0 <= g < wirings.len() && 0 <= i < wirings[g]@.len() ==> (
                    #[trigger] wirings[g]@[i]) < n_cells,
                forall|j: int|
                    0 <= j < n_input ==> (#[trigger] wirings[j])@.contains(
                        (n_cells - 1 - j) as usize,
                    ),
            decreases self.wiring_pairs.len() - p,
        {
            let (x_ref, y_ref) = self.wiring_pairs[p];
            assert(b.valid_ref(b.pairs[p as int].0) && b.valid_ref(b.pairs[p as int].1));
            let x: usize = resolve_ref(n_cells, n_input, n_rows, x_ref);
            let y: usize = resolve_ref(n_cells, n_input, n_rows, y_ref);
            let ghost before = wirings@;
            let ghost groups = sets_of(before);
            assert(rp[p as int] == (x, y));
            match find_list(&wirings, x) {
                Some(i) => {
                    let merged = insert_sorted(&wirings[i], y);
                    proof {
                        lemma_first_group(groups, x, i as int);
                        lemma_inserted_within(before[i as int]@, merged@, y, n_cells);
                        lemma_inserted_keeps(before[i as int]@, merged@, y);
                    }
                    wirings.set(i, merged);
                    assert(sets_of(wirings@) =~= merge_pair(groups, x, y));
                },
                None => {
                    proof {
                        lemma_first_group(groups, x, groups.len() as int);
                    }
                    match find_list(&wirings, y) {
                        Some(j) => {
                            let merged = insert_sorted(&wirings[j], x);
                            proof {
                                lemma_first_group(groups, y, j as int);
                                lemma_inserted_within(before[j as int]@, merged@, x, n_cells);
                                lemma_inserted_keeps(before[j as int]@, merged@, x);
                            }
                            wirings.set(j, merged);
                            assert(sets_of(wirings@) =~= merge_pair(groups, x, y));
                        },
                        None => {
                            let fresh = pair_list(x, y);
                            proof {
                                lemma_first_group(groups, y, groups.len() as int);
                                assert forall|i: int| 0 <= i < fresh@.len() implies fresh@[i]
                                    < n_cells by {
                                    assert(fresh@.to_set().contains(fresh@[i]));
                                }
                            }
                            wirings.push(fresh);
                            assert(sets_of(wirings@) =~= merge_pair(groups, x, y));
                        },
                    }
                },
            }
            p = p + 1;
        }

        let output: usize = n_rows * 3 - 1;
        let circuit = Circuit {
            input_config: self.input_config,
            selectors: self.ops,
            n_cells,
            n_rows,
            copy_constraints: wirings,
            output,
        };
        proof {
            assert(circuit@.group_sets() =~= b.groups());
            if b.gates_only() {
                lemma_gates_only_wired(b, circuit@);
            }
        }
        Ok(circuit)
    }
}

/// Every address of a list that grew by `x` is below a bound that held for
/// the list and for `x`.
proof fn lemma_inserted_within(list: Seq<usize>, merged: Seq<usize>, x: usize, bound: usize)
    requires
        merged.to_set() == list.to_set().insert(x),
        x < bound,
        forall|i: int| 0 <= i < list.len() ==> list[i] < bound,
    ensures
        forall|i: int| 0 <= i < merged.len() ==> merged[i] < bound,
{
    assert forall|i: int| 0 <= i < merged.len() implies merged[i] < bound by {
        assert(merged.to_set().contains(merged[i]));
        if merged[i] != x {
            assert(list.to_set().contains(merged[i]));
            let k = choose|k: int| 0 <= k < list.len() && list[k] == merged[i];
        }
    }
}

/// A list that grew still holds what it held.
proof fn lemma_inserted_keeps(list: Seq<usize>, merged: Seq<usize>, x: usize)
    requires
        merged.to_set() == list.to_set().insert(x),
    ensures
        forall|a: usize| list.contains(a) ==> merged.contains(a),
{
    assert forall|a: usize| list.contains(a) implies merged.contains(a) by {
        assert(list.to_set().contains(a));
        assert(merged.to_set().contains(a));
    }
}

/// An ascending list is determined by the set of its elements.
pub proof fn lemma_sorted_list_unique(s1: Seq<usize>, s2: Seq<usize>)
    requires
        strictly_sorted(s1),
        strictly_sorted(s2),
        s1.to_set() == s2.to_set(),
    ensures
        s1 == s2,
    decreases s1.len(),
{
    if s1.len() == 0 {
        if s2.len() > 0 {
            assert(s2.contains(s2[0]));
            assert(s2.to_set().contains(s2[0]));
            assert(s1.contains(s2[0]));
        }
        assert(s1 =~= s2);
    } else {
        let a = s1.last();
        assert(s1.contains(a));
        assert(s1.to_set().contains(a));
        assert(s2.contains(a));
        let b = s2.last();
        assert(s2.contains(b));
        assert(s2.to_set().contains(b));
        assert(s1.contains(b));
        let ka = choose|k: int| 0 <= k < s2.len() && s2[k] == a;
        let kb = choose|k: int| 0 <= k < s1.len() && s1[k] == b;
        assert(a == b);
        let d1 = s1.drop_last();
        let d2 = s2.drop_last();
        assert forall|x: usize| d1.contains(x) <==> d2.contains(x) by {
            if d1.contains(x) {
                let k = choose|k: int| 0 <= k < d1.len() && d1[k] == x;
                assert(s1[k] == x);
                assert(s1.contains(x));
                assert(s1.to_set().contains(x));
                assert(s2.contains(x));
                let j = choose|j: int| 0 <= j < s2.len() && s2[j] == x;
                assert(j < s2.len() - 1);
                assert(d2[j] == x);
            }
            if d2.contains(x) {
                let k = choose|k: int| 0 <= k < d2.len() && d2[k] == x;
                assert(s2[k] == x);
                assert(s2.contains(x));
                assert(s2.to_set().contains(x));
                assert(s1.contains(x));
                let j = choose|j: int| 0 <= j < s1.len() && s1[j] == x;
                assert(j < s1.len() - 1);
                assert(d1[j] == x);
            }
        }
        assert(d1.to_set() =~= d2.to_set());
        lemma_sorted_list_unique(d1, d2);
        assert(s1 =~= d1.push(a));
        assert(s2 =~= d2.push(b));
    }
}

/// Building is a function of what was declared: two circuits built from the
/// same declarations have the same selectors, the same cells and the same
/// copy-constraint groups in the same order.
pub proof fn lemma_build_deterministic(b: BuilderView, c1: CircuitView, c2: CircuitView)
    requires
        c1.is_build_of(b),
        c2.is_build_of(b),
    ensures
        c1 == c2,
{
    assert(c1.group_sets().len() == c1.groups.len());
    assert(c2.group_sets().len() == c2.groups.len());
    assert forall|g: int| 0 <= g < c1.groups.len() implies c1.groups[g] == c2.groups[g] by {
        assert(c1.group_sets()[g] == c2.group_sets()[g]);
        lemma_sorted_list_unique(c1.groups[g], c2.groups[g]);
    }
    assert(c1.groups =~= c2.groups);
}

} // verus!
