//! The verifier: it takes the polynomials of a proof and checks the
//! identities that certify a witness, on the points of the circuit's cells.
//!
//! With `T` the trace polynomial, `S` the selector polynomial and `w` the
//! generator of the domain, the identities are: at the point `y` of the
//! left operand of every row,
//! `S(y) (T(y) + T(w y)) + (1 - S(y)) T(y) T(w y) - T(w^2 y) = 0`;
//! at the point of every public input's cell, `T` is worth the input; and
//! at the points of the cells of one copy-constraint group, `T` is worth
//! the same.
//!
//! This verifier reads the polynomials themselves. With a commitment
//! scheme the same identities are checked on openings of committed
//! polynomials; committing and opening are not done here.

use crate::circuit::{Circuit, CircuitView, Op};
use crate::soundness::{gate_holds, group_agrees, satisfies};
use crate::witness::gate_value;
use crate::field::{field_add, field_mul, field_sub, modulus, values, FieldElement};
use crate::polynomial::{
    compute_public_input_polynomial, compute_selector_polynomial, domain_elements, domain_point,
    domain_size_of, eval, interpolation, op_value, public_input_evals, selector_evals,
    strip_zeros, sub_coeffs, Polynomial,
};
use crate::types::{Proof, PublicParameters};
use vstd::prelude::*;

verus! {

/// The value of the polynomial `t` at the point of cell `j`.
pub open spec fn trace_at(t: Seq<nat>, size: nat, j: int) -> nat {
    eval(t, domain_point(size, j))
}

/// The left side of a row's identity for a selector value `s`, two
/// operands and an output.
pub open spec fn gate_identity(s: nat, a: nat, b: nat, out: nat) -> nat {
    field_sub(
        field_add(field_mul(s, field_add(a, b)), field_mul(field_mul(field_sub(1, s), a), b)),
        out,
    )
}

/// At the point of the cell of every public input, `t` is worth the input.
pub open spec fn public_ok(c: CircuitView, public: Seq<nat>, size: nat, t: Seq<nat>) -> bool {
    forall|k: int|
        0 <= k < public.len() ==> trace_at(t, size, c.n_cells - 1 - k) == #[trigger] public[k]
}

/// The identity of row `r` holds at the point of its left operand.
pub open spec fn gate_ok(c: CircuitView, size: nat, s: Seq<nat>, t: Seq<nat>, r: int) -> bool {
    gate_identity(
        eval(s, domain_point(size, 3 * r)),
        trace_at(t, size, 3 * r),
        trace_at(t, size, 3 * r + 1),
        trace_at(t, size, 3 * r + 2),
    ) == 0
}

/// Every row's identity holds.
pub open spec fn gates_ok(c: CircuitView, size: nat, s: Seq<nat>, t: Seq<nat>) -> bool {
    forall|r: int| 0 <= r < c.n_rows ==> #[trigger] gate_ok(c, size, s, t, r)
}

/// At the points of the cells of group `g`, `t` is worth the same.
pub open spec fn copy_ok(c: CircuitView, size: nat, t: Seq<nat>, g: int) -> bool {
    forall|i: int|
        0 <= i < c.groups[g].len() ==> trace_at(t, size, (#[trigger] c.groups[g][i]) as int)
            == trace_at(t, size, c.groups[g][0] as int)
}

/// At the points of the cells of any one group, `t` is worth the same.
pub open spec fn copies_ok(c: CircuitView, size: nat, t: Seq<nat>) -> bool {
    forall|g: int| 0 <= g < c.groups.len() ==> #[trigger] copy_ok(c, size, t, g)
}

/// The selector polynomial of a circuit over a domain of the given size.
pub open spec fn selector_of(c: CircuitView, size: nat) -> Seq<nat> {
    strip_zeros(interpolation(size, selector_evals(c.selectors)))
}

/// The public-input polynomial of a circuit over a domain of the given
/// size.
pub open spec fn public_input_of(c: CircuitView, public: Seq<nat>, size: nat) -> Seq<nat> {
    strip_zeros(interpolation(size, public_input_evals(c.n_cells, public)))
}

/// The polynomials `t` and `identity` certify a witness of the circuit for
/// the public inputs: `identity` is the difference of `t` and the
/// public-input polynomial, and `t` meets the three identities.
pub open spec fn accepts(
    c: CircuitView,
    public: Seq<nat>,
    size: nat,
    t: Seq<nat>,
    identity: Seq<nat>,
) -> bool {
    &&& identity == strip_zeros(sub_coeffs(t, public_input_of(c, public, size)))
    &&& public_ok(c, public, size, t)
    &&& gates_ok(c, size, selector_of(c, size), t)
    &&& copies_ok(c, size, t)
}

/// The values of the polynomial `t` at the points of the cells.
pub open spec fn cell_values_of(c: CircuitView, size: nat, t: Seq<nat>) -> Seq<nat> {
    Seq::new(c.n_cells, |j: int| trace_at(t, size, j))
}

/// The values of `t` at the points of the cells are a witness of the
/// circuit, with the public inputs in their cells.
pub open spec fn certifies(c: CircuitView, public: Seq<nat>, size: nat, t: Seq<nat>) -> bool {
    let w = cell_values_of(c, size, t);
    &&& forall|k: int| 0 <= k < public.len() ==> w[c.input_cell(k)] == #[trigger] public[k]
    &&& forall|r: int| 0 <= r < c.n_rows ==> #[trigger] gate_holds(c, w, r)
    &&& forall|g: int| 0 <= g < c.groups.len() ==> #[trigger] group_agrees(c, w, g)
}

/// The polynomial is worth zero at the points of the cells of the first
/// `n_public` inputs.
pub open spec fn vanishes_on_inputs(
    c: CircuitView,
    n_public: nat,
    size: nat,
    identity: Seq<nat>,
) -> bool {
    forall|k: int|
        0 <= k < n_public ==> eval(identity, #[trigger] domain_point(size, c.n_cells - 1 - k))
            == 0
}

/// Where the trace polynomial is worth what the public-input polynomial is
/// worth, their difference is worth zero.
pub proof fn lemma_identity_vanishes(
    c: CircuitView,
    public: Seq<nat>,
    size: nat,
    t: Seq<nat>,
    v: Seq<nat>,
)
    requires
        public_ok(c, public, size, t),
        forall|k: int|
            0 <= k < public.len() ==> eval(v, #[trigger] domain_point(size, c.n_cells - 1 - k))
                == public[k],
    ensures
        vanishes_on_inputs(c, public.len(), size, strip_zeros(sub_coeffs(t, v))),
{
    assert forall|k: int| 0 <= k < public.len() implies eval(
        strip_zeros(sub_coeffs(t, v)),
        #[trigger] domain_point(size, c.n_cells - 1 - k),
    ) == 0 by {
        let y = domain_point(size, c.n_cells - 1 - k);
        crate::polynomial::lemma_eval_sub(t, v, y);
        assert(trace_at(t, size, c.n_cells - 1 - k) == public[k]);
    }
}

/// The selector polynomial `s` is worth, at the point of the left operand
/// of every row, the value that stands for the row's operation.
pub open spec fn selects(c: CircuitView, size: nat, s: Seq<nat>) -> bool {
    forall|r: int|
        0 <= r < c.n_rows ==> eval(s, #[trigger] domain_point(size, 3 * r)) == op_value(
            c.selectors[r],
        )
}

/// The polynomial `t` is worth, at the point of every cell, the value of
/// the cell in `w`.
pub open spec fn encodes(c: CircuitView, size: nat, t: Seq<nat>, w: Seq<nat>) -> bool {
    forall|j: int| 0 <= j < c.n_cells ==> eval(t, #[trigger] domain_point(size, j)) == w[j]
}

/// The values of a polynomial are residues.
pub proof fn lemma_eval_reduced(coeffs: Seq<nat>, x: nat)
    ensures
        eval(coeffs, x) < modulus(),
{
}

/// A row's identity holds of the value that stands for an operation, two
/// operands and an output exactly when the output is what the operation
/// makes of the operands.
pub proof fn lemma_gate_identity(op: Op, a: nat, b: nat, out: nat)
    requires
        a < modulus(),
        b < modulus(),
        out < modulus(),
    ensures
        (gate_identity(op_value(op), a, b, out) == 0) <==> out == gate_value(op, a, b),
{
    let p = modulus();
    match op {
        Op::Add => {
            let x = field_add(a, b);
            assert(field_mul(1, x) == x);
            assert(field_sub(1, 1) == 0);
            assert(0 * a == 0);
            assert(field_mul(0, a) == 0);
            assert(0 * b == 0);
            assert(field_mul(0, b) == 0);
            assert(field_add(x, 0) == x);
            assert(gate_identity(1, a, b, out) == field_sub(x, out));
        },
        Op::Mul => {
            let y = field_mul(a, b);
            assert(0 * field_add(a, b) == 0);
            assert(field_mul(0, field_add(a, b)) == 0);
            assert(field_sub(1, 0) == 1);
            assert(1 * a == a);
            assert(a % p == a);
            assert(field_mul(1, a) == a);
            assert(field_add(0, y) == y);
            assert(gate_identity(0, a, b, out) == field_sub(y, out));
        },
    }
}

/// What the three identities mean: if a polynomial meets them, its values
/// at the points of the cells are a witness of the circuit with the public
/// inputs in their cells.
pub proof fn lemma_identities_certify(
    c: CircuitView,
    public: Seq<nat>,
    size: nat,
    s: Seq<nat>,
    t: Seq<nat>,
)
    requires
        c.wf(),
        public.len() <= c.n_cells,
        selects(c, size, s),
        public_ok(c, public, size, t),
        gates_ok(c, size, s, t),
        copies_ok(c, size, t),
    ensures
        certifies(c, public, size, t),
{
    let w = cell_values_of(c, size, t);
    assert forall|k: int| 0 <= k < public.len() implies w[c.input_cell(k)] == #[trigger] public[k] by {
        assert(trace_at(t, size, c.n_cells - 1 - k) == public[k]);
    }
    assert forall|r: int| 0 <= r < c.n_rows implies #[trigger] gate_holds(c, w, r) by {
        assert(gate_ok(c, size, s, t, r));
        assert(eval(s, domain_point(size, 3 * r)) == op_value(c.selectors[r]));
        lemma_eval_reduced(t, domain_point(size, 3 * r));
        lemma_eval_reduced(t, domain_point(size, 3 * r + 1));
        lemma_eval_reduced(t, domain_point(size, 3 * r + 2));
        lemma_gate_identity(c.selectors[r], w[3 * r], w[3 * r + 1], w[3 * r + 2]);
    }
    assert forall|g: int| 0 <= g < c.groups.len() implies #[trigger] group_agrees(c, w, g) by {
        assert(copy_ok(c, size, t, g));
        assert forall|i: int, j: int|
            0 <= i < c.groups[g].len() && 0 <= j < c.groups[g].len() implies w[(
        #[trigger] c.groups[g][i]) as int] == w[(#[trigger] c.groups[g][j]) as int] by {
            assert(c.groups[g][i] < c.n_cells);
            assert(c.groups[g][j] < c.n_cells);
            assert(c.groups[g][0] < c.n_cells);
        }
    }
}

/// The polynomial that encodes a witness meets the three identities: the
/// proof of an honest prover is accepted.
pub proof fn lemma_witness_meets_identities(
    c: CircuitView,
    inputs: Seq<nat>,
    public: Seq<nat>,
    size: nat,
    w: Seq<nat>,
    s: Seq<nat>,
    t: Seq<nat>,
)
    requires
        c.wf(),
        satisfies(c, inputs, w),
        public.len() <= c.n_inputs(),
        forall|k: int| 0 <= k < public.len() ==> inputs[k] == public[k],
        selects(c, size, s),
        encodes(c, size, t, w),
    ensures
        public_ok(c, public, size, t),
        gates_ok(c, size, s, t),
        copies_ok(c, size, t),
{
    assert forall|k: int| 0 <= k < public.len() implies trace_at(t, size, c.n_cells - 1 - k)
        == #[trigger] public[k] by {
        assert(eval(t, domain_point(size, c.n_cells - 1 - k)) == w[c.n_cells - 1 - k]);
        assert(w[c.input_cell(k)] == inputs[k]);
    }
    assert forall|r: int| 0 <= r < c.n_rows implies #[trigger] gate_ok(c, size, s, t, r) by {
        assert(gate_holds(c, w, r));
        assert(eval(s, domain_point(size, 3 * r)) == op_value(c.selectors[r]));
        assert(eval(t, domain_point(size, 3 * r)) == w[3 * r]);
        assert(eval(t, domain_point(size, 3 * r + 1)) == w[3 * r + 1]);
        assert(eval(t, domain_point(size, 3 * r + 2)) == w[3 * r + 2]);
        lemma_eval_reduced(t, domain_point(size, 3 * r));
        lemma_eval_reduced(t, domain_point(size, 3 * r + 1));
        lemma_eval_reduced(t, domain_point(size, 3 * r + 2));
        lemma_gate_identity(c.selectors[r], w[3 * r], w[3 * r + 1], w[3 * r + 2]);
    }
    assert forall|g: int| 0 <= g < c.groups.len() implies #[trigger] copy_ok(c, size, t, g) by {
        assert(group_agrees(c, w, g));
        assert forall|i: int| 0 <= i < c.groups[g].len() implies trace_at(
            t,
            size,
            (#[trigger] c.groups[g][i]) as int,
        ) == trace_at(t, size, c.groups[g][0] as int) by {
            assert(c.groups[g][i] < c.n_cells);
            assert(c.groups[g][0] < c.n_cells);
            assert(eval(t, domain_point(size, c.groups[g][i] as int)) == w[c.groups[g][i] as int]);
            assert(eval(t, domain_point(size, c.groups[g][0] as int)) == w[c.groups[g][0] as int]);
        }
    }
}

/// What a verifier holds.
pub struct VerifierView {
    pub circuit: CircuitView,
    pub public_inputs: Seq<nat>,
}

/// A circuit with its public inputs, against which proofs are checked.
pub struct Verifier {
    circuit: Circuit,
    pp: PublicParameters,
    public_inputs: Vec<FieldElement>,
}

impl View for Verifier {
    type V = VerifierView;

    closed spec fn view(&self) -> VerifierView {
        VerifierView { circuit: self.circuit@, public_inputs: values(self.public_inputs@) }
    }
}

impl Verifier {
    #[verifier::type_invariant]
    spec fn inv(&self) -> bool {
        self.public_inputs.len() <= self.circuit@.n_cells
    }

    /// A verifier of proofs about a circuit and its public inputs, of
    /// which there are no more than the circuit has cells.
    pub fn new(circuit: Circuit, pp: PublicParameters, public_inputs: Vec<FieldElement>) -> (r:
        Self)
        requires
            public_inputs.len() <= circuit@.n_cells,
        ensures
            r@ == (VerifierView { circuit: circuit@, public_inputs: values(public_inputs@) }),
            r.spec_public_parameters() == pp,
    {
        Self { circuit, pp, public_inputs }
    }

    /// The parameters that setup made for the circuit.
    pub closed spec fn spec_public_parameters(&self) -> PublicParameters {
        self.pp
    }

    /// The parameters that setup made for the circuit.
    pub fn public_parameters(&self) -> (r: &PublicParameters)
        ensures
            *r == self.spec_public_parameters(),
    {
        &self.pp
    }

    /// The value of the trace polynomial at the point of every cell.
    fn trace_values(&self, t: &Polynomial, points: &Vec<FieldElement>) -> (r: Vec<FieldElement>)
        requires
            points.len() >= self@.circuit.n_cells,
            forall|j: int|
                0 <= j < points.len() ==> (#[trigger] points[j])@ == domain_point(
                    points.len() as nat,
                    j,
                ),
        ensures
            r.len() == self@.circuit.n_cells,
            forall|j: int|
                0 <= j < r.len() ==> (#[trigger] r[j])@ == trace_at(t@, points.len() as nat, j),
    {
        let n_cells: usize = self.circuit.n_cells();
        let mut r: Vec<FieldElement> = Vec::new();
        let mut j: usize = 0;
        while j < n_cells
            invariant
                j <= n_cells,
                n_cells <= points.len(),
                r.len() == j,
                forall|i: int|
                    0 <= i < points.len() ==> (#[trigger] points[i])@ == domain_point(
                        points.len() as nat,
                        i,
                    ),
                forall|i: int|
                    0 <= i < j ==> (#[trigger] r[i])@ == trace_at(t@, points.len() as nat, i),
            decreases n_cells - j,
        {
            r.push(t.evaluate(&points[j]));
            j = j + 1;
        }
        r
    }

    /// Whether a row's identity holds of a selector value, two operands
    /// and an output.
    fn gate_check(s: FieldElement, a: FieldElement, b: FieldElement, out: FieldElement) -> (r:
        bool)
        ensures
            r == (gate_identity(s@, a@, b@, out@) == 0),
    {
        let one = FieldElement::one();
        let sum = s.mul(&a.add(&b));
        let product = one.sub(&s).mul(&a).mul(&b);
        sum.add(&product).sub(&out).is_zero()
    }

    /// Checks a proof: the difference polynomial against the public-input
    /// polynomial, which is computed here from the public inputs, and the
    /// trace polynomial against the three identities. A circuit without an
    /// evaluation domain has no proof.
    #[verifier::loop_isolation(false)]
    pub fn verify(&mut self, proof: Proof) -> (r: bool)
        ensures
            final(self)@ == old(self)@,
            r == match domain_size_of(old(self)@.circuit.n_cells) {
                Err(_) => false,
                Ok(size) => accepts(
                    old(self)@.circuit,
                    old(self)@.public_inputs,
                    size,
                    proof.spec_trace(),
                    proof.spec_input_identity(),
                ),
            },
            r ==> (domain_size_of(old(self)@.circuit.n_cells) matches Ok(size) && certifies(
                old(self)@.circuit,
                old(self)@.public_inputs,
                size,
                proof.spec_trace(),
            ) && vanishes_on_inputs(
                old(self)@.circuit,
                old(self)@.public_inputs.len(),
                size,
                proof.spec_input_identity(),
            )),
    {
        proof {
            use_type_invariant(&*self);
        }
        self.circuit.well_formed();
        let ghost c = self@.circuit;
        let ghost public = self@.public_inputs;
        let n_cells: usize = self.circuit.n_cells();
        let n_rows: usize = self.circuit.n_rows();
        let points = match domain_elements(n_cells) {
            Err(_) => {
                return false;
            },
            Ok(points) => points,
        };
        let ghost size = points.len() as nat;
        let s_poly = match compute_selector_polynomial(&self.circuit) {
            Err(_) => {
                return false;
            },
            Ok(poly) => poly,
        };
        let v_poly = match compute_public_input_polynomial(&self.circuit, &self.public_inputs) {
            Err(_) => {
                return false;
            },
            Ok(poly) => poly,
        };
        let t_poly = proof.trace_polynomial();
        let ghost t = t_poly@;
        let expected = t_poly.sub(&v_poly);
        if expected != *proof.input_identity() {
            return false;
        }
        let cells = self.trace_values(t_poly, &points);

        // the public inputs stand in their cells
        let mut k: usize = 0;
        while k < self.public_inputs.len()
            invariant
                k <= self.public_inputs.len(),
                self.public_inputs.len() <= n_cells,
                cells.len() == n_cells,
                n_cells == c.n_cells,
                public == values(self.public_inputs@),
                forall|j: int| 0 <= j < cells.len() ==> (#[trigger] cells[j])@ == trace_at(t, size, j),
                forall|i: int|
                    0 <= i < k ==> trace_at(t, size, c.n_cells - 1 - i) == #[trigger] public[i],
            decreases self.public_inputs.len() - k,
        {
            let cell = cells[n_cells - 1 - k];
            let input = self.public_inputs[k];
            if cell != input {
                proof {
                    if cell@ == input@ {
                        FieldElement::lemma_view_injective(cell, input);
                    }
                    assert(public[k as int] == input@);
                    assert(!public_ok(c, public, size, t));
                }
                return false;
            }
            assert(public[k as int] == input@);
            k = k + 1;
        }
        assert(public_ok(c, public, size, t));

        // every gate computes its output
        let mut row: usize = 0;
        while row < n_rows
            invariant
                row <= n_rows,
                n_rows == c.n_rows,
                c.wf(),
                cells.len() == c.n_cells,
                points.len() == size,
                size >= c.n_cells,
                s_poly@ == selector_of(c, size),
                forall|j: int| 0 <= j < points.len() ==> (#[trigger] points[j])@ == domain_point(
                    size,
                    j,
                ),
                forall|j: int| 0 <= j < cells.len() ==> (#[trigger] cells[j])@ == trace_at(t, size, j),
                forall|i: int| 0 <= i < row ==> #[trigger] gate_ok(c, size, selector_of(c, size), t, i),
            decreases n_rows - row,
        {
            let s = s_poly.evaluate(&points[3 * row]);
            let a = cells[3 * row];
            let b = cells[3 * row + 1];
            let out = cells[3 * row + 2];
            if !Self::gate_check(s, a, b, out) {
                proof {
                    assert(!gate_ok(c, size, selector_of(c, size), t, row as int));
                    assert(!gates_ok(c, size, selector_of(c, size), t));
                }
                return false;
            }
            row = row + 1;
        }
        assert(gates_ok(c, size, selector_of(c, size), t));

        // the cells of a group hold the same value
        let groups = self.circuit.copy_constraints();
        let mut g: usize = 0;
        while g < groups.len()
            invariant
                g <= groups.len(),
                c.wf(),
                crate::circuit::lists_of(groups@) == c.groups,
                cells.len() == c.n_cells,
                forall|j: int| 0 <= j < cells.len() ==> (#[trigger] cells[j])@ == trace_at(t, size, j),
                forall|h: int| 0 <= h < g ==> #[trigger] copy_ok(c, size, t, h),
            decreases groups.len() - g,
        {
            let group = &groups[g];
            assert(group@ == c.groups[g as int]);
            let mut i: usize = 0;
            while i < group.len()
                invariant
                    i <= group.len(),
                    g < c.groups.len(),
                    c.wf(),
                    group@ == c.groups[g as int],
                    cells.len() == c.n_cells,
                    forall|j: int|
                        0 <= j < cells.len() ==> (#[trigger] cells[j])@ == trace_at(t, size, j),
                    forall|j: int|
                        0 <= j < i ==> trace_at(t, size, (#[trigger] c.groups[g as int][j]) as int)
                            == trace_at(t, size, c.groups[g as int][0] as int),
                decreases group.len() - i,
            {
                assert(c.groups[g as int][i as int] < c.n_cells);
                assert(c.groups[g as int][0] < c.n_cells);
                let x = cells[group[i]];
                let y = cells[group[0]];
                if x != y {
                    proof {
                        if x@ == y@ {
                            FieldElement::lemma_view_injective(x, y);
                        }
                        assert(!copy_ok(c, size, t, g as int));
                        assert(!copies_ok(c, size, t));
                    }
                    return false;
                }
                i = i + 1;
            }
            assert(copy_ok(c, size, t, g as int));
            g = g + 1;
        }
        assert(copies_ok(c, size, t));
        proof {
            assert forall|r: int| 0 <= r < c.n_rows implies eval(
                selector_of(c, size),
                #[trigger] domain_point(size, 3 * r),
            ) == op_value(c.selectors[r]) by {}
            lemma_identities_certify(c, public, size, selector_of(c, size), t);
            assert forall|k: int| 0 <= k < public.len() implies eval(
                v_poly@,
                #[trigger] domain_point(size, c.n_cells - 1 - k),
            ) == public[k] by {}
            lemma_identity_vanishes(c, public, size, t, v_poly@);
        }
        true
    }
}

} // verus!
