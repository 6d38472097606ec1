//! The prover: a circuit with its inputs, the witness once it is computed,
//! and the polynomials that certify it.

use crate::circuit::{Circuit, CircuitView};
use crate::error::WitnessError;
use crate::field::{values, FieldElement};
use crate::polynomial::{
    compute_public_input_polynomial, compute_selector_polynomial, domain_point, domain_size_of,
    eval, interpolation, lemma_domain_covers, op_value, padded, public_input_evals, strip_zeros,
    sub_coeffs, trace_polynomial, EncodingError, Polynomial,
};
use crate::types::{Proof, PublicParameters};
use crate::soundness::{lemma_gate_wired_witness, satisfies};
use crate::verification::{
    accepts, lemma_identity_vanishes, lemma_witness_meets_identities, vanishes_on_inputs,
};
use crate::witness::{compute_witness, input_values, witness_of};
use vstd::prelude::*;
use vstd::string::StringExecFns;

verus! {

/// Why the prover has no polynomial or no proof.
#[derive(Clone, Copy, Debug, PartialEq, Eq, Structural)]
pub enum ProverError {
    /// The witness engine failed.
    Witness(WitnessError),
    /// The circuit has no polynomial encoding.
    Encoding(EncodingError),
    /// The witness has not been computed.
    TraceMissing,
}

impl ProverError {
    /// The text of the error.
    pub open spec fn spec_message(&self) -> Seq<char> {
        match self {
            ProverError::Witness(e) => e.spec_message(),
            ProverError::Encoding(e) => e.spec_message(),
            ProverError::TraceMissing => "Computation should be complete."@,
        }
    }

    /// The text of the error.
    pub fn message(&self) -> (s: String)
        ensures
            s@ == self.spec_message(),
    {
        match self {
            ProverError::Witness(e) => e.message(),
            ProverError::Encoding(e) => e.message(),
            ProverError::TraceMissing => String::from_str("Computation should be complete."),
        }
    }
}

/// What a prover holds.
pub struct ProverView {
    pub circuit: CircuitView,
    pub public_input: Seq<nat>,
    pub private_input: Seq<nat>,
    pub trace: Option<Seq<nat>>,
}

impl ProverView {
    /// The inputs in the order of their indices: public ones first.
    pub open spec fn inputs(self) -> Seq<nat> {
        self.public_input + self.private_input
    }
}

/// A circuit with its inputs and, once computed, its witness.
pub struct Prover {
    circuit: Circuit,
    public_input: Vec<FieldElement>,
    private_input: Vec<FieldElement>,
    pp: PublicParameters,
    /// This field stores complete witness data.
    computation_trace: Option<Vec<FieldElement>>,
}

impl View for Prover {
    type V = ProverView;

    closed spec fn view(&self) -> ProverView {
        ProverView {
            circuit: self.circuit@,
            public_input: values(self.public_input@),
            private_input: values(self.private_input@),
            trace: match self.computation_trace {
                Some(t) => Some(values(t@)),
                None => None,
            },
        }
    }
}

impl Prover {
    #[verifier::type_invariant]
    spec fn inv(&self) -> bool {
        &&& self.public_input.len() + self.private_input.len() >= self.circuit@.n_inputs()
        &&& self.public_input.len() <= self.circuit@.n_cells
        &&& self.computation_trace matches Some(t) ==> t.len() == self.circuit@.n_cells
            && witness_of(
            self.circuit@,
            input_values(self.public_input@, self.private_input@),
            Ok(values(t@)),
        )
    }

    /// Create new prover instance
    ///
    /// There must be a value for every input of the circuit, and no more
    /// public inputs than the circuit has cells.
    pub fn new(
        circuit: Circuit,
        pp: PublicParameters,
        public_input: Vec<FieldElement>,
        private_input: Vec<FieldElement>,
    ) -> (r: Self)
        requires
            public_input.len() + private_input.len() >= circuit@.n_inputs(),
            public_input.len() <= circuit@.n_cells,
        ensures
            r@ == (ProverView {
                circuit: circuit@,
                public_input: values(public_input@),
                private_input: values(private_input@),
                trace: None,
            }),
            r.spec_public_parameters() == pp,
    {
        Self { circuit, pp, public_input, private_input, computation_trace: None }
    }

    /// The parameters that setup made for the circuit.
    pub closed spec fn spec_public_parameters(&self) -> PublicParameters {
        self.pp
    }

    /// The parameters that setup made for the circuit.
    pub fn public_parameters(&self) -> (r: &PublicParameters)
        ensures
            *r == self.spec_public_parameters(),
    {
        &self.pp
    }

    /// The witness, once it is computed.
    pub fn computation_trace(&self) -> (r: &Option<Vec<FieldElement>>)
        ensures
            match *r {
                Some(t) => self@.trace == Some(values(t@)),
                None => self@.trace is None,
            },
    {
        &self.computation_trace
    }

    /// Calculate all intermediate witness values in a circuit gate by gate.
    ///
    /// On success the prover holds the witness; on failure it holds what it
    /// held before.
    pub fn calculate_witness(&mut self) -> (r: Result<(), WitnessError>)
        ensures
            final(self)@.circuit == old(self)@.circuit,
            final(self)@.public_input == old(self)@.public_input,
            final(self)@.private_input == old(self)@.private_input,
            match r {
                Ok(_) => final(self)@.trace is Some && witness_of(
                    old(self)@.circuit,
                    old(self)@.inputs(),
                    Ok(final(self)@.trace.unwrap()),
                ),
                Err(e) => final(self)@.trace == old(self)@.trace && witness_of(
                    old(self)@.circuit,
                    old(self)@.inputs(),
                    Err(e),
                ),
            },
            old(self)@.circuit.gate_wired() ==> r is Ok && satisfies(
                old(self)@.circuit,
                old(self)@.inputs(),
                final(self)@.trace.unwrap(),
            ),
    {
        proof {
            use_type_invariant(&*self);
            assert(values(self.public_input@ + self.private_input@) =~= values(self.public_input@)
                + values(self.private_input@));
        }
        match compute_witness(&self.circuit, &self.public_input, &self.private_input) {
            Err(e) => Err(e),
            Ok(trace) => {
                self.computation_trace = Some(trace);
                Ok(())
            },
        }
    }

    /// Compute polynomial that represents whole computation trace.
    ///
    /// Fails when the circuit has no evaluation domain and, with a domain,
    /// when the witness has not been computed. Otherwise the polynomial is
    /// worth the value of cell `j` at point `j` of the domain, and zero at
    /// the points beyond the cells.
    pub fn compute_trace_polynomial(&self) -> (r: Result<Polynomial, ProverError>)
        ensures
            match domain_size_of(self@.circuit.n_cells) {
                Err(e) => r == Err::<Polynomial, ProverError>(ProverError::Encoding(e)),
                Ok(size) => match self@.trace {
                    None => r == Err::<Polynomial, ProverError>(ProverError::TraceMissing),
                    Some(trace) => {
                        &&& r is Ok
                        &&& r.unwrap()@ == strip_zeros(interpolation(size, trace))
                        &&& forall|j: int|
                            0 <= j < size ==> eval(r.unwrap()@, #[trigger] domain_point(size, j))
                                == padded(trace, j)
                    },
                },
            },
    {
        proof {
            use_type_invariant(self);
        }
        // Evaluation domain should better be radix-2 for efficient FFT.
        // domain should be 2^n
        match crate::polynomial::domain_size(self.circuit.n_cells()) {
            Err(e) => {
                return Err(ProverError::Encoding(e));
            },
            Ok(_) => {},
        }
        match &self.computation_trace {
            None => Err(ProverError::TraceMissing),
            Some(trace) => match trace_polynomial(trace) {
                Err(e) => Err(ProverError::Encoding(e)),
                Ok(poly) => Ok(poly),
            },
        }
    }
}

impl Prover {
    /// Prove the statement
    ///
    /// Computes the witness unless the prover holds it, then the trace
    /// polynomial `T`, the selector polynomial, the public-input polynomial
    /// `V` and the difference `T - V`. Fails with the error of the witness
    /// engine, or, once there is a witness, when the circuit has no
    /// evaluation domain.
    pub fn prove(&mut self) -> (r: Result<Proof, ProverError>)
        ensures
            final(self)@.circuit == old(self)@.circuit,
            final(self)@.public_input == old(self)@.public_input,
            final(self)@.private_input == old(self)@.private_input,
            old(self)@.trace is Some ==> final(self)@.trace == old(self)@.trace,
            match r {
                Ok(proof) => {
                    &&& final(self)@.trace is Some
                    &&& old(self)@.trace is None ==> witness_of(
                        old(self)@.circuit,
                        old(self)@.inputs(),
                        Ok(final(self)@.trace.unwrap()),
                    )
                    &&& domain_size_of(old(self)@.circuit.n_cells) matches Ok(size)
                    &&& proof.spec_trace() == strip_zeros(
                        interpolation(size, final(self)@.trace.unwrap()),
                    )
                    &&& proof.spec_input_identity() == strip_zeros(
                        sub_coeffs(
                            proof.spec_trace(),
                            strip_zeros(
                                interpolation(
                                    size,
                                    public_input_evals(
                                        old(self)@.circuit.n_cells,
                                        old(self)@.public_input,
                                    ),
                                ),
                            ),
                        ),
                    )
                },
                Err(ProverError::Witness(e)) => {
                    &&& old(self)@.trace is None
                    &&& final(self)@.trace is None
                    &&& witness_of(old(self)@.circuit, old(self)@.inputs(), Err(e))
                },
                Err(ProverError::Encoding(e)) => {
                    &&& final(self)@.trace is Some
                    &&& old(self)@.trace is None ==> witness_of(
                        old(self)@.circuit,
                        old(self)@.inputs(),
                        Ok(final(self)@.trace.unwrap()),
                    )
                    &&& domain_size_of(old(self)@.circuit.n_cells) == Err::<nat, EncodingError>(e)
                },
                Err(ProverError::TraceMissing) => false,
            },
            old(self)@.circuit.gate_wired() ==> !(r matches Err(ProverError::Witness(_))),
            old(self)@.circuit.gate_wired() && old(self)@.public_input.len() <= old(
                self,
            )@.circuit.n_inputs() ==> (r matches Ok(proof) ==> domain_size_of(
                old(self)@.circuit.n_cells,
            ) matches Ok(size) && accepts(
                old(self)@.circuit,
                old(self)@.public_input,
                size,
                proof.spec_trace(),
                proof.spec_input_identity(),
            ) && vanishes_on_inputs(
                old(self)@.circuit,
                old(self)@.public_input.len(),
                size,
                proof.spec_input_identity(),
            )),
    {
        // generate witness
        if self.computation_trace.is_none() {
            match self.calculate_witness() {
                Err(e) => {
                    return Err(ProverError::Witness(e));
                },
                Ok(_) => {},
            }
        }
        proof {
            use_type_invariant(&*self);
        }
        // calculate trace polynomial
        let t_poly = match self.compute_trace_polynomial() {
            Err(e) => {
                return Err(e);
            },
            Ok(poly) => poly,
        };

        // prove following things using polynomial checks
        // 1. gates
        let s_poly = match compute_selector_polynomial(&self.circuit) {
            Err(e) => {
                return Err(ProverError::Encoding(e));
            },
            Ok(poly) => poly,
        };

        // 2. Prove T encodes the correct inputs
        // prover and verifier both computes the same public input polynomial v(x)
        let v_poly = match compute_public_input_polynomial(&self.circuit, &self.public_input) {
            Err(e) => {
                return Err(ProverError::Encoding(e));
            },
            Ok(poly) => poly,
        };
        let pi_poly = t_poly.sub(&v_poly);
        proof {
            let c = self@.circuit;
            let public = self@.public_input;
            let inputs = self@.inputs();
            let w = self@.trace.unwrap();
            let size = domain_size_of(c.n_cells).unwrap();
            lemma_domain_covers(c.n_cells);
            assert(values(self.public_input@ + self.private_input@) =~= inputs);
            if c.gate_wired() && public.len() <= c.n_inputs() {
                lemma_gate_wired_witness(c, inputs, Ok(w));
                assert forall|j: int| 0 <= j < c.n_cells implies eval(
                    t_poly@,
                    #[trigger] domain_point(size, j),
                ) == w[j] by {
                    assert(padded(w, j) == w[j]);
                }
                assert forall|r: int| 0 <= r < c.n_rows implies eval(
                    s_poly@,
                    #[trigger] domain_point(size, 3 * r),
                ) == op_value(c.selectors[r]) by {}
                lemma_witness_meets_identities(c, inputs, public, size, w, s_poly@, t_poly@);
                assert forall|k: int| 0 <= k < public.len() implies eval(
                    v_poly@,
                    #[trigger] domain_point(size, c.n_cells - 1 - k),
                ) == public[k] by {}
                lemma_identity_vanishes(c, public, size, t_poly@, v_poly@);
            }
        }

        Ok(Proof::new(t_poly, pi_poly))
    }
}

} // verus!
