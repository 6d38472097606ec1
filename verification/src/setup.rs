//! Setup: what is computed from a circuit and its public input before any
//! private input is known.

use crate::circuit::Circuit;
use crate::field::{values, FieldElement};
use crate::polynomial::{
    compute_public_input_polynomial, compute_selector_polynomial, domain_size_of, interpolation,
    public_input_evals, selector_evals, strip_zeros, EncodingError,
};
use crate::types::PublicParameters;
use vstd::prelude::*;
use vstd::string::StringExecFns;

verus! {

/// Why setup produced no parameters.
#[derive(Clone, Copy, Debug, PartialEq, Eq, Structural)]
pub enum SetupError {
    /// The circuit has no polynomial encoding.
    Encoding(EncodingError),
    /// The evaluation domain is larger than the highest degree that the
    /// commitment scheme supports.
    DegreeTooLow,
}

impl SetupError {
    /// The text of the error.
    pub open spec fn spec_message(&self) -> Seq<char> {
        match self {
            SetupError::Encoding(e) => e.spec_message(),
            SetupError::DegreeTooLow => "Circuit is too large for the maximum degree."@,
        }
    }

    /// The text of the error.
    pub fn message(&self) -> (s: String)
        ensures
            s@ == self.spec_message(),
    {
        match self {
            SetupError::Encoding(e) => e.message(),
            SetupError::DegreeTooLow => String::from_str(
                "Circuit is too large for the maximum degree.",
            ),
        }
    }
}

/// setup public parameters
///
/// * `circ` - Circuit to prove.
/// * `public_input` - Public input to a circuit.
/// * `degree` - Maximum degree of the commitment scheme.
///
/// Fails when the circuit has no evaluation domain, and when its domain is
/// larger than `degree`. Otherwise the parameters hold the selector
/// polynomial and the public-input polynomial of the circuit, and `degree`.
pub fn setup(circ: &Circuit, public_input: &Vec<FieldElement>, degree: usize) -> (r: Result<
    PublicParameters,
    SetupError,
>)
    requires
        public_input.len() <= circ@.n_cells,
    ensures
        match domain_size_of(circ@.n_cells) {
            Err(e) => r == Err::<PublicParameters, SetupError>(SetupError::Encoding(e)),
            Ok(size) => if size > degree {
                r == Err::<PublicParameters, SetupError>(SetupError::DegreeTooLow)
            } else {
                &&& r is Ok
                &&& r.unwrap().spec_max_degree() == degree
                &&& r.unwrap().spec_selector() == strip_zeros(
                    interpolation(size, selector_evals(circ@.selectors)),
                )
                &&& r.unwrap().spec_public_input() == strip_zeros(
                    interpolation(size, public_input_evals(circ@.n_cells, values(public_input@))),
                )
            },
        },
{
    let size: usize = match crate::polynomial::domain_size(circ.n_cells()) {
        Err(e) => {
            return Err(SetupError::Encoding(e));
        },
        Ok(size) => size,
    };
    if size > degree {
        return Err(SetupError::DegreeTooLow);
    }
    let v_poly = match compute_public_input_polynomial(circ, public_input) {
        Err(e) => {
            return Err(SetupError::Encoding(e));
        },
        Ok(poly) => poly,
    };
    let s_poly = match compute_selector_polynomial(circ) {
        Err(e) => {
            return Err(SetupError::Encoding(e));
        },
        Ok(poly) => poly,
    };
    Ok(PublicParameters::new(s_poly, v_poly, degree))
}

} // verus!
