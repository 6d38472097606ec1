//! What setup hands to the prover and the verifier, and what the prover
//! hands to the verifier.

use crate::polynomial::Polynomial;
use vstd::prelude::*;

verus! {

/// What certifies a witness: the trace polynomial `T`, and the difference
/// `T - V` of the trace polynomial and the public-input polynomial, which
/// vanishes at the points of the public inputs' cells. Committing to them
/// and opening them is the work of the commitment scheme.
#[derive(Debug)]
pub struct Proof {
    trace: Polynomial,
    input_identity: Polynomial,
}

impl Clone for Proof {
    fn clone(&self) -> (r: Self)
        ensures
            r.spec_trace() == self.spec_trace(),
            r.spec_input_identity() == self.spec_input_identity(),
    {
        Proof { trace: self.trace.clone(), input_identity: self.input_identity.clone() }
    }
}

impl Proof {
    /// A proof of the two polynomials.
    pub fn new(trace: Polynomial, input_identity: Polynomial) -> (r: Self)
        ensures
            r.spec_trace() == trace@,
            r.spec_input_identity() == input_identity@,
    {
        Proof { trace, input_identity }
    }

    /// The trace polynomial.
    pub closed spec fn spec_trace(&self) -> Seq<nat> {
        self.trace@
    }

    /// The difference of the trace polynomial and the public-input
    /// polynomial.
    pub closed spec fn spec_input_identity(&self) -> Seq<nat> {
        self.input_identity@
    }

    /// The trace polynomial.
    pub fn trace_polynomial(&self) -> (r: &Polynomial)
        ensures
            r@ == self.spec_trace(),
    {
        &self.trace
    }

    /// The difference of the trace polynomial and the public-input
    /// polynomial.
    pub fn input_identity(&self) -> (r: &Polynomial)
        ensures
            r@ == self.spec_input_identity(),
    {
        &self.input_identity
    }
}

/// What can be computed from a circuit and its public input before any
/// private input is known: the selector polynomial, the public-input
/// polynomial, and the highest degree the commitment scheme was set up for.
#[derive(Debug)]
pub struct PublicParameters {
    selector: Polynomial,
    public_input: Polynomial,
    max_degree: usize,
}

impl Clone for PublicParameters {
    fn clone(&self) -> (r: Self)
        ensures
            r.spec_selector() == self.spec_selector(),
            r.spec_public_input() == self.spec_public_input(),
            r.spec_max_degree() == self.spec_max_degree(),
    {
        PublicParameters {
            selector: self.selector.clone(),
            public_input: self.public_input.clone(),
            max_degree: self.max_degree,
        }
    }
}

impl PublicParameters {
    /// The parameters of the two polynomials and the degree.
    pub fn new(selector: Polynomial, public_input: Polynomial, max_degree: usize) -> (r: Self)
        ensures
            r.spec_selector() == selector@,
            r.spec_public_input() == public_input@,
            r.spec_max_degree() == max_degree,
    {
        PublicParameters { selector, public_input, max_degree }
    }

    /// The selector polynomial.
    pub closed spec fn spec_selector(&self) -> Seq<nat> {
        self.selector@
    }

    /// The public-input polynomial.
    pub closed spec fn spec_public_input(&self) -> Seq<nat> {
        self.public_input@
    }

    /// The highest degree the commitment scheme was set up for.
    pub closed spec fn spec_max_degree(&self) -> usize {
        self.max_degree
    }

    /// The selector polynomial.
    pub fn selector_polynomial(&self) -> (r: &Polynomial)
        ensures
            r@ == self.spec_selector(),
    {
        &self.selector
    }

    /// The public-input polynomial.
    pub fn public_input_polynomial(&self) -> (r: &Polynomial)
        ensures
            r@ == self.spec_public_input(),
    {
        &self.public_input
    }

    /// The highest degree the commitment scheme was set up for.
    pub fn max_degree(&self) -> (r: usize)
        ensures
            r == self.spec_max_degree(),
    {
        self.max_degree
    }
}

} // verus!
