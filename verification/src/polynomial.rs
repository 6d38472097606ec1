//! Polynomials over the scalar field and the encoding of a circuit and its
//! witness as polynomials.
//!
//! The evaluation domain of a circuit is the group of roots of unity whose
//! order is the least power of two that is not below the number of cells;
//! its `j`-th point is the `j`-th power of the field's root of unity of that
//! order. Cell `j` of the circuit belongs to point `j`.

use crate::circuit::{Circuit, Op};
use crate::field::{field_add, field_mul, field_sub, modulus, values, FieldElement};
use ark_bls12_381::Fr;
use ark_ff::{BigInt, PrimeField};
use ark_poly::{EvaluationDomain, GeneralEvaluationDomain};
use vstd::arithmetic::div_mod::{
    lemma_add_mod_noop, lemma_mod_multiples_vanish, lemma_mul_mod_noop_left,
};
use vstd::prelude::*;
use vstd::string::StringExecFns;

verus! {

/// Why a circuit has no polynomial encoding.
#[derive(Clone, Copy, Debug, PartialEq, Eq, Structural)]
pub enum EncodingError {
    /// The least power of two that is not below the number of cells does
    /// not fit the machine's word.
    CircuitTooLarge,
    /// The field has no group of roots of unity of the order needed.
    NoDomain,
}

impl EncodingError {
    /// The text of the error.
    pub open spec fn spec_message(&self) -> Seq<char> {
        match self {
            EncodingError::CircuitTooLarge => "Circuit size is too large."@,
            EncodingError::NoDomain => "Domain cannot be constructed from circuit size"@,
        }
    }

    /// The text of the error.
    pub fn message(&self) -> (s: String)
        ensures
            s@ == self.spec_message(),
    {
        match self {
            EncodingError::CircuitTooLarge => String::from_str("Circuit size is too large."),
            EncodingError::NoDomain => String::from_str("Domain cannot be constructed from circuit size"),
        }
    }
}

/// The scalar field has roots of unity of every order `2^k` up to `2^32`.
pub const MAX_DOMAIN_SIZE: u64 = 0x1_0000_0000;

/// `n` is a power of two.
pub open spec fn is_pow2(n: nat) -> bool
    decreases n,
{
    n == 1 || (n > 1 && n % 2 == 0 && is_pow2(n / 2))
}

/// The least of `p`, `2p`, `4p`, ... that is not below `n`.
pub open spec fn next_pow2_from(n: nat, p: nat) -> nat
    decreases
            (if n > p {
                n - p
            } else {
                0
            }),
{
    if p >= n || p == 0 {
        p
    } else {
        next_pow2_from(n, 2 * p)
    }
}

/// The least power of two that is not below `n`.
pub open spec fn next_pow2(n: nat) -> nat {
    next_pow2_from(n, 1)
}

/// The least power of two that is not below `n`, unless it does not fit.
pub fn next_power_of_two(n: usize) -> (r: Option<usize>)
    ensures
        r == (if next_pow2(n as nat) <= usize::MAX {
            Some(next_pow2(n as nat) as usize)
        } else {
            None
        }),
        r matches Some(p) ==> is_pow2(p as nat) && p >= n,
{
    let mut p: usize = 1;
    while p < n
        invariant
            p >= 1,
            is_pow2(p as nat),
            next_pow2_from(n as nat, p as nat) == next_pow2(n as nat),
        decreases
                (if n > p {
                    n - p
                } else {
                    0
                }),
    {
        if p > usize::MAX / 2 {
            proof {
                lemma_next_pow2_from_grows(n as nat, 2 * (p as nat));
            }
            return None;
        }
        p = p * 2;
    }
    Some(p)
}

proof fn lemma_next_pow2_from_grows(n: nat, p: nat)
    ensures
        next_pow2_from(n, p) >= p,
    decreases
            (if n > p {
                n - p
            } else {
                0
            }),
{
    if !(p >= n || p == 0) {
        lemma_next_pow2_from_grows(n, 2 * p);
    }
}

/// The size of the evaluation domain of a circuit of `n` cells.
pub open spec fn domain_size_of(n: nat) -> Result<nat, EncodingError> {
    if next_pow2(n) > usize::MAX {
        Err(EncodingError::CircuitTooLarge)
    } else if next_pow2(n) > MAX_DOMAIN_SIZE {
        Err(EncodingError::NoDomain)
    } else {
        Ok(next_pow2(n))
    }
}

/// The evaluation domain of a circuit has a point for every cell.
pub proof fn lemma_domain_covers(n: nat)
    ensures
        domain_size_of(n) matches Ok(size) ==> size >= n,
{
    lemma_next_pow2_reaches(n, 1);
}

proof fn lemma_next_pow2_reaches(n: nat, p: nat)
    requires
        p > 0,
    ensures
        next_pow2_from(n, p) >= n,
    decreases
            (if n > p {
                n - p
            } else {
                0
            }),
{
    if !(p >= n) {
        lemma_next_pow2_reaches(n, 2 * p);
    }
}

/// The size of the evaluation domain of a circuit of `n_cells` cells: the
/// least power of two that is not below `n_cells`, if it fits the word and
/// the field has roots of unity of that order.
pub fn domain_size(n_cells: usize) -> (r: Result<usize, EncodingError>)
    ensures
        match r {
            Ok(size) => domain_size_of(n_cells as nat) == Ok::<nat, EncodingError>(size as nat)
                && is_pow2(size as nat) && n_cells <= size <= MAX_DOMAIN_SIZE,
            Err(e) => domain_size_of(n_cells as nat) == Err::<nat, EncodingError>(e),
        },
{
    match next_power_of_two(n_cells) {
        None => Err(EncodingError::CircuitTooLarge),
        Some(size) => {
            if size as u64 > MAX_DOMAIN_SIZE {
                Err(EncodingError::NoDomain)
            } else {
                Ok(size)
            }
        },
    }
}

/// `x` to the power `e` in the field.
pub open spec fn field_pow(x: nat, e: nat) -> nat
    decreases e,
{
    if e == 0 {
        1
    } else {
        field_mul(field_pow(x, (e - 1) as nat), x)
    }
}

/// The value at `x` of the polynomial with the given coefficients, lowest
/// degree first.
pub open spec fn eval(coeffs: Seq<nat>, x: nat) -> nat
    decreases coeffs.len(),
{
    if coeffs.len() == 0 {
        0
    } else {
        field_add(field_mul(eval(coeffs.skip(1), x), x), coeffs[0])
    }
}

/// The coefficients without the zeros at their high end.
pub open spec fn strip_zeros(coeffs: Seq<nat>) -> Seq<nat>
    decreases coeffs.len(),
{
    if coeffs.len() > 0 && coeffs.last() == 0 {
        strip_zeros(coeffs.drop_last())
    } else {
        coeffs
    }
}

/// The `j`-th of a list of evaluations that zeros follow.
pub open spec fn padded(evals: Seq<nat>, j: int) -> nat {
    if 0 <= j < evals.len() {
        evals[j]
    } else {
        0
    }
}

/// The generator of the evaluation domain of the given size: the value of
/// `EvaluationDomain::group_gen` on the domain that
/// `GeneralEvaluationDomain::<Fr>::new` makes for that size.
pub uninterp spec fn root_of_unity(size: nat) -> nat;

/// The coefficients that `EvaluationDomain::ifft` gives for a list of
/// evaluations on the domain of the given size.
pub uninterp spec fn interpolation(size: nat, evals: Seq<nat>) -> Seq<nat>;

/// The `j`-th point of the evaluation domain of the given size.
pub open spec fn domain_point(size: nat, j: int) -> nat {
    field_pow(root_of_unity(size), j as nat)
}

/// The next point of the domain is the generator times the point.
pub proof fn lemma_next_point(size: nat, j: nat)
    ensures
        domain_point(size, j + 1 as int) == field_mul(
            domain_point(size, j as int),
            root_of_unity(size),
        ),
{
}

/// `GeneralEvaluationDomain::<Fr>::new(size)` followed by
/// `EvaluationDomain::group_gen`. For a power of two up to `2^32` the
/// constructor returns the radix-2 domain of exactly that size; its
/// generator is the field's root of unity of that order, here given its
/// name.
#[verifier::external_body]
fn domain_generator(size: usize) -> (g: FieldElement)
    requires
        is_pow2(size as nat),
        size <= MAX_DOMAIN_SIZE,
    ensures
        g@ == root_of_unity(size as nat),
{
    let domain = GeneralEvaluationDomain::<Fr>::new(size).unwrap();
    let b = domain.group_gen().into_bigint().0;
    FieldElement { l0: b[0], l1: b[1], l2: b[2], l3: b[3] }
}

/// `GeneralEvaluationDomain::<Fr>::new(size)` followed by
/// `EvaluationDomain::ifft` on the evaluations. For a power of two up to
/// `2^32` the domain is the radix-2 domain of exactly that size. The inverse
/// transform pads the evaluations with zeros to the size of the domain and
/// returns as many coefficients: those of the polynomial that takes the
/// `j`-th evaluation at the `j`-th point of the domain, the points being the
/// powers of the generator in order.
#[verifier::external_body]
fn inverse_fft(size: usize, evals: &Vec<FieldElement>) -> (coeffs: Vec<FieldElement>)
    requires
        is_pow2(size as nat),
        size <= MAX_DOMAIN_SIZE,
        evals.len() <= size,
    ensures
        values(coeffs@) == interpolation(size as nat, values(evals@)),
        coeffs.len() == size,
        forall|j: int|
            0 <= j < size ==> eval(values(coeffs@), #[trigger] domain_point(size as nat, j))
                == padded(values(evals@), j),
{
    let domain = GeneralEvaluationDomain::<Fr>::new(size).unwrap();
    let input: Vec<Fr> = evals.iter().map(
        |e| Fr::from_bigint(BigInt::new([e.l0, e.l1, e.l2, e.l3])).unwrap(),
    ).collect();
    domain.ifft(&input).into_iter().map(
        |c|
            {
                let b = c.into_bigint().0;
                FieldElement { l0: b[0], l1: b[1], l2: b[2], l3: b[3] }
            },
    ).collect()
}

/// A polynomial in one variable, as its coefficients from the constant
/// term up, the last of them not zero.
#[derive(Debug)]
pub struct Polynomial {
    coeffs: Vec<FieldElement>,
}

impl Clone for Polynomial {
    fn clone(&self) -> (r: Self)
        ensures
            r@ == self@,
    {
        let mut coeffs: Vec<FieldElement> = Vec::new();
        let mut i: usize = 0;
        while i < self.coeffs.len()
            invariant
                i <= self.coeffs.len(),
                coeffs@ == self.coeffs@.take(i as int),
            decreases self.coeffs.len() - i,
        {
            coeffs.push(self.coeffs[i]);
            i = i + 1;
            assert(coeffs@ =~= self.coeffs@.take(i as int));
        }
        assert(self.coeffs@.take(self.coeffs.len() as int) =~= self.coeffs@);
        Polynomial { coeffs }
    }
}

impl PartialEq for Polynomial {
    /// Two polynomials are equal when they have the same coefficients.
    fn eq(&self, other: &Self) -> (r: bool) {
        let x = &self.coeffs;
        let y = &other.coeffs;
        if x.len() != y.len() {
            assert(self@.len() != other@.len());
            return false;
        }
        let mut i: usize = 0;
        while i < x.len()
            invariant
                i <= x.len(),
                x.len() == y.len(),
                values(x@) == self@,
                values(y@) == other@,
                forall|j: int| 0 <= j < i ==> self@[j] == other@[j],
            decreases x.len() - i,
        {
            if x[i] != y[i] {
                proof {
                    if x[i as int]@ == y[i as int]@ {
                        FieldElement::lemma_view_injective(x[i as int], y[i as int]);
                    }
                    assert(self@[i as int] == x[i as int]@);
                    assert(other@[i as int] == y[i as int]@);
                }
                return false;
            }
            assert(self@[i as int] == x[i as int]@);
            assert(other@[i as int] == y[i as int]@);
            i = i + 1;
        }
        assert(self@ =~= other@);
        true
    }
}

impl vstd::std_specs::cmp::PartialEqSpecImpl for Polynomial {
    open spec fn obeys_eq_spec() -> bool {
        true
    }

    open spec fn eq_spec(&self, other: &Self) -> bool {
        self@ == other@
    }
}

impl Eq for Polynomial {

}

impl View for Polynomial {
    type V = Seq<nat>;

    closed spec fn view(&self) -> Seq<nat> {
        values(self.coeffs@)
    }
}

/// A zero at the high end does not change the values of a polynomial.
pub proof fn lemma_eval_push_zero(coeffs: Seq<nat>, x: nat)
    ensures
        eval(coeffs.push(0), x) == eval(coeffs, x),
    decreases coeffs.len(),
{
    let longer = coeffs.push(0);
    if coeffs.len() == 0 {
        assert(longer.skip(1) =~= Seq::<nat>::empty());
        assert(eval(longer.skip(1), x) == 0);
        assert(0 * x == 0) by (nonlinear_arith);
    } else {
        assert(longer.skip(1) =~= coeffs.skip(1).push(0));
        lemma_eval_push_zero(coeffs.skip(1), x);
    }
}

/// Zeros at the high end do not change the values of a polynomial.
pub proof fn lemma_eval_strip_zeros(coeffs: Seq<nat>, x: nat)
    ensures
        eval(strip_zeros(coeffs), x) == eval(coeffs, x),
    decreases coeffs.len(),
{
    if coeffs.len() > 0 && coeffs.last() == 0 {
        lemma_eval_strip_zeros(coeffs.drop_last(), x);
        lemma_eval_push_zero(coeffs.drop_last(), x);
        assert(coeffs.drop_last().push(0) =~= coeffs);
    }
}

impl Polynomial {
    /// Constructs a new polynomial from a list of coefficients, lowest
    /// degree first. Zeros at the high end are dropped.
    pub fn from_coefficients_vec(coeffs: Vec<FieldElement>) -> (r: Self)
        ensures
            r@ == strip_zeros(values(coeffs@)),
    {
        let ghost given = values(coeffs@);
        let mut coeffs = coeffs;
        while coeffs.len() > 0 && coeffs[coeffs.len() - 1].is_zero()
            invariant
                strip_zeros(values(coeffs@)) == strip_zeros(given),
            decreases coeffs.len(),
        {
            let ghost before = values(coeffs@);
            coeffs.pop();
            assert(values(coeffs@) =~= before.drop_last());
        }
        Polynomial { coeffs }
    }

    /// Returns the coefficients, lowest degree first.
    pub fn coeffs(&self) -> (r: &Vec<FieldElement>)
        ensures
            values(r@) == self@,
    {
        &self.coeffs
    }

    /// The value of the polynomial at a point.
    pub fn evaluate(&self, point: &FieldElement) -> (r: FieldElement)
        ensures
            r@ == eval(self@, point@),
    {
        let n: usize = self.coeffs.len();
        let mut acc = FieldElement::zero();
        let mut i: usize = n;
        assert(self@.skip(n as int) =~= Seq::<nat>::empty());
        while i > 0
            invariant
                n == self.coeffs.len(),
                i <= n,
                acc@ == eval(self@.skip(i as int), point@),
            decreases i,
        {
            i = i - 1;
            acc = acc.mul(point).add(&self.coeffs[i]);
            assert(self@.skip(i as int).skip(1) =~= self@.skip(i + 1));
        }
        assert(self@.skip(0) =~= self@);
        acc
    }
}

/// The coefficients of the difference of two polynomials, before zeros at
/// the high end are dropped.
pub open spec fn sub_coeffs(a: Seq<nat>, b: Seq<nat>) -> Seq<nat> {
    Seq::new(
        if a.len() >= b.len() {
            a.len()
        } else {
            b.len()
        },
        |i: int| field_sub(padded(a, i), padded(b, i)),
    )
}

/// The coefficients after the first, if there is a first.
spec fn tail(s: Seq<nat>) -> Seq<nat> {
    if s.len() > 0 {
        s.skip(1)
    } else {
        s
    }
}

/// One step of the evaluation, also of a polynomial without coefficients.
proof fn lemma_eval_unfold(s: Seq<nat>, x: nat)
    ensures
        eval(s, x) == field_add(field_mul(eval(tail(s), x), x), padded(s, 0)),
{
    if s.len() == 0 {
        assert(0 * x == 0) by (nonlinear_arith);
    }
}

/// One step of the evaluation of a difference is the difference of one
/// step of each evaluation.
proof fn lemma_sub_step(da: nat, db: nat, a0: nat, b0: nat, x: nat)
    ensures
        field_add(field_mul(field_sub(da, db), x), field_sub(a0, b0)) == field_sub(
            field_add(field_mul(da, x), a0),
            field_add(field_mul(db, x), b0),
        ),
{
    let p = modulus() as int;
    let da = da as int;
    let db = db as int;
    let a0 = a0 as int;
    let b0 = b0 as int;
    let x = x as int;
    let base = da * x - db * x + a0 - b0;
    // the left side
    let u = da % p + p - db % p;
    let v = a0 % p + p - b0 % p;
    lemma_mul_mod_noop_left(u, x, p);
    lemma_add_mod_noop(u * x, v, p);
    let k1 = x - (da / p) * x + (db / p) * x + 1 - a0 / p + b0 / p;
    assert(u * x + v == p * k1 + base) by (nonlinear_arith)
        requires
            u == da % p + p - db % p,
            v == a0 % p + p - b0 % p,
            da == p * (da / p) + da % p,
            db == p * (db / p) + db % p,
            a0 == p * (a0 / p) + a0 % p,
            b0 == p * (b0 / p) + b0 % p,
            k1 == x - (da / p) * x + (db / p) * x + 1 - a0 / p + b0 / p,
            base == da * x - db * x + a0 - b0,
    ;
    lemma_mod_multiples_vanish(k1, base, p);
    let left = ((u % p) * x % p + v % p) % p;
    assert(left == base % p);
    // the right side
    let ma = da * x;
    let mb = db * x;
    let ya = ma % p + a0;
    let yb = mb % p + b0;
    let w = (ya % p) % p + p - (yb % p) % p;
    let k2 = 1 - ya / p - ma / p + yb / p + mb / p;
    assert(w == p * k2 + base);
    lemma_mod_multiples_vanish(k2, base, p);
    let right = w % p;
    assert(right == base % p);
}

/// The value of a difference of polynomials, before zeros at the high end
/// are dropped, is the difference of their values.
proof fn lemma_eval_sub_coeffs(a: Seq<nat>, b: Seq<nat>, x: nat)
    ensures
        eval(sub_coeffs(a, b), x) == field_sub(eval(a, x), eval(b, x)),
    decreases a.len() + b.len(),
{
    let d = sub_coeffs(a, b);
    if a.len() == 0 && b.len() == 0 {
        assert(d.len() == 0);
    } else {
        lemma_eval_sub_coeffs(tail(a), tail(b), x);
        assert(tail(d) =~= sub_coeffs(tail(a), tail(b)));
        lemma_eval_unfold(d, x);
        lemma_eval_unfold(a, x);
        lemma_eval_unfold(b, x);
        lemma_sub_step(eval(tail(a), x), eval(tail(b), x), padded(a, 0), padded(b, 0), x);
    }
}

/// The value of a difference of polynomials is the difference of their
/// values.
pub proof fn lemma_eval_sub(a: Seq<nat>, b: Seq<nat>, x: nat)
    ensures
        eval(strip_zeros(sub_coeffs(a, b)), x) == field_sub(eval(a, x), eval(b, x)),
{
    lemma_eval_sub_coeffs(a, b, x);
    lemma_eval_strip_zeros(sub_coeffs(a, b), x);
}

impl Polynomial {
    /// The difference of two polynomials.
    pub fn sub(&self, other: &Polynomial) -> (r: Polynomial)
        ensures
            r@ == strip_zeros(sub_coeffs(self@, other@)),
    {
        let n: usize = if self.coeffs.len() >= other.coeffs.len() {
            self.coeffs.len()
        } else {
            other.coeffs.len()
        };
        let mut coeffs: Vec<FieldElement> = Vec::new();
        let mut i: usize = 0;
        while i < n
            invariant
                i <= n,
                n == sub_coeffs(self@, other@).len(),
                coeffs.len() == i,
                forall|j: int|
                    0 <= j < i ==> (#[trigger] coeffs[j])@ == sub_coeffs(self@, other@)[j],
            decreases n - i,
        {
            let a = if i < self.coeffs.len() {
                self.coeffs[i]
            } else {
                FieldElement::zero()
            };
            let b = if i < other.coeffs.len() {
                other.coeffs[i]
            } else {
                FieldElement::zero()
            };
            coeffs.push(a.sub(&b));
            i = i + 1;
        }
        assert(values(coeffs@) =~= sub_coeffs(self@, other@));
        Polynomial::from_coefficients_vec(coeffs)
    }
}

/// The value that stands for the operation of a row in the selector
/// polynomial: one for an addition, zero for a multiplication.
pub open spec fn op_value(op: Op) -> nat {
    match op {
        Op::Add => 1,
        Op::Mul => 0,
    }
}

/// What the selector polynomial is interpolated from: the value of row `r`
/// at index `3 r`, zeros between.
pub open spec fn selector_evals(selectors: Seq<Op>) -> Seq<nat> {
    Seq::new(
        (3 * selectors.len() - 2) as nat,
        |j: int|
            if j % 3 == 0 {
                op_value(selectors[j / 3])
            } else {
                0
            },
    )
}

/// What the public-input polynomial is interpolated from: over `n_cells`
/// points, the public inputs in reverse order at the high end, zeros below.
pub open spec fn public_input_evals(n_cells: nat, public_input: Seq<nat>) -> Seq<nat> {
    Seq::new(
        n_cells,
        |j: int|
            if j >= n_cells - public_input.len() {
                public_input[n_cells - 1 - j]
            } else {
                0
            },
    )
}

/// The polynomial over the domain of a circuit of `n_cells` cells that
/// takes the given values at the first points and zero at the others.
///
/// Fails exactly when the circuit has no domain. Otherwise the result is
/// the inverse transform of the evaluations without its high zeros; at the
/// `j`-th point of the domain it is worth the `j`-th evaluation, and zero
/// where there is none.
pub fn interpolate(n_cells: usize, evals: &Vec<FieldElement>) -> (r: Result<
    Polynomial,
    EncodingError,
>)
    requires
        evals.len() <= n_cells,
    ensures
        match domain_size_of(n_cells as nat) {
            Err(e) => r == Err::<Polynomial, EncodingError>(e),
            Ok(size) => {
                &&& r is Ok
                &&& r.unwrap()@ == strip_zeros(interpolation(size, values(evals@)))
                &&& forall|j: int|
                    0 <= j < size ==> eval(r.unwrap()@, #[trigger] domain_point(size, j))
                        == padded(values(evals@), j)
            },
        },
{
    let size: usize = match domain_size(n_cells) {
        Err(e) => {
            return Err(e);
        },
        Ok(size) => size,
    };
    let coeffs = inverse_fft(size, evals);
    let ghost full = values(coeffs@);
    let poly = Polynomial::from_coefficients_vec(coeffs);
    proof {
        assert forall|j: int| 0 <= j < size implies eval(
            poly@,
            #[trigger] domain_point(size as nat, j),
        ) == padded(values(evals@), j) by {
            lemma_eval_strip_zeros(full, domain_point(size as nat, j));
        }
    }
    Ok(poly)
}

/// The value that stands for an operation, as a field element.
fn op_element(op: Op) -> (r: FieldElement)
    ensures
        r@ == op_value(op),
{
    match op {
        Op::Add => FieldElement::one(),
        Op::Mul => FieldElement::zero(),
    }
}

/// compute selector polynomial independent of inputs
/// this can be done in setup phase
///
/// At the point of the left operand of row `r`, which is point `3 r` of the
/// domain, the polynomial is worth one if the row adds and zero if it
/// multiplies; at every other point of the domain it is worth zero.
pub fn compute_selector_polynomial(circ: &Circuit) -> (r: Result<Polynomial, EncodingError>)
    ensures
        match domain_size_of(circ@.n_cells) {
            Err(e) => r == Err::<Polynomial, EncodingError>(e),
            Ok(size) => {
                &&& r is Ok
                &&& r.unwrap()@ == strip_zeros(interpolation(size, selector_evals(circ@.selectors)))
                &&& forall|j: int|
                    0 <= j < size ==> eval(r.unwrap()@, #[trigger] domain_point(size, j)) == (if j
                        % 3 == 0 && j / 3 < circ@.n_rows {
                        op_value(circ@.selectors[j / 3])
                    } else {
                        0
                    })
            },
        },
{
    circ.well_formed();
    let selectors = circ.selectors();
    let mut evals: Vec<FieldElement> = Vec::new();
    evals.push(op_element(selectors[0]));
    let mut row: usize = 1;
    while row < selectors.len()
        invariant
            1 <= row <= selectors.len(),
            3 * selectors.len() <= usize::MAX,
            evals.len() == 3 * row - 2,
            forall|j: int|
                0 <= j < evals.len() ==> (#[trigger] evals[j])@ == (if j % 3 == 0 {
                    op_value(selectors[j / 3])
                } else {
                    0
                }),
        decreases selectors.len() - row,
    {
        evals.push(FieldElement::zero());
        evals.push(FieldElement::zero());
        evals.push(op_element(selectors[row]));
        row = row + 1;
    }
    assert(values(evals@) =~= selector_evals(circ@.selectors));
    interpolate(circ.n_cells(), &evals)
}

///
/// compute inputs polynomial
/// this can be done in setup phase
///
/// At the point of the cell of the `k`-th public input, which is point
/// `n_cells - 1 - k` of the domain, the polynomial is worth that input; at
/// every other point of the domain it is worth zero.
pub fn compute_public_input_polynomial(circ: &Circuit, public_input: &Vec<FieldElement>) -> (r:
    Result<Polynomial, EncodingError>)
    requires
        public_input.len() <= circ@.n_cells,
    ensures
        match domain_size_of(circ@.n_cells) {
            Err(e) => r == Err::<Polynomial, EncodingError>(e),
            Ok(size) => {
                &&& r is Ok
                &&& r.unwrap()@ == strip_zeros(
                    interpolation(size, public_input_evals(circ@.n_cells, values(public_input@))),
                )
                &&& forall|j: int|
                    0 <= j < size ==> eval(r.unwrap()@, #[trigger] domain_point(size, j)) == (if
                        circ@.n_cells - public_input.len() <= j < circ@.n_cells {
                        public_input[circ@.n_cells - 1 - j]@
                    } else {
                        0
                    })
            },
        },
{
    let n_cells: usize = circ.n_cells();
    let n_pub: usize = public_input.len();
    let mut pad: Vec<FieldElement> = Vec::new();
    let mut j: usize = 0;
    while j < n_cells - n_pub
        invariant
            n_pub <= n_cells,
            j <= n_cells - n_pub,
            pad.len() == j,
            forall|i: int| 0 <= i < j ==> (#[trigger] pad[i])@ == 0,
        decreases n_cells - n_pub - j,
    {
        pad.push(FieldElement::zero());
        j = j + 1;
    }
    let mut k: usize = n_pub;
    while k > 0
        invariant
            n_pub == public_input.len(),
            n_pub <= n_cells,
            k <= n_pub,
            pad.len() == n_cells - k,
            forall|i: int| 0 <= i < n_cells - n_pub ==> (#[trigger] pad[i])@ == 0,
            forall|i: int|
                n_cells - n_pub <= i < n_cells - k ==> (#[trigger] pad[i])@ == public_input[n_cells
                    - 1 - i]@,
        decreases k,
    {
        k = k - 1;
        pad.push(public_input[k]);
    }
    assert(values(pad@) =~= public_input_evals(n_cells as nat, values(public_input@)));
    interpolate(n_cells, &pad)
}

/// The polynomial that encodes a witness: at point `j` of the domain it is
/// worth the value of cell `j`, and zero at the points beyond the cells.
pub fn trace_polynomial(trace: &Vec<FieldElement>) -> (r: Result<Polynomial, EncodingError>)
    ensures
        match domain_size_of(trace.len() as nat) {
            Err(e) => r == Err::<Polynomial, EncodingError>(e),
            Ok(size) => {
                &&& r is Ok
                &&& r.unwrap()@ == strip_zeros(interpolation(size, values(trace@)))
                &&& forall|j: int|
                    0 <= j < size ==> eval(r.unwrap()@, #[trigger] domain_point(size, j))
                        == padded(values(trace@), j)
            },
        },
{
    interpolate(trace.len(), trace)
}

/// The points of the evaluation domain of a circuit of `n_cells` cells, in
/// order: the powers of the domain's generator from the zeroth up.
pub fn domain_elements(n_cells: usize) -> (r: Result<Vec<FieldElement>, EncodingError>)
    ensures
        match domain_size_of(n_cells as nat) {
            Err(e) => r == Err::<Vec<FieldElement>, EncodingError>(e),
            Ok(size) => {
                &&& r is Ok
                &&& r.unwrap().len() == size
                &&& size >= n_cells
                &&& forall|j: int|
                    0 <= j < size ==> (#[trigger] r.unwrap()[j])@ == domain_point(size, j)
            },
        },
{
    let size: usize = match domain_size(n_cells) {
        Err(e) => {
            return Err(e);
        },
        Ok(size) => size,
    };
    let generator = domain_generator(size);
    let mut points: Vec<FieldElement> = Vec::new();
    let mut current = FieldElement::one();
    let mut j: usize = 0;
    while j < size
        invariant
            j <= size,
            points.len() == j,
            generator@ == root_of_unity(size as nat),
            current@ == domain_point(size as nat, j as int),
            forall|i: int| 0 <= i < j ==> (#[trigger] points[i])@ == domain_point(size as nat, i),
        decreases size - j,
    {
        points.push(current);
        current = current.mul(&generator);
        j = j + 1;
    }
    Ok(points)
}

} // verus!
