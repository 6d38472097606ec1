//! Elements of the scalar field of BLS12-381, held as four 64-bit limbs in
//! canonical (fully reduced) form.

use ark_bls12_381::Fr;
use ark_ff::{BigInt, PrimeField};
use vstd::prelude::*;

verus! {

/// The order of the scalar field of BLS12-381.
pub open spec fn modulus() -> nat {
    52435875175126190479447740508185965837690552500527637822603658699938581184513nat
}

/// The number that four little-endian 64-bit limbs stand for.
pub open spec fn limbs_value(l0: u64, l1: u64, l2: u64, l3: u64) -> nat {
    (l0 as nat) + (l1 as nat) * 0x1_0000_0000_0000_0000nat + (l2 as nat)
        * 0x1_0000_0000_0000_0000_0000_0000_0000_0000nat + (l3 as nat)
        * 0x1_0000_0000_0000_0000_0000_0000_0000_0000_0000_0000_0000_0000nat
}

/// Sum of two residues.
pub open spec fn field_add(a: nat, b: nat) -> nat {
    (a + b) % modulus()
}

/// Product of two residues.
pub open spec fn field_mul(a: nat, b: nat) -> nat {
    (a * b) % modulus()
}

/// Difference of two residues.
pub open spec fn field_sub(a: nat, b: nat) -> nat {
    ((a % modulus() + modulus() - b % modulus()) % (modulus() as int)) as nat
}

/// The least significant limb of the modulus.
pub const MODULUS_L0: u64 = 0xffff_ffff_0000_0001;

/// The second limb of the modulus.
pub const MODULUS_L1: u64 = 0x53bd_a402_fffe_5bfe;

/// The third limb of the modulus.
pub const MODULUS_L2: u64 = 0x3339_d808_09a1_d805;

/// The most significant limb of the modulus.
pub const MODULUS_L3: u64 = 0x73ed_a753_299d_7d48;

/// The four limbs spell the modulus.
pub proof fn lemma_modulus_limbs()
    ensures
        limbs_value(MODULUS_L0, MODULUS_L1, MODULUS_L2, MODULUS_L3) == modulus(),
{
}

/// An element of the field, always fully reduced.
#[derive(Clone, Copy, Debug, PartialEq, Eq, Structural)]
pub struct FieldElement {
    pub(crate) l0: u64,
    pub(crate) l1: u64,
    pub(crate) l2: u64,
    pub(crate) l3: u64,
}

/// The values of field elements.
pub open spec fn values(s: Seq<FieldElement>) -> Seq<nat> {
    Seq::new(s.len(), |i: int| s[i]@)
}

impl View for FieldElement {
    type V = nat;

    closed spec fn view(&self) -> nat {
        limbs_value(self.l0, self.l1, self.l2, self.l3)
    }
}

impl FieldElement {
    #[verifier::type_invariant]
    spec fn reduced(&self) -> bool {
        limbs_value(self.l0, self.l1, self.l2, self.l3) < modulus()
    }

    /// The limbs of the element, least significant first.
    pub closed spec fn spec_limbs(&self) -> (u64, u64, u64, u64) {
        (self.l0, self.l1, self.l2, self.l3)
    }

    /// The view is the number that the limbs stand for.
    pub proof fn lemma_view_limbs(&self)
        ensures
            self@ == limbs_value(
                self.spec_limbs().0,
                self.spec_limbs().1,
                self.spec_limbs().2,
                self.spec_limbs().3,
            ),
    {
    }

    /// Two elements with the same value are the same element.
    pub proof fn lemma_view_injective(a: FieldElement, b: FieldElement)
        requires
            a@ == b@,
        ensures
            a == b,
    {
        let base = 0x1_0000_0000_0000_0000int;
        let ha = a.l1 as int + base * (a.l2 as int + base * (a.l3 as int));
        let hb = b.l1 as int + base * (b.l2 as int + base * (b.l3 as int));
        assert(a@ == a.l0 as int + base * ha);
        assert(b@ == b.l0 as int + base * hb);
        assert(ha == hb && a.l0 == b.l0);
        let ga = a.l2 as int + base * (a.l3 as int);
        let gb = b.l2 as int + base * (b.l3 as int);
        assert(ga == gb && a.l1 == b.l1);
        assert(a.l3 == b.l3 && a.l2 == b.l2);
    }

    /// The additive identity.
    pub fn zero() -> (r: Self)
        ensures
            r@ == 0,
    {
        FieldElement { l0: 0, l1: 0, l2: 0, l3: 0 }
    }

    /// The multiplicative identity.
    pub fn one() -> (r: Self)
        ensures
            r@ == 1,
    {
        FieldElement { l0: 1, l1: 0, l2: 0, l3: 0 }
    }

    /// The element that stands for a small integer.
    pub fn from_u64(x: u64) -> (r: Self)
        ensures
            r@ == x,
    {
        FieldElement { l0: x, l1: 0, l2: 0, l3: 0 }
    }

    /// The element with the given limbs, if they are below the modulus.
    pub fn from_limbs(l0: u64, l1: u64, l2: u64, l3: u64) -> (r: Option<Self>)
        ensures
            r is Some <==> limbs_value(l0, l1, l2, l3) < modulus(),
            r matches Some(e) ==> e@ == limbs_value(l0, l1, l2, l3) && e.spec_limbs() == (
                l0,
                l1,
                l2,
                l3,
            ),
    {
        let below = if l3 != MODULUS_L3 {
            l3 < MODULUS_L3
        } else if l2 != MODULUS_L2 {
            l2 < MODULUS_L2
        } else if l1 != MODULUS_L1 {
            l1 < MODULUS_L1
        } else {
            l0 < MODULUS_L0
        };
        if below {
            Some(FieldElement { l0, l1, l2, l3 })
        } else {
            None
        }
    }

    /// The limbs of the element, least significant first.
    pub fn limbs(&self) -> (r: (u64, u64, u64, u64))
        ensures
            r == self.spec_limbs(),
            limbs_value(r.0, r.1, r.2, r.3) == self@,
    {
        (self.l0, self.l1, self.l2, self.l3)
    }

    /// Whether the element is the additive identity.
    pub fn is_zero(&self) -> (r: bool)
        ensures
            r == (self@ == 0),
    {
        self.l0 == 0 && self.l1 == 0 && self.l2 == 0 && self.l3 == 0
    }

    /// Every element is below the modulus.
    pub fn below_modulus(&self)
        ensures
            self@ < modulus(),
    {
        proof {
            use_type_invariant(self);
        }
    }

    /// Sum in the field.
    pub fn add(&self, rhs: &FieldElement) -> (r: FieldElement)
        ensures
            r@ == field_add(self@, rhs@),
    {
        proof {
            use_type_invariant(self);
            use_type_invariant(rhs);
        }
        fr_add(*self, *rhs)
    }

    /// Difference in the field.
    pub fn sub(&self, rhs: &FieldElement) -> (r: FieldElement)
        ensures
            r@ == field_sub(self@, rhs@),
    {
        proof {
            use_type_invariant(self);
            use_type_invariant(rhs);
        }
        fr_sub(*self, *rhs)
    }

    /// Product in the field.
    pub fn mul(&self, rhs: &FieldElement) -> (r: FieldElement)
        ensures
            r@ == field_mul(self@, rhs@),
    {
        proof {
            use_type_invariant(self);
            use_type_invariant(rhs);
        }
        fr_mul(*self, *rhs)
    }
}

/// `Fr`'s addition: the operands are turned into `Fr` with
/// `PrimeField::from_bigint`, added with `+`, and the sum is read back with
/// `PrimeField::into_bigint`. Claimed: the result is the reduced sum of the
/// two residues modulo the order of the field.
#[verifier::external_body]
fn fr_add(a: FieldElement, b: FieldElement) -> (r: FieldElement)
    requires
        a@ < modulus(),
        b@ < modulus(),
    ensures
        r@ == (a@ + b@) % modulus(),
        r@ < modulus(),
{
    let x = Fr::from_bigint(BigInt::new([a.l0, a.l1, a.l2, a.l3])).unwrap();
    let y = Fr::from_bigint(BigInt::new([b.l0, b.l1, b.l2, b.l3])).unwrap();
    let s = (x + y).into_bigint().0;
    FieldElement { l0: s[0], l1: s[1], l2: s[2], l3: s[3] }
}

/// `Fr`'s multiplication: the operands are turned into `Fr` with
/// `PrimeField::from_bigint`, multiplied with `*`, and the product is read
/// back with `PrimeField::into_bigint`. Claimed: the result is the reduced
/// product of the two residues modulo the order of the field.
#[verifier::external_body]
fn fr_mul(a: FieldElement, b: FieldElement) -> (r: FieldElement)
    requires
        a@ < modulus(),
        b@ < modulus(),
    ensures
        r@ == (a@ * b@) % modulus(),
        r@ < modulus(),
{
    let x = Fr::from_bigint(BigInt::new([a.l0, a.l1, a.l2, a.l3])).unwrap();
    let y = Fr::from_bigint(BigInt::new([b.l0, b.l1, b.l2, b.l3])).unwrap();
    let s = (x * y).into_bigint().0;
    FieldElement { l0: s[0], l1: s[1], l2: s[2], l3: s[3] }
}

/// `Fr`'s subtraction: the operands are turned into `Fr` with
/// `PrimeField::from_bigint`, subtracted with `-`, and the difference is
/// read back with `PrimeField::into_bigint`. Claimed: the result is the
/// reduced difference of the two residues modulo the order of the field.
#[verifier::external_body]
fn fr_sub(a: FieldElement, b: FieldElement) -> (r: FieldElement)
    requires
        a@ < modulus(),
        b@ < modulus(),
    ensures
        r@ == (a@ + modulus() - b@) % (modulus() as int),
        r@ < modulus(),
{
    let x = Fr::from_bigint(BigInt::new([a.l0, a.l1, a.l2, a.l3])).unwrap();
    let y = Fr::from_bigint(BigInt::new([b.l0, b.l1, b.l2, b.l3])).unwrap();
    let s = (x - y).into_bigint().0;
    FieldElement { l0: s[0], l1: s[1], l2: s[2], l3: s[3] }
}

} // verus!
