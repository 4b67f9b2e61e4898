//! Points of the BN254 group G1 in affine coordinates, as the verifier
//! reads them from a proof.

use vstd::prelude::*;
use ark_ff::{BigInt, PrimeField};
use crate::field::{Fq, PrimeFieldElement, fq_modulus, limbs_val};

verus! {

/// An affine point of G1: coordinates over the base field, or the point at
/// infinity.
#[derive(Clone, Copy, Debug, PartialEq, Eq, Structural)]
pub struct G1Point {
    pub x: Fq,
    pub y: Fq,
    pub infinity: bool,
}

/// Whether `p` satisfies the BN254 curve equation `y^2 = x^3 + 3` over the
/// base field; the point at infinity counts as on the curve.
pub open spec fn on_curve(p: G1Point) -> bool {
    p.infinity || (p.y@ * p.y@) % fq_modulus() == (p.x@ * p.x@ * p.x@ + 3) % fq_modulus()
}

/// `ark_bn254::G1Affine::is_on_curve` for the point with the given
/// coordinates and infinity flag: true for the point at infinity, and
/// otherwise whether `y^2 = x^3 + 3` modulo `q`.
#[verifier::external_body]
fn ark_g1_is_on_curve(x: [u64; 4], y: [u64; 4], infinity: bool) -> (b: bool)
    requires
        limbs_val(x) < fq_modulus(),
        limbs_val(y) < fq_modulus(),
    ensures
        b == (infinity || (limbs_val(y) * limbs_val(y)) % fq_modulus() == (limbs_val(x)
            * limbs_val(x) * limbs_val(x) + 3) % fq_modulus()),
{
    let p = ark_bn254::G1Affine {
        x: ark_bn254::Fq::from_bigint(BigInt(x)).unwrap(),
        y: ark_bn254::Fq::from_bigint(BigInt(y)).unwrap(),
        infinity,
    };
    p.is_on_curve()
}

impl G1Point {
    /// The point at infinity, with zero coordinates.
    pub fn identity() -> (p: G1Point)
        ensures
            p.infinity,
            p.x@ == 0,
            p.y@ == 0,
    {
        G1Point { x: Fq::zero(), y: Fq::zero(), infinity: true }
    }

    /// Whether the point lies on the curve.
    pub fn is_on_curve(&self) -> (b: bool)
        ensures
            b == on_curve(*self),
            b == (self.infinity || (self.y@ * self.y@) % fq_modulus() == (self.x@ * self.x@ * self.x@ + 3)
                % fq_modulus()),
    {
        let x = self.x.to_limbs();
        let y = self.y.to_limbs();
        proof {
            Fq::lemma_bound(self.x);
            Fq::lemma_bound(self.y);
        }
        ark_g1_is_on_curve(x, y, self.infinity)
    }

    /// Whether this is the point at infinity.
    pub fn is_point_at_infinity(&self) -> (b: bool)
        ensures
            b == self.infinity,
    {
        self.infinity
    }
}

/// The curve test is the BN254 equation `y^2 = x^3 + 3` modulo `q`: a
/// point other than infinity passes exactly when its coordinates satisfy
/// it, and the point at infinity always passes.
pub proof fn lemma_on_curve_is_curve_equation(p: G1Point)
    ensures
        !p.infinity ==> (on_curve(p) <==> (p.y@ * p.y@) % fq_modulus() == (p.x@ * p.x@ * p.x@ + 3)
            % fq_modulus()),
        p.infinity ==> on_curve(p),
{
}

/// The generator `G = (1, 2)` and its double `2G` satisfy the curve
/// equation, so any point with these coordinates passes the curve test.
pub proof fn lemma_generator_and_double_on_curve(p: G1Point)
    ensures
        p.x@ == 1 && p.y@ == 2 ==> on_curve(p),
        p.x@ == 0x030644e72e131a029b85045b68181585d97816a916871ca8d3c208c16d87cfd3int
            && p.y@ == 0x15ed738c0e0a7c92e7845f96b2ae9c0a68a6a449e3538fc7ff3ebf7a5a18a2c4int ==> on_curve(p),
{
    let q = fq_modulus();
    let x: int = 0x030644e72e131a029b85045b68181585d97816a916871ca8d3c208c16d87cfd3int;
    let y: int = 0x15ed738c0e0a7c92e7845f96b2ae9c0a68a6a449e3538fc7ff3ebf7a5a18a2c4int;
    assert((y * y) % q == (x * x * x + 3) % q);
    assert((2int * 2) % q == (1int * 1 * 1 + 3) % q);
}

} // verus!
