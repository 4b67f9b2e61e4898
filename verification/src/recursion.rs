//! Reading the commitments of an inner (recursive) proof back from the
//! public inputs of the outer proof. Each base-field coordinate is carried
//! as four limbs of `NUM_LIMB_BITS_IN_FIELD_SIMULATION` bits in four public
//! inputs; the coordinate is their sum with the limbs shifted into place, in
//! 256-bit unsigned arithmetic, reduced into the base field.

use vstd::prelude::*;
use vstd::arithmetic::power2::pow2;
use vstd::arithmetic::div_mod::{lemma_add_mod_noop_right, lemma_small_mod};
use ark_ff::{BigInt, BigInteger};
use crate::field::{Fr, Fq, fq_modulus, limbs_val};
use crate::curve::G1Point;

verus! {

/// The number of bits in each limb of a base-field element simulated in
/// the scalar field.
pub const NUM_LIMB_BITS_IN_FIELD_SIMULATION: u32 = 68;

/// `2^256`, the modulus of 256-bit unsigned arithmetic.
pub open spec fn two_pow_256() -> int {
    0x1_0000_0000_0000_0000_0000_0000_0000_0000_0000_0000_0000_0000_0000_0000_0000_0000int
}

/// Four 64-bit limbs stand for an integer below `2^256`.
pub proof fn lemma_limbs_val_bound(l: [u64; 4])
    ensures
        0 <= limbs_val(l) < two_pow_256(),
{
}

/// `ark_ff::BigInt::<4>::muln`: the integer shifted left by `n` bits, the
/// bits above 256 dropped.
#[verifier::external_body]
fn ark_bigint_muln(a: [u64; 4], n: u32) -> (r: [u64; 4])
    ensures
        limbs_val(r) == (limbs_val(a) * pow2(n as nat)) % two_pow_256(),
{
    let mut b = BigInt(a);
    b.muln(n);
    b.0
}

/// `ark_ff::BigInt::<4>::add_with_carry`: the 256-bit sum and whether it
/// carried out.
#[verifier::external_body]
fn ark_bigint_add_with_carry(a: [u64; 4], b: [u64; 4]) -> (r: ([u64; 4], bool))
    ensures
        limbs_val(r.0) + (if r.1 { two_pow_256() } else { 0 }) == limbs_val(a) + limbs_val(b),
{
    let mut x = BigInt(a);
    let carry = x.add_with_carry(&BigInt(b));
    (x.0, carry)
}

/// The 256-bit sum `a + b`, wrapping.
fn add_wrapping(a: [u64; 4], b: [u64; 4]) -> (r: [u64; 4])
    ensures
        limbs_val(r) == (limbs_val(a) + limbs_val(b)) % two_pow_256(),
{
    let (s, carry) = ark_bigint_add_with_carry(a, b);
    proof {
        lemma_limbs_val_bound(s);
        let w = two_pow_256();
        if carry {
            vstd::arithmetic::div_mod::lemma_mod_multiples_vanish(1, limbs_val(s), w);
        }
        lemma_small_mod(limbs_val(s) as nat, w as nat);
    }
    s
}

/// The base-field element that four limbs of a simulated field element
/// stand for.
pub open spec fn recovered_fq(l0: int, l1: int, l2: int, l3: int) -> int {
    ((l0 + l1 * pow2(68) + l2 * pow2(136) + l3 * pow2(204)) % two_pow_256()) % fq_modulus()
}

/// The limbs are placed 68 bits apart: the recovered element is
/// `l0 + l1 * 2^68 + l2 * 2^136 + l3 * 2^204`, taken modulo `2^256` and then
/// modulo `q`, with every limb used whole.
pub proof fn lemma_recovered_fq_places_limbs(l0: int, l1: int, l2: int, l3: int)
    ensures
        recovered_fq(l0, l1, l2, l3) == ((l0 + l1 * 0x100000000000000000int + l2 * 0x10000000000000000000000000000000000int + l3 * 0x1000000000000000000000000000000000000000000000000000int) % 0x10000000000000000000000000000000000000000000000000000000000000000int)
            % fq_modulus(),
{
    vstd::arithmetic::power2::lemma2_to64();
    vstd::arithmetic::power2::lemma_pow2_adds(64, 4);
    vstd::arithmetic::power2::lemma_pow2_adds(68, 68);
    vstd::arithmetic::power2::lemma_pow2_adds(136, 68);
    let a = pow2(68);
    let b = pow2(136);
    assert(a == 0x100000000000000000int);
    assert(b == 0x10000000000000000000000000000000000int) by (nonlinear_arith)
        requires
            a == 0x100000000000000000int,
            b == a * a,
    ;
    assert(pow2(204) == 0x1000000000000000000000000000000000000000000000000000int) by (nonlinear_arith)
        requires
            a == 0x100000000000000000int,
            b == 0x10000000000000000000000000000000000int,
            pow2(204) == b * a,
    ;
}

/// Recovers a base-field element from the public inputs at the four given
/// indices, least significant limb first.
pub fn recover_fq_from_public_inputs(inputs: &[Fr], idx0: usize, idx1: usize, idx2: usize, idx3: usize) -> (r: Fq)
    requires
        idx0 < inputs.len(),
        idx1 < inputs.len(),
        idx2 < inputs.len(),
        idx3 < inputs.len(),
    ensures
        r@ == recovered_fq(inputs@[idx0 as int]@, inputs@[idx1 as int]@, inputs@[idx2 as int]@, inputs@[idx3 as int]@),
        r@ == ((inputs@[idx0 as int]@ + inputs@[idx1 as int]@ * 0x100000000000000000int + inputs@[idx2 as int]@ * 0x10000000000000000000000000000000000int
            + inputs@[idx3 as int]@ * 0x1000000000000000000000000000000000000000000000000000int) % 0x10000000000000000000000000000000000000000000000000000000000000000int) % fq_modulus(),
{
    let l0 = inputs[idx0].to_limbs();
    let l1 = inputs[idx1].to_limbs();
    let l2 = inputs[idx2].to_limbs();
    let l3 = inputs[idx3].to_limbs();
    let t1 = ark_bigint_muln(l1, NUM_LIMB_BITS_IN_FIELD_SIMULATION);
    let t2 = ark_bigint_muln(l2, NUM_LIMB_BITS_IN_FIELD_SIMULATION * 2);
    let t3 = ark_bigint_muln(l3, NUM_LIMB_BITS_IN_FIELD_SIMULATION * 3);
    let s1 = add_wrapping(l0, t1);
    let s2 = add_wrapping(s1, t2);
    let limb = add_wrapping(s2, t3);
    proof {
        let w = two_pow_256();
        let a = limbs_val(l0);
        let b = limbs_val(l1) * pow2(68);
        let c = limbs_val(l2) * pow2(136);
        let d = limbs_val(l3) * pow2(204);
        lemma_add_mod_noop_right(a, b, w);
        vstd::arithmetic::div_mod::lemma_add_mod_noop(a + b, c, w);
        vstd::arithmetic::div_mod::lemma_add_mod_noop(a + b + c, d, w);
        vstd::arithmetic::div_mod::lemma_mod_twice(a + b, w);
        vstd::arithmetic::div_mod::lemma_mod_twice(a + b + c, w);
        lemma_add_mod_noop_right(limbs_val(s1), c, w);
        lemma_add_mod_noop_right(limbs_val(s2), d, w);
        lemma_recovered_fq_places_limbs(limbs_val(l0), limbs_val(l1), limbs_val(l2), limbs_val(l3));
    }
    Fq::from_limbs_mod_order(limb)
}

/// The two points of an inner proof's pairing check, read from the public
/// inputs at the sixteen given indices: the coordinates `x0, y0, x1, y1`,
/// four limbs each, in that order.
pub fn recover_recursion_points(inputs: &[Fr], recursive_proof_indices: &[usize]) -> (r: (G1Point, G1Point))
    requires
        recursive_proof_indices.len() == 16,
        forall|i: int| 0 <= i < 16 ==> #[trigger] recursive_proof_indices@[i] < inputs.len(),
    ensures
        !r.0.infinity,
        !r.1.infinity,
        r.0.x@ == recovered_limbs(inputs@, recursive_proof_indices@, 0),
        r.0.y@ == recovered_limbs(inputs@, recursive_proof_indices@, 4),
        r.1.x@ == recovered_limbs(inputs@, recursive_proof_indices@, 8),
        r.1.y@ == recovered_limbs(inputs@, recursive_proof_indices@, 12),
        r.0.x@ == recovered_fq(
            inputs@[recursive_proof_indices@[0] as int]@,
            inputs@[recursive_proof_indices@[1] as int]@,
            inputs@[recursive_proof_indices@[2] as int]@,
            inputs@[recursive_proof_indices@[3] as int]@,
        ),
        r.0.y@ == recovered_fq(
            inputs@[recursive_proof_indices@[4] as int]@,
            inputs@[recursive_proof_indices@[5] as int]@,
            inputs@[recursive_proof_indices@[6] as int]@,
            inputs@[recursive_proof_indices@[7] as int]@,
        ),
        r.1.x@ == recovered_fq(
            inputs@[recursive_proof_indices@[8] as int]@,
            inputs@[recursive_proof_indices@[9] as int]@,
            inputs@[recursive_proof_indices@[10] as int]@,
            inputs@[recursive_proof_indices@[11] as int]@,
        ),
        r.1.y@ == recovered_fq(
            inputs@[recursive_proof_indices@[12] as int]@,
            inputs@[recursive_proof_indices@[13] as int]@,
            inputs@[recursive_proof_indices@[14] as int]@,
            inputs@[recursive_proof_indices@[15] as int]@,
        ),
{
    let idx = recursive_proof_indices;
    proof {
        assert(idx@[0] < inputs.len() && idx@[1] < inputs.len() && idx@[2] < inputs.len() && idx@[3] < inputs.len());
        assert(idx@[4] < inputs.len() && idx@[5] < inputs.len() && idx@[6] < inputs.len() && idx@[7] < inputs.len());
        assert(idx@[8] < inputs.len() && idx@[9] < inputs.len() && idx@[10] < inputs.len() && idx@[11] < inputs.len());
        assert(idx@[12] < inputs.len() && idx@[13] < inputs.len() && idx@[14] < inputs.len() && idx@[15] < inputs.len());
    }
    let x0 = recover_fq_from_public_inputs(inputs, idx[0], idx[1], idx[2], idx[3]);
    let y0 = recover_fq_from_public_inputs(inputs, idx[4], idx[5], idx[6], idx[7]);
    let x1 = recover_fq_from_public_inputs(inputs, idx[8], idx[9], idx[10], idx[11]);
    let y1 = recover_fq_from_public_inputs(inputs, idx[12], idx[13], idx[14], idx[15]);
    (G1Point { x: x0, y: y0, infinity: false }, G1Point { x: x1, y: y1, infinity: false })
}

/// The base-field element carried by the public inputs at
/// `indices[start..start + 4]`.
pub open spec fn recovered_limbs(inputs: Seq<Fr>, indices: Seq<usize>, start: int) -> int {
    recovered_fq(
        inputs[indices[start] as int]@,
        inputs[indices[start + 1] as int]@,
        inputs[indices[start + 2] as int]@,
        inputs[indices[start + 3] as int]@,
    )
}

/// Recovery reads the public inputs at the given indices and no others:
/// the element is `recovered_fq` of the four inputs at
/// `indices[start..start + 4]`, whatever the number of inputs.
pub proof fn lemma_recovered_limbs_reads_indices(inputs: Seq<Fr>, indices: Seq<usize>, start: int)
    ensures
        recovered_limbs(inputs, indices, start) == recovered_fq(
            inputs[indices[start] as int]@,
            inputs[indices[start + 1] as int]@,
            inputs[indices[start + 2] as int]@,
            inputs[indices[start + 3] as int]@,
        ),
{
}

/// Two lists of public inputs that agree at the given indices carry the
/// same element there, however they differ elsewhere.
pub proof fn lemma_recovered_limbs_depends_only_on_indices(
    a: Seq<Fr>,
    b: Seq<Fr>,
    indices: Seq<usize>,
    start: int,
)
    requires
        forall|j: int| start <= j < start + 4 ==> #[trigger] a[indices[j] as int] == b[indices[j] as int],
    ensures
        recovered_limbs(a, indices, start) == recovered_limbs(b, indices, start),
{
    assert(a[indices[start] as int] == b[indices[start] as int]);
    assert(a[indices[start + 1] as int] == b[indices[start + 1] as int]);
    assert(a[indices[start + 2] as int] == b[indices[start + 2] as int]);
    assert(a[indices[start + 3] as int] == b[indices[start + 3] as int]);
}

} // verus!
