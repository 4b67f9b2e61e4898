use std::collections::HashMap;
use std::sync::Arc;

use barustenberg::curve::G1Point;
use barustenberg::field::{Fq, Fr};
use barustenberg::plonk_verifier::{
    check_before_pairing, check_opening_proof_points, collect_scalar_multiplication_inputs,
    resize_for_pippenger_table,
    VerifierBase,
};
use barustenberg::recursion::{recover_fq_from_public_inputs, recover_recursion_points};

fn point(x: u64, y: u64) -> G1Point {
    G1Point { x: Fq::from_u64(x), y: Fq::from_u64(y), infinity: false }
}

// The generator of G1 is (1, 2): 2^2 = 1^3 + 3.
fn generator() -> G1Point {
    point(1, 2)
}

#[test]
fn generator_is_on_the_curve() {
    assert!(generator().is_on_curve());
    assert!(!point(1, 3).is_on_curve());
    assert!(G1Point::identity().is_on_curve());
    assert!(G1Point::identity().is_point_at_infinity());
    assert!(!generator().is_point_at_infinity());
}

#[test]
fn valid_opening_points_pass() {
    assert_eq!(check_opening_proof_points(&generator(), &generator()), Ok(()));
}

#[test]
fn invalid_pi_z_is_reported_first() {
    assert_eq!(
        check_opening_proof_points(&point(1, 3), &point(1, 3)),
        Err("opening proof group element PI_Z not a valid point")
    );
    assert_eq!(
        check_opening_proof_points(&G1Point::identity(), &generator()),
        Err("opening proof group element PI_Z not a valid point")
    );
}

#[test]
fn invalid_pi_z_omega_is_reported() {
    assert_eq!(
        check_opening_proof_points(&generator(), &point(2, 2)),
        Err("opening proof group element PI_Z_OMEGA not a valid point")
    );
    assert_eq!(
        check_opening_proof_points(&generator(), &G1Point::identity()),
        Err("opening proof group element PI_Z_OMEGA not a valid point")
    );
}

#[test]
fn scalar_multiplication_inputs_keep_valid_keyed_points() {
    let mut g1 = HashMap::new();
    g1.insert(1u64, generator());
    g1.insert(2u64, point(1, 3));
    g1.insert(3u64, G1Point::identity());
    g1.insert(4u64, generator());
    g1.insert(5u64, generator());
    let mut fr = HashMap::new();
    fr.insert(1u64, Fr::from_u64(10));
    fr.insert(2u64, Fr::from_u64(20));
    fr.insert(3u64, Fr::from_u64(30));
    fr.insert(5u64, Fr::from_u64(50));
    let (scalars, elements) = collect_scalar_multiplication_inputs(&g1, &fr);
    let mut got: Vec<[u64; 4]> = scalars.iter().map(|s| s.to_limbs()).collect();
    got.sort();
    assert_eq!(got, vec![[10, 0, 0, 0], [50, 0, 0, 0]]);
    assert_eq!(elements, vec![generator(), generator()]);
}

#[test]
fn commitment_failure_comes_before_the_point_checks() {
    assert_eq!(check_before_pairing(Err("batch failed"), &point(1, 3), &point(1, 3)), Err("batch failed"));
    assert_eq!(
        check_before_pairing(Ok(()), &point(1, 3), &generator()),
        Err("opening proof group element PI_Z not a valid point")
    );
    assert_eq!(check_before_pairing(Ok(()), &generator(), &generator()), Ok(()));
}

#[test]
fn pippenger_table_room_doubles_the_points() {
    let mut elements = vec![generator(), point(1, 3)];
    resize_for_pippenger_table(&mut elements);
    assert_eq!(elements.len(), 4);
    assert_eq!(elements[0], generator());
    assert_eq!(elements[1], point(1, 3));
    assert!(elements[2].infinity && elements[3].infinity);
    let mut empty: Vec<G1Point> = Vec::new();
    resize_for_pippenger_table(&mut empty);
    assert!(empty.is_empty());
}

#[test]
fn from_other_shares_the_key() {
    let key = Arc::new(7u32);
    let v = VerifierBase::new(vec![1u8, 2, 3], key.clone(), Some(5u8));
    let w = VerifierBase::from_other(&v);
    assert_eq!(Arc::strong_count(&key), 3);
    drop(w);
    assert_eq!(Arc::strong_count(&key), 2);
}

#[test]
fn recovered_limbs_are_shifted_into_place() {
    // 1 + 1 * 2^68 + 2 * 2^136 + 3 * 2^204
    let inputs = vec![Fr::from_u64(1), Fr::from_u64(1), Fr::from_u64(2), Fr::from_u64(3)];
    let x = recover_fq_from_public_inputs(&inputs, 0, 1, 2, 3);
    assert_eq!(x.to_limbs(), [1, 1 << 4, 2 << 8, 3 << 12]);
}

#[test]
fn recovered_limbs_use_the_given_indices() {
    let inputs = vec![Fr::from_u64(9), Fr::from_u64(4), Fr::from_u64(0), Fr::from_u64(0)];
    let x = recover_fq_from_public_inputs(&inputs, 1, 2, 3, 0);
    // 4 + 0 + 0 + 9 * 2^204
    assert_eq!(x.to_limbs(), [4, 0, 0, 9 << 12]);
}

#[test]
fn recovered_limbs_wrap_at_256_bits() {
    // 2^52 * 2^204 = 2^256 wraps to zero
    let inputs = vec![Fr::from_u64(5), Fr::from_u64(1 << 52)];
    let x = recover_fq_from_public_inputs(&inputs, 0, 0, 0, 1);
    // 5 + 5 * 2^68 + 5 * 2^136
    assert_eq!(x.to_limbs(), [5, 5 << 4, 5 << 8, 0]);
}

#[test]
fn recovered_limbs_reduce_into_the_base_field() {
    // 2^51 * 2^204 = 2^255, above q; q = 0x30644e72e131a029... so 2^255 mod q = 2^255 - 2q
    let inputs = vec![Fr::from_u64(0), Fr::from_u64(1 << 51)];
    let x = recover_fq_from_public_inputs(&inputs, 0, 0, 0, 1);
    let q = [0x3c208c16d87cfd47u64, 0x97816a916871ca8d, 0xb85045b68181585d, 0x30644e72e131a029];
    // 2q fits in 256 bits; compute 2^255 - 2q limb-wise
    let mut two_q = [0u64; 4];
    let mut carry = 0u64;
    for i in 0..4 {
        two_q[i] = (q[i] << 1) | carry;
        carry = q[i] >> 63;
    }
    let top = [0u64, 0, 0, 1u64 << 63];
    let mut expect = [0u64; 4];
    let mut borrow = 0u64;
    for i in 0..4 {
        let (d1, b1) = top[i].overflowing_sub(two_q[i]);
        let (d2, b2) = d1.overflowing_sub(borrow);
        expect[i] = d2;
        borrow = (b1 || b2) as u64;
    }
    assert_eq!(borrow, 0);
    assert_eq!(x.to_limbs(), expect);
}

#[test]
fn recursion_points_read_sixteen_limbs() {
    let inputs: Vec<Fr> = (0..16u64).map(Fr::from_u64).collect();
    let indices: Vec<usize> = (0..16).collect();
    let (p0, p1) = recover_recursion_points(&inputs, &indices);
    assert!(!p0.infinity && !p1.infinity);
    assert_eq!(p0.x.to_limbs(), [0, 1 << 4, 2 << 8, 3 << 12]);
    assert_eq!(p0.y.to_limbs(), [4, 5 << 4, 6 << 8, 7 << 12]);
    assert_eq!(p1.x.to_limbs(), [8, 9 << 4, 10 << 8, 11 << 12]);
    assert_eq!(p1.y.to_limbs(), [12, 13 << 4, 14 << 8, 15 << 12]);
}
