use barustenberg::field::{Fq, Fr, PrimeFieldElement};

const R_LIMBS: [u64; 4] = [0x43e1f593f0000001, 0x2833e84879b97091, 0xb85045b68181585d, 0x30644e72e131a029];
const Q_LIMBS: [u64; 4] = [0x3c208c16d87cfd47, 0x97816a916871ca8d, 0xb85045b68181585d, 0x30644e72e131a029];

fn minus(l: [u64; 4], v: u64) -> [u64; 4] {
    // only used with l[0] >= v
    [l[0] - v, l[1], l[2], l[3]]
}

#[test]
fn small_values_round_trip() {
    assert_eq!(Fr::from_u64(42).to_limbs(), [42, 0, 0, 0]);
    assert_eq!(Fr::zero().to_limbs(), [0, 0, 0, 0]);
    assert_eq!(Fr::one().to_limbs(), [1, 0, 0, 0]);
}

#[test]
fn from_limbs_accepts_exactly_canonical_values() {
    assert!(Fr::from_limbs(R_LIMBS).is_none());
    assert!(Fr::from_limbs([u64::MAX; 4]).is_none());
    let top = Fr::from_limbs(minus(R_LIMBS, 1)).unwrap();
    assert_eq!(top.to_limbs(), minus(R_LIMBS, 1));
    assert!(Fq::from_limbs(Q_LIMBS).is_none());
    assert_eq!(Fq::from_limbs(minus(Q_LIMBS, 1)).unwrap().to_limbs(), minus(Q_LIMBS, 1));
}

#[test]
fn addition_wraps_at_the_modulus() {
    let top = Fr::from_limbs(minus(R_LIMBS, 1)).unwrap();
    assert_eq!(top.add(&Fr::from_u64(3)).to_limbs(), [2, 0, 0, 0]);
    assert_eq!(Fr::from_u64(5).add(&Fr::from_u64(7)).to_limbs(), [12, 0, 0, 0]);
}

#[test]
fn subtraction_wraps_below_zero() {
    assert_eq!(Fr::zero().sub(&Fr::one()).to_limbs(), minus(R_LIMBS, 1));
    assert_eq!(Fr::from_u64(10).sub(&Fr::from_u64(4)).to_limbs(), [6, 0, 0, 0]);
}

#[test]
fn multiplication_reduces() {
    assert_eq!(Fr::from_u64(6).mul(&Fr::from_u64(7)).to_limbs(), [42, 0, 0, 0]);
    let minus_one = Fr::zero().sub(&Fr::one());
    assert_eq!(minus_one.mul(&minus_one).to_limbs(), [1, 0, 0, 0]);
    assert_eq!(Fr::from_u64(1 << 40).mul(&Fr::from_u64(1 << 40)).to_limbs(), [0, 1 << 16, 0, 0]);
}

#[test]
fn inverse_of_nonzero_and_of_zero() {
    assert!(Fr::zero().inverse().is_none());
    let two = Fr::from_u64(2);
    let inv = two.inverse().unwrap();
    assert_eq!(two.mul(&inv).to_limbs(), [1, 0, 0, 0]);
    assert_ne!(inv.to_limbs(), two.to_limbs());
}

#[test]
fn is_zero_only_for_zero() {
    assert!(Fr::zero().is_zero());
    assert!(!Fr::one().is_zero());
    assert!(Fr::one().sub(&Fr::one()).is_zero());
}

#[test]
fn base_field_reduction_of_wide_integers() {
    assert_eq!(Fq::from_limbs_mod_order(Q_LIMBS).to_limbs(), [0, 0, 0, 0]);
    let q_plus_5 = [Q_LIMBS[0] + 5, Q_LIMBS[1], Q_LIMBS[2], Q_LIMBS[3]];
    assert_eq!(Fq::from_limbs_mod_order(q_plus_5).to_limbs(), [5, 0, 0, 0]);
    assert_eq!(Fq::from_limbs_mod_order([9, 0, 0, 0]).to_limbs(), [9, 0, 0, 0]);
    assert_eq!(Fq::from_u64(3).to_limbs(), [3, 0, 0, 0]);
    assert_eq!(Fq::zero().to_limbs(), [0, 0, 0, 0]);
}

#[test]
fn base_field_arithmetic() {
    let q_minus_1 = Fq::from_limbs(minus(Q_LIMBS, 1)).unwrap();
    assert_eq!(q_minus_1.add(&Fq::from_u64(2)).to_limbs(), [1, 0, 0, 0]);
    assert_eq!(Fq::zero().sub(&Fq::one()).to_limbs(), minus(Q_LIMBS, 1));
    assert_eq!(Fq::from_u64(6).mul(&Fq::from_u64(7)).to_limbs(), [42, 0, 0, 0]);
    assert!(Fq::zero().inverse().is_none());
    let three = Fq::from_u64(3);
    assert_eq!(three.mul(&three.inverse().unwrap()).to_limbs(), [1, 0, 0, 0]);
    assert!(Fq::zero().is_zero() && !Fq::one().is_zero());
}
