use barustenberg::field::{Fq, Fr, PrimeFieldElement};
use barustenberg::interpolation::{evaluate, PolynomialError};
use barustenberg::polynomial::Polynomial;

fn fr(v: u64) -> Fr {
    Fr::from_u64(v)
}

fn poly(coeffs: &[u64]) -> Polynomial<Fr> {
    let mut p = Polynomial::<Fr>::new(coeffs.len());
    for (i, c) in coeffs.iter().enumerate() {
        p.set_coefficient(i, fr(*c));
    }
    p
}

fn values(p: &Polynomial<Fr>) -> Vec<u64> {
    p.coefficients().iter().map(|c| c.to_limbs()[0]).collect()
}

#[test]
fn new_is_all_zero() {
    let p = Polynomial::<Fr>::new(4);
    assert_eq!(p.size(), 4);
    assert_eq!(values(&p), vec![0, 0, 0, 0]);
    let e = Polynomial::<Fr>::new(0);
    assert_eq!(e.size(), 0);
    assert!(e.coefficients().is_empty());
}

#[test]
fn default_is_empty() {
    let p = Polynomial::<Fr>::default();
    assert_eq!(p.size(), 0);
    assert!(p.coefficients().is_empty());
}

#[test]
fn set_coefficient_and_index() {
    let mut p = Polynomial::<Fr>::new(3);
    p.set_coefficient(1, fr(9));
    assert_eq!(values(&p), vec![0, 9, 0]);
    assert_eq!(*p.index(1), fr(9));
    *p.index_mut(2) = fr(4);
    assert_eq!(values(&p), vec![0, 9, 4]);
    assert_eq!(p.size(), 3);
}

#[test]
fn index_ranges() {
    let p = poly(&[1, 2, 3, 4]);
    let mid: Vec<u64> = p.index_range(1, 3).iter().map(|c| c.to_limbs()[0]).collect();
    assert_eq!(mid, vec![2, 3]);
    let tail: Vec<u64> = p.index_from(2).iter().map(|c| c.to_limbs()[0]).collect();
    assert_eq!(tail, vec![3, 4]);
}

#[test]
fn index_range_mut_writes_in_place() {
    let mut p = poly(&[1, 2, 3, 4]);
    {
        let s = p.index_range_mut(1, 3);
        assert_eq!(s.len(), 2);
        s[0] = fr(20);
        s[1] = fr(30);
    }
    assert_eq!(values(&p), vec![1, 20, 30, 4]);
    assert_eq!(p.size(), 4);
}

#[test]
fn resize_grows_and_shrinks_the_polynomial() {
    let mut p = poly(&[1, 2]);
    p.resize(4, fr(7));
    assert_eq!(values(&p), vec![1, 2, 7, 7]);
    assert_eq!(p.size(), 4);
    p.resize(1, fr(0));
    assert_eq!(values(&p), vec![1]);
    assert_eq!(p.size(), 1);
}

#[test]
fn add_assign_same_size() {
    let mut a = poly(&[1, 2, 3]);
    a.add_assign(poly(&[10, 20, 30]));
    assert_eq!(values(&a), vec![11, 22, 33]);
    assert_eq!(a.size(), 3);
}

#[test]
fn add_assign_extends_a_shorter_left_side() {
    let mut a = poly(&[1]);
    a.add_assign(poly(&[2, 3]));
    assert_eq!(values(&a), vec![3, 3]);
    assert_eq!(a.size(), 2);
}

#[test]
fn add_assign_leaves_higher_terms_of_a_longer_left_side() {
    let mut a = poly(&[1, 2, 3, 4]);
    a.add_assign(poly(&[5, 5]));
    assert_eq!(values(&a), vec![6, 7, 3, 4]);
    assert_eq!(a.size(), 4);
}

#[test]
fn add_assign_after_shrinking() {
    let mut p = Polynomial::<Fr>::new(3);
    p.resize(1, Fr::zero());
    p.add_assign(Polynomial::<Fr>::new(2));
    assert_eq!(values(&p), vec![0, 0]);
    assert_eq!(p.size(), 2);
}

#[test]
fn sub_assign_wraps_and_extends() {
    let mut a = poly(&[5]);
    a.sub_assign(poly(&[2, 3]));
    let minus_three = Fr::zero().sub(&fr(3));
    assert_eq!(a.coefficients(), &vec![fr(3), minus_three]);
    assert_eq!(a.size(), 2);
}

#[test]
fn add_then_sub_gives_the_polynomial_back() {
    let mut a = poly(&[4, 5, 6]);
    let b = poly(&[100, 200, 300]);
    a.add_assign(b.clone());
    a.sub_assign(b);
    assert_eq!(values(&a), vec![4, 5, 6]);
    assert_eq!(a, poly(&[4, 5, 6]));
}

#[test]
fn add_then_sub_wraps_around_the_modulus() {
    let minus_one = Fr::zero().sub(&fr(1));
    let mut a = Polynomial::<Fr>::new(2);
    a.set_coefficient(0, minus_one);
    a.set_coefficient(1, fr(7));
    let original = a.clone();
    let mut b = Polynomial::<Fr>::new(2);
    b.set_coefficient(0, fr(2));
    b.set_coefficient(1, minus_one);
    a.add_assign(b.clone());
    assert_eq!(a.coefficients(), &vec![fr(1), fr(6)]);
    a.sub_assign(b);
    assert_eq!(a, original);
}

#[test]
fn add_then_sub_with_a_longer_right_side_pads_with_zeros() {
    let mut a = poly(&[4]);
    let b = poly(&[1, 1, 1]);
    a.add_assign(b.clone());
    a.sub_assign(b);
    assert_eq!(values(&a), vec![4, 0, 0]);
    assert_eq!(a.size(), 3);
}

#[test]
fn mul_assign_scales_every_term() {
    let mut a = poly(&[1, 2, 3]);
    a.mul_assign(fr(5));
    assert_eq!(values(&a), vec![5, 10, 15]);
}

#[test]
fn mul_assign_after_an_extending_addition() {
    let mut p = poly(&[1]);
    p.add_assign(poly(&[2, 3]));
    p.mul_assign(fr(2));
    assert_eq!(values(&p), vec![6, 6]);
}

#[test]
fn into_iter_yields_the_coefficients() {
    let a = poly(&[7, 8, 9]);
    let v: Vec<u64> = a.into_iter().map(|c| c.to_limbs()[0]).collect();
    assert_eq!(v, vec![7, 8, 9]);
}

#[test]
fn clone_keeps_the_coefficients() {
    let a = poly(&[7, 8]);
    let b = a.clone();
    assert_eq!(a, b);
    assert_eq!(b.size(), 2);
}

#[test]
fn evaluate_uses_lowest_degree_first() {
    // 3 + 2x + x^2 at x = 5 is 38
    let coeffs = vec![fr(3), fr(2), fr(1)];
    assert_eq!(evaluate(&coeffs, &fr(5)), fr(38));
    assert_eq!(evaluate(&Vec::<Fr>::new(), &fr(5)), fr(0));
}

#[test]
fn add_sub_and_scale_act_on_values() {
    let a = poly(&[1, 2, 3]);
    let b = poly(&[4, 6]);
    let t = fr(7);
    let va = evaluate(a.coefficients(), &t);
    let vb = evaluate(b.coefficients(), &t);
    let mut sum = a.clone();
    sum.add_assign(b.clone());
    assert_eq!(evaluate(sum.coefficients(), &t), va.add(&vb));
    let mut diff = a.clone();
    diff.sub_assign(b);
    assert_eq!(evaluate(diff.coefficients(), &t), va.sub(&vb));
    let mut scaled = a;
    scaled.mul_assign(fr(9));
    assert_eq!(evaluate(scaled.coefficients(), &t), va.mul(&fr(9)));
}

#[test]
fn interpolation_passes_through_the_points() {
    let xs = vec![fr(1), fr(2), fr(3)];
    let ys = vec![fr(6), fr(11), fr(18)];
    let p = Polynomial::from_interpolations(&xs, &ys).unwrap();
    assert_eq!(p.size(), 3);
    // x^2 + 2x + 3
    assert_eq!(values(&p), vec![3, 2, 1]);
    for i in 0..3 {
        assert_eq!(evaluate(p.coefficients(), &xs[i]), ys[i]);
    }
}

#[test]
fn interpolation_ignores_the_order_of_the_points() {
    let p = Polynomial::from_interpolations(&[fr(1), fr(2), fr(3)], &[fr(6), fr(11), fr(18)]).unwrap();
    let q = Polynomial::from_interpolations(&[fr(3), fr(1), fr(2)], &[fr(18), fr(6), fr(11)]).unwrap();
    assert_eq!(p, q);
}

#[test]
fn interpolation_is_linear_in_the_values() {
    let xs = [fr(1), fr(4), fr(9)];
    let p1 = Polynomial::from_interpolations(&xs, &[fr(2), fr(7), fr(1)]).unwrap();
    let p2 = Polynomial::from_interpolations(&xs, &[fr(5), fr(0), fr(3)]).unwrap();
    // ys1 + 3 * ys2
    let p3 = Polynomial::from_interpolations(&xs, &[fr(17), fr(7), fr(10)]).unwrap();
    let mut expect = p2.clone();
    expect.mul_assign(fr(3));
    expect.add_assign(p1);
    assert_eq!(p3, expect);
}

#[test]
fn interpolation_of_a_single_point_is_constant() {
    let p = Polynomial::from_interpolations(&[fr(9)], &[fr(4)]).unwrap();
    assert_eq!(values(&p), vec![4]);
}

#[test]
fn interpolation_with_a_large_point() {
    let minus_one = Fr::zero().sub(&fr(1));
    let xs = vec![minus_one, fr(0), fr(1), fr(2)];
    let ys = vec![fr(5), fr(1), fr(2), fr(3)];
    let p = Polynomial::from_interpolations(&xs, &ys).unwrap();
    for i in 0..4 {
        assert_eq!(evaluate(p.coefficients(), &xs[i]), ys[i]);
    }
}

#[test]
fn interpolation_rejects_repeated_points() {
    let xs = vec![fr(1), fr(2), fr(1)];
    let ys = vec![fr(1), fr(2), fr(3)];
    assert_eq!(Polynomial::from_interpolations(&xs, &ys), Err(PolynomialError::RepeatedInterpolationPoint));
}

#[test]
fn polynomials_over_the_base_field() {
    let xs = vec![Fq::from_u64(2), Fq::from_u64(5)];
    let ys = vec![Fq::from_u64(1), Fq::from_u64(10)];
    let p = Polynomial::from_interpolations(&xs, &ys).unwrap();
    // 3x - 5
    assert_eq!(p.coefficients()[1], Fq::from_u64(3));
    assert_eq!(p.coefficients()[0], Fq::zero().sub(&Fq::from_u64(5)));
    assert_eq!(evaluate(p.coefficients(), &Fq::from_u64(7)), Fq::from_u64(16));
}

#[test]
fn addition_commutes() {
    let a = poly(&[1, 2, 3]);
    let b = poly(&[9, 8]);
    let mut x = a.clone();
    x.add_assign(b.clone());
    let mut y = b.clone();
    y.add_assign(a.clone());
    assert_eq!(x, y);
}

#[test]
fn subtracting_itself_gives_zeros() {
    let mut p = poly(&[4, 5, 6]);
    let q = p.clone();
    p.sub_assign(q);
    assert_eq!(values(&p), vec![0, 0, 0]);
    assert_eq!(p.coefficients(), &vec![Fr::zero(); 3]);
    assert_eq!(p.size(), 3);
}

#[test]
fn scaling_twice_is_scaling_by_the_product() {
    let p = poly(&[4, 5, 6]);
    let mut x = p.clone();
    x.mul_assign(fr(3));
    x.mul_assign(fr(7));
    let mut y = p.clone();
    y.mul_assign(fr(3).mul(&fr(7)));
    assert_eq!(x, y);
}

#[test]
fn scaling_distributes_over_addition() {
    let p = poly(&[4, 5, 6]);
    let q = poly(&[1, 2]);
    let mut x = p.clone();
    x.add_assign(q.clone());
    x.mul_assign(fr(11));
    let mut y = p.clone();
    y.mul_assign(fr(11));
    let mut z = q.clone();
    z.mul_assign(fr(11));
    y.add_assign(z);
    assert_eq!(x, y);
}
