//! Evaluation of a coefficient vector at a point, and interpolation:
//! the coefficients of the polynomial of degree below `n` that passes
//! through `n` given points.

use vstd::prelude::*;
use vstd::arithmetic::div_mod::{
    lemma_add_mod_noop_right, lemma_mul_mod_noop_left, lemma_mul_mod_noop_right, lemma_small_mod,
    lemma_sub_mod_noop_right,
};
use crate::field::PrimeFieldElement;
use crate::evaluation::{
    values_of, all_canonical, horner, poly_eval, vanishing_eval, pairwise_distinct, interpolates,
    lemma_horner_lincomb, lemma_horner_mul_linear, lemma_horner_zeros, lemma_vanishing_root,
    lemma_sub_mod_zero, lemma_interpolation_step, lemma_mod_congr_lin, difference_invertible,
    differences_invertible, lemma_vanishing_factors_invertible, lemma_interpolant_unique,
};

verus! {

/// Why a polynomial could not be built.
#[derive(Clone, Copy, Debug, PartialEq, Eq, Structural)]
pub enum PolynomialError {
    /// Two interpolation points are the same field element, so no
    /// polynomial of degree below the number of points is determined.
    RepeatedInterpolationPoint,
}

/// The value at `t` of the polynomial whose coefficients, lowest degree
/// first, are `coefficients`.
pub fn evaluate<F: PrimeFieldElement>(coefficients: &Vec<F>, t: &F) -> (r: F)
    ensures
        r.value() == poly_eval(values_of(coefficients@), t.value(), F::order()),
{
    let n = coefficients.len();
    let ghost vals = values_of(coefficients@);
    let ghost m = F::order();
    let mut acc = F::zero();
    proof {
        F::lemma_value_bound(acc);
    }
    let mut i = n;
    proof {
        assert(vals.subrange(n as int, n as int).len() == 0);
        lemma_small_mod(0, m as nat);
    }
    while i > 0
        invariant
            i <= n,
            n == coefficients.len(),
            vals == values_of(coefficients@),
            m == F::order(),
            m > 1,
            acc.value() == poly_eval(vals.subrange(i as int, n as int), t.value(), m),
        decreases i,
    {
        let ghost old_acc = acc.value();
        i -= 1;
        let prod = acc.mul(t);
        acc = prod.add(&coefficients[i]);
        proof {
            let tail = vals.subrange(i + 1, n as int);
            let cur = vals.subrange(i as int, n as int);
            assert(cur.drop_first() =~= tail);
            assert(cur[0] == vals[i as int]);
            let h = horner(tail, t.value());
            let c = vals[i as int];
            assert(horner(cur, t.value()) == c + t.value() * h);
            // acc = ((h % m) * t % m + c) % m
            lemma_mul_mod_noop_left(h, t.value(), m);
            assert(prod.value() == (h * t.value()) % m);
            lemma_add_mod_noop_right(c, h * t.value(), m);
            assert(acc.value() == (prod.value() + c) % m);
            assert(h * t.value() == t.value() * h) by (nonlinear_arith);
        }
    }
    proof {
        assert(vals.subrange(0, n as int) =~= vals);
    }
    acc
}

/// Computes into `coefficients` the `n` coefficients of the polynomial of
/// degree below `n` that takes the value `evaluations[i]` at
/// `points[i]` for every `i < n`. It fails exactly when two of the points
/// coincide.
///
/// The polynomial is built one point at a time: after `k` points, `p`
/// interpolates them and `v` is the product of `(x - points[j])` over
/// `j < k`; adding `c * v` for the right `c` takes in the next point without
/// disturbing the earlier ones.
pub fn compute_efficient_interpolation<F: PrimeFieldElement>(
    evaluations: &[F],
    coefficients: &mut Vec<F>,
    points: &[F],
    n: usize,
) -> (res: Result<(), PolynomialError>)
    requires
        n == points.len(),
        evaluations.len() >= n,
    ensures
        res is Ok <==> pairwise_distinct(values_of(points@)),
        res is Ok ==> final(coefficients).len() == n && interpolates(
            values_of(final(coefficients)@),
            values_of(points@),
            values_of(evaluations@),
            n as int,
            F::order(),
        ),
        res is Ok ==> differences_invertible(values_of(points@), F::order()),
        res is Ok ==> all_canonical(final(coefficients)@),
        res is Ok ==> forall|q: Seq<int>|
            q.len() == n && (forall|i: int| 0 <= i < n ==> 0 <= #[trigger] q[i] < F::order())
                && interpolates(q, values_of(points@), values_of(evaluations@), n as int, F::order())
                ==> q == values_of(final(coefficients)@),
        res is Err ==> final(coefficients)@ == old(coefficients)@,
{
    let ghost xs = values_of(points@);
    let ghost ys = values_of(evaluations@);
    let ghost m = F::order();
    let mut p: Vec<F> = Vec::new();
    proof {
        F::lemma_value_bound(vstd::pervasive::arbitrary());
    }
    let mut v: Vec<F> = Vec::new();
    let mut i: usize = 0;
    while i < n
        invariant
            i <= n,
            p.len() == i,
            v.len() == i,
            forall|j: int| 0 <= j < i ==> #[trigger] p@[j as int].value() == 0,
            all_canonical(p@),
            forall|j: int| 0 <= j < i ==> #[trigger] v@[j as int].value() == (if j == 0 { 1int } else { 0int }),
        decreases n - i,
    {
        p.push(F::zero());
        if i == 0 {
            v.push(F::one());
        } else {
            v.push(F::zero());
        }
        i += 1;
    }
    proof {
        lemma_small_mod(1, m as nat);
        if n > 0 {
            assert forall|t: int| #[trigger] poly_eval(values_of(v@), t, m) == vanishing_eval(xs, 0, t, m) by {
                let vv = values_of(v@);
                lemma_horner_zeros(vv.drop_first(), t);
                assert(horner(vv, t) == 1 + t * 0);
            }
        }
    }
    let mut k: usize = 0;
    while k < n
        invariant
            n == points.len(),
            evaluations.len() >= n,
            xs == values_of(points@),
            ys == values_of(evaluations@),
            m == F::order(),
            m > 1,
            k <= n,
            p.len() == n,
            v.len() == n,
            interpolates(values_of(p@), xs, ys, k as int, m),
            all_canonical(p@),
            k < n ==> forall|t: int| #[trigger] poly_eval(values_of(v@), t, m) == vanishing_eval(xs, k as int, t, m),
            forall|j: int| k < j < n ==> #[trigger] v@[j as int].value() == 0,
            forall|a: int, b: int| 0 <= a < b < k ==> xs[a] != xs[b],
            forall|a: int, b: int| 0 <= a < b < k ==> #[trigger] difference_invertible(xs, a, b, m),
        decreases n - k,
    {
        let xk = points[k];
        // d = (xk - points[0]) * ... * (xk - points[k - 1])
        let mut d = F::one();
        let mut j: usize = 0;
        while j < k
            invariant
                k < n,
                n == points.len(),
                xs == values_of(points@),
                m == F::order(),
                m > 1,
                xk == points@[k as int],
                j <= k,
                d.value() == vanishing_eval(xs, j as int, xk.value(), m),
                d.value() == 0 <==> exists|a: int| 0 <= a < j && xs[a] == xs[k as int],
            decreases k - j,
        {
            let f = xk.sub(&points[j]);
            let ghost old_d = d.value();
            d = d.mul(&f);
            proof {
                lemma_small_mod(0, m as nat);
                F::lemma_value_bound(xk);
                F::lemma_value_bound(points@[j as int]);
                lemma_sub_mod_zero(xk.value(), points@[j as int].value(), m);
                lemma_mul_mod_noop_right(old_d, xk.value() - points@[j as int].value(), m);
                if old_d == 0 {
                    assert(old_d * f.value() == 0);
                    let a = choose|a: int| 0 <= a < j && xs[a] == xs[k as int];
                    assert(0 <= a < j + 1 && xs[a] == xs[k as int]);
                }
                if f.value() == 0 {
                    assert(old_d * f.value() == 0);
                    assert(xs[j as int] == xs[k as int]);
                }
                if d.value() != 0 {
                    assert forall|a: int| 0 <= a < j + 1 implies xs[a] != xs[k as int] by {
                        if a == j {
                            assert(f.value() != 0);
                        }
                    }
                }
            }
            j += 1;
        }
        proof {
            assert(d.value() == poly_eval(values_of(v@), xk.value(), m));
        }
        let inv = match d.inverse() {
            Some(w) => w,
            None => {
                proof {
                    let a = choose|a: int| 0 <= a < k && xs[a] == xs[k as int];
                    assert(!pairwise_distinct(xs));
                }
                return Err(PolynomialError::RepeatedInterpolationPoint);
            },
        };
        proof {
            assert forall|a: int| 0 <= a < k implies #[trigger] difference_invertible(xs, a, k as int, m) by {
                lemma_vanishing_factors_invertible(xs, k as int, xk.value(), inv.value(), a, m);
            }
        }
        let pk = evaluate(&p, &xk);
        let diff = evaluations[k].sub(&pk);
        let c = diff.mul(&inv);
        // p := p + c * v
        let ghost old_p = p@;
        let mut i: usize = 0;
        while i < n
            invariant
                n == p.len(),
                n == v.len(),
                i <= n,
                m == F::order(),
                m > 1,
                old_p.len() == n,
                all_canonical(old_p),
                forall|a: int| 0 <= a < i ==> #[trigger] p@[a].is_canonical(),
                forall|a: int| 0 <= a < i ==> #[trigger] p@[a].value() == (old_p[a].value() + (c.value() * v@[a].value()) % m) % m,
                forall|a: int| i <= a < n ==> #[trigger] p@[a] == old_p[a],
            decreases n - i,
        {
            let term = c.mul(&v[i]);
            let updated = p[i].add(&term);
            p.set(i, updated);
            i += 1;
        }
        proof {
            let pv = values_of(p@);
            let ov = values_of(old_p);
            let vv = values_of(v@);
            assert forall|a: int| 0 <= a < pv.len() implies #[trigger] pv[a] % m == (ov[a] + c.value() * vv[a]) % m by {
                F::lemma_value_bound(p@[a]);
                lemma_small_mod(p@[a].value() as nat, m as nat);
                lemma_add_mod_noop_right(ov[a], c.value() * vv[a], m);
            }
            assert forall|a: int| 0 <= a <= k implies #[trigger] poly_eval(pv, xs[a], m) == ys[a] by {
                lemma_horner_lincomb(pv, ov, vv, c.value(), xs[a], m);
                if a < k {
                    lemma_vanishing_root(xs, k as int, a, m);
                    assert(poly_eval(vv, xs[a], m) == 0);
                    assert(poly_eval(ov, xs[a], m) == ys[a]);
                    lemma_mod_congr_lin(horner(ov, xs[a]), horner(ov, xs[a]), horner(vv, xs[a]), 0, c.value(), m);
                    assert(c.value() * 0 == 0);
                } else {
                    F::lemma_value_bound(evaluations@[k as int]);
                    lemma_interpolation_step(
                        horner(ov, xs[a]),
                        horner(vv, xs[a]),
                        pk.value(),
                        d.value(),
                        inv.value(),
                        ys[a],
                        c.value(),
            m,
        );
                }
            }
        }
        // v := v * (x - xk), while its degree stays below n
        if k + 1 < n {
            let mut next: Vec<F> = Vec::new();
            let mut i: usize = 0;
            while i < n
                invariant
                    n == v.len(),
                    i <= n,
                    next.len() == i,
                    m == F::order(),
                    m > 1,
                    forall|a: int| 0 <= a < i ==> #[trigger] next@[a].value() == ((if a == 0 { 0 } else { v@[a - 1].value() }) - (xk.value() * v@[a].value()) % m) % m,
                decreases n - i,
            {
                let prev = if i == 0 { F::zero() } else { v[i - 1] };
                let term = xk.mul(&v[i]);
                next.push(prev.sub(&term));
                i += 1;
            }
            proof {
                let nv = values_of(next@);
                let vv = values_of(v@);
                assert(vv.last() == 0);
                assert forall|a: int| 0 <= a < nv.len() implies #[trigger] nv[a] % m == ((if a == 0 { 0 } else { vv[a - 1] }) + (-(xk.value())) * vv[a]) % m by {
                    let pv: int = if a == 0 { 0 } else { vv[a - 1] };
                    F::lemma_value_bound(next@[a]);
                    lemma_small_mod(next@[a].value() as nat, m as nat);
                    lemma_sub_mod_noop_right(pv, xk.value() * vv[a], m);
                    assert(pv - xk.value() * vv[a] == pv + (-(xk.value())) * vv[a]) by (nonlinear_arith);
                }
                assert forall|t: int| #[trigger] poly_eval(nv, t, m) == vanishing_eval(xs, k + 1, t, m) by {
                    lemma_horner_mul_linear(nv, vv, xk.value(), t, m);
                    assert(poly_eval(vv, t, m) == vanishing_eval(xs, k as int, t, m));
                    lemma_mul_mod_noop_left(horner(vv, t), t - xs[k as int], m);
                    assert((t - xk.value()) * horner(vv, t) == horner(vv, t) * (t - xk.value())) by (nonlinear_arith);
                }
                assert forall|a: int| k + 1 < a < n implies #[trigger] next@[a].value() == 0 by {
                    assert(v@[a].value() == 0);
                    assert(v@[a - 1].value() == 0);
                    assert(xk.value() * 0 == 0);
                    lemma_small_mod(0, m as nat);
                }
            }
            v = next;
        }
        k += 1;
    }
    proof {
        let pv = values_of(p@);
        assert(differences_invertible(xs, m));
        assert forall|q: Seq<int>|
            q.len() == n && (forall|i: int| 0 <= i < n ==> 0 <= #[trigger] q[i] < m)
                && interpolates(q, xs, ys, n as int, m) implies q == pv by {
            assert forall|i: int| 0 <= i < pv.len() implies 0 <= #[trigger] pv[i] < m by {
                F::lemma_value_bound(p@[i]);
            }
            lemma_interpolant_unique(q, pv, xs, ys, m);
        }
    }
    *coefficients = p;
    Ok(())
}

/// Whether some entry of `perm` is `i`.
pub open spec fn takes_value(perm: Seq<int>, i: int) -> bool {
    exists|k: int| 0 <= k < perm.len() && #[trigger] perm[k] == i
}

/// Interpolation does not depend on the order of the points: if `c1`
/// interpolates the pairs `(xs[i], ys[i])` and `c2` the same pairs listed in
/// another order (`xs2[i] == xs[perm[i]]`, `ys2[i] == ys[perm[i]]`, with
/// `perm` onto `0..n`), and both are `n` field values, they are equal.
pub proof fn lemma_interpolation_ignores_order(
    c1: Seq<int>,
    c2: Seq<int>,
    xs: Seq<int>,
    ys: Seq<int>,
    xs2: Seq<int>,
    ys2: Seq<int>,
    perm: Seq<int>,
    m: int,
)
    requires
        m > 1,
        xs.len() == ys.len(),
        xs2.len() == xs.len(),
        ys2.len() == xs.len(),
        perm.len() == xs.len(),
        c1.len() == xs.len(),
        c2.len() == xs.len(),
        forall|i: int| 0 <= i < perm.len() ==> 0 <= #[trigger] perm[i] < perm.len(),
        forall|i: int| 0 <= i < perm.len() ==> xs2[i] == xs[#[trigger] perm[i]] && ys2[i] == ys[perm[i]],
        forall|i: int| 0 <= i < perm.len() ==> #[trigger] takes_value(perm, i),
        forall|i: int| 0 <= i < c1.len() ==> 0 <= #[trigger] c1[i] < m,
        forall|i: int| 0 <= i < c2.len() ==> 0 <= #[trigger] c2[i] < m,
        differences_invertible(xs, m),
        interpolates(c1, xs, ys, xs.len() as int, m),
        interpolates(c2, xs2, ys2, xs.len() as int, m),
    ensures
        c1 == c2,
{
    assert forall|i: int| 0 <= i < xs.len() implies #[trigger] poly_eval(c2, xs[i], m) == ys[i] by {
        assert(takes_value(perm, i));
        let k = choose|k: int| 0 <= k < perm.len() && #[trigger] perm[k] == i;
        assert(poly_eval(c2, xs2[k], m) == ys2[k]);
    }
    lemma_interpolant_unique(c1, c2, xs, ys, m);
}

/// Interpolation is linear in the values: with `c1`, `c2`, `c3` the
/// interpolants (as `n` field values) of `ys1`, `ys2` and
/// `ys3 = ys1 + c * ys2` at the same points, `c3 = c1 + c * c2`
/// coefficientwise.
pub proof fn lemma_interpolation_linear(
    c1: Seq<int>,
    c2: Seq<int>,
    c3: Seq<int>,
    xs: Seq<int>,
    ys1: Seq<int>,
    ys2: Seq<int>,
    ys3: Seq<int>,
    c: int,
    m: int,
)
    requires
        m > 1,
        c1.len() == xs.len(),
        c2.len() == xs.len(),
        c3.len() == xs.len(),
        forall|i: int| 0 <= i < c1.len() ==> 0 <= #[trigger] c1[i] < m,
        forall|i: int| 0 <= i < c2.len() ==> 0 <= #[trigger] c2[i] < m,
        forall|i: int| 0 <= i < c3.len() ==> 0 <= #[trigger] c3[i] < m,
        differences_invertible(xs, m),
        interpolates(c1, xs, ys1, xs.len() as int, m),
        interpolates(c2, xs, ys2, xs.len() as int, m),
        interpolates(c3, xs, ys3, xs.len() as int, m),
        forall|i: int| 0 <= i < xs.len() ==> #[trigger] ys3[i] == (ys1[i] + c * ys2[i]) % m,
    ensures
        forall|j: int| 0 <= j < c3.len() ==> #[trigger] c3[j] == (c1[j] + c * c2[j]) % m,
{
    let l = Seq::new(c1.len(), |j: int| (c1[j] + c * c2[j]) % m);
    assert forall|j: int| 0 <= j < l.len() implies 0 <= #[trigger] l[j] < m by {
        vstd::arithmetic::div_mod::lemma_mod_bound(c1[j] + c * c2[j], m);
    }
    assert forall|i: int| 0 <= i < xs.len() implies #[trigger] poly_eval(l, xs[i], m) == ys3[i] by {
        assert forall|j: int| 0 <= j < l.len() implies #[trigger] l[j] % m == (c1[j] + c * c2[j]) % m by {
            vstd::arithmetic::div_mod::lemma_mod_twice(c1[j] + c * c2[j], m);
        }
        lemma_horner_lincomb(l, c1, c2, c, xs[i], m);
        let h1 = horner(c1, xs[i]);
        let h2 = horner(c2, xs[i]);
        assert(poly_eval(c1, xs[i], m) == ys1[i]);
        assert(poly_eval(c2, xs[i], m) == ys2[i]);
        vstd::arithmetic::div_mod::lemma_mod_twice(h1, m);
        vstd::arithmetic::div_mod::lemma_mod_twice(h2, m);
        lemma_mod_congr_lin(h1, ys1[i], h2, ys2[i], c, m);
    }
    lemma_interpolant_unique(c3, l, xs, ys3, m);
}

} // verus!
