//! The meaning of a coefficient vector: the polynomial it stands for,
//! evaluated in a prime field of order `m`, and the facts about evaluation
//! that interpolation rests on.

use vstd::prelude::*;
use vstd::arithmetic::div_mod::{
    lemma_add_mod_noop, lemma_mod_twice, lemma_mul_mod_noop_left, lemma_mul_mod_noop_right,
    lemma_small_mod,
};
use crate::field::PrimeFieldElement;

verus! {

/// The values of a sequence of field elements.
pub open spec fn values_of<F: PrimeFieldElement>(s: Seq<F>) -> Seq<int> {
    s.map_values(|c: F| c.value())
}

/// Whether every element of `s` is in canonical form.
pub open spec fn all_canonical<F: PrimeFieldElement>(s: Seq<F>) -> bool {
    forall|i: int| 0 <= i < s.len() ==> #[trigger] s[i].is_canonical()
}

/// Sequences of canonical elements with the same values are the same
/// sequence: what is stated of coefficient values holds of the
/// coefficients.
pub proof fn lemma_same_values_same_elements<F: PrimeFieldElement>(p: Seq<F>, q: Seq<F>)
    requires
        all_canonical(p),
        all_canonical(q),
        values_of(p) == values_of(q),
    ensures
        p == q,
{
    assert(p.len() == values_of(p).len());
    assert forall|i: int| 0 <= i < p.len() implies p[i] == q[i] by {
        assert(values_of(p)[i] == p[i].value());
        assert(values_of(q)[i] == q[i].value());
        F::lemma_canonical_unique(p[i], q[i]);
    }
    assert(p =~= q);
}

/// `cs[0] + t * cs[1] + t^2 * cs[2] + ...` over the integers, in Horner form.
pub open spec fn horner(cs: Seq<int>, t: int) -> int
    decreases cs.len(),
{
    if cs.len() == 0 {
        0
    } else {
        cs[0] + t * horner(cs.drop_first(), t)
    }
}

/// The value at `t` of the polynomial with coefficients `cs` (lowest degree
/// first), in the field of order `m`.
pub open spec fn poly_eval(cs: Seq<int>, t: int, m: int) -> int {
    horner(cs, t) % m
}

/// `(t - xs[0]) * (t - xs[1]) * ... * (t - xs[k - 1])` in the field of
/// order `m`.
pub open spec fn vanishing_eval(xs: Seq<int>, k: int, t: int, m: int) -> int
    decreases k,
{
    if k <= 0 {
        1
    } else {
        (vanishing_eval(xs, k - 1, t, m) * (t - xs[k - 1])) % m
    }
}

/// Whether the values of `xs` are pairwise distinct.
pub open spec fn pairwise_distinct(xs: Seq<int>) -> bool {
    forall|i: int, j: int| 0 <= i < j < xs.len() ==> xs[i] != xs[j]
}

/// Whether the polynomial with coefficients `cs` takes the value `ys[i]` at
/// `xs[i]`, for every `i < n`, in the field of order `m`.
pub open spec fn interpolates(cs: Seq<int>, xs: Seq<int>, ys: Seq<int>, n: int, m: int) -> bool {
    forall|i: int| 0 <= i < n ==> #[trigger] poly_eval(cs, xs[i], m) == ys[i]
}

/// Congruent summands stay congruent after `u + t * x`.
pub proof fn lemma_mod_congr_lin(u: int, v: int, x: int, y: int, t: int, m: int)
    requires
        m > 0,
        u % m == v % m,
        x % m == y % m,
    ensures
        (u + t * x) % m == (v + t * y) % m,
{
    lemma_add_mod_noop(u, t * x, m);
    lemma_add_mod_noop(v, t * y, m);
    lemma_mul_mod_noop_right(t, x, m);
    lemma_mul_mod_noop_right(t, y, m);
}

/// Evaluation is linear in the coefficients: if `s` is congruent to
/// `a + c * b` coefficientwise, its value is that of `a` plus `c` times that
/// of `b`.
pub proof fn lemma_horner_lincomb(s: Seq<int>, a: Seq<int>, b: Seq<int>, c: int, t: int, m: int)
    requires
        m > 0,
        s.len() == a.len(),
        s.len() == b.len(),
        forall|i: int| 0 <= i < s.len() ==> #[trigger] s[i] % m == (a[i] + c * b[i]) % m,
    ensures
        horner(s, t) % m == (horner(a, t) + c * horner(b, t)) % m,
    decreases s.len(),
{
    if s.len() == 0 {
        assert(horner(a, t) + c * horner(b, t) == 0) by (nonlinear_arith)
            requires horner(a, t) == 0, horner(b, t) == 0;
    } else {
        let s1 = s.drop_first();
        let a1 = a.drop_first();
        let b1 = b.drop_first();
        assert forall|i: int| 0 <= i < s1.len() implies #[trigger] s1[i] % m == (a1[i] + c * b1[i]) % m by {
            assert(s1[i] == s[i + 1]);
            assert(a1[i] == a[i + 1]);
            assert(b1[i] == b[i + 1]);
        }
        lemma_horner_lincomb(s1, a1, b1, c, t, m);
        assert(s[0] % m == (a[0] + c * b[0]) % m);
        lemma_mod_congr_lin(s[0], a[0] + c * b[0], horner(s1, t), horner(a1, t) + c * horner(b1, t), t, m);
        assert((a[0] + c * b[0]) + t * (horner(a1, t) + c * horner(b1, t))
            == (a[0] + t * horner(a1, t)) + c * (b[0] + t * horner(b1, t))) by (nonlinear_arith);
    }
}

/// A zero top coefficient does not change the value.
pub proof fn lemma_horner_zero_top(n: Seq<int>, t: int)
    requires
        n.len() >= 1,
        n.last() == 0,
    ensures
        horner(n, t) == horner(n.drop_last(), t),
    decreases n.len(),
{
    if n.len() == 1 {
        assert(n.drop_first().len() == 0);
        assert(n.drop_last().len() == 0);
        assert(horner(n.drop_first(), t) == 0);
        assert(n[0] == 0);
        assert(horner(n, t) == 0 + t * 0);
    } else {
        let n1 = n.drop_first();
        assert(n1.last() == 0);
        lemma_horner_zero_top(n1, t);
        assert(n.drop_last().drop_first() =~= n1.drop_last());
        assert(n.drop_last()[0] == n[0]);
    }
}

/// All-zero coefficients give zero.
pub proof fn lemma_horner_zeros(n: Seq<int>, t: int)
    requires
        forall|i: int| 0 <= i < n.len() ==> n[i] == 0,
    ensures
        horner(n, t) == 0,
    decreases n.len(),
{
    if n.len() > 0 {
        lemma_horner_zeros(n.drop_first(), t);
    }
}

/// Multiplying by `(t - a)`: if `prod` is congruent coefficientwise to the
/// coefficients of `n` shifted up one degree, minus `a` times those of `n`,
/// and the top coefficient of `n` is zero, then `prod` evaluates to
/// `(t - a)` times the value of `n`.
pub proof fn lemma_horner_mul_linear(prod: Seq<int>, n: Seq<int>, a: int, t: int, m: int)
    requires
        m > 0,
        n.len() >= 1,
        prod.len() == n.len(),
        n.last() == 0,
        forall|i: int| 0 <= i < prod.len() ==> #[trigger] prod[i] % m == ((if i == 0 { 0 } else { n[i - 1] }) + (-a) * n[i]) % m,
    ensures
        horner(prod, t) % m == ((t - a) * horner(n, t)) % m,
{
    let s = seq![0int] + n.drop_last();
    assert(s.len() == n.len());
    assert forall|i: int| 0 <= i < prod.len() implies #[trigger] prod[i] % m == (s[i] + (-a) * n[i]) % m by {
        if i == 0 {
            assert(s[i] == 0);
        } else {
            assert(s[i] == n[i - 1]);
        }
    }
    lemma_horner_lincomb(prod, s, n, -a, t, m);
    assert(s.drop_first() =~= n.drop_last());
    lemma_horner_zero_top(n, t);
    assert(horner(s, t) == t * horner(n, t));
    assert(t * horner(n, t) + (-a) * horner(n, t) == (t - a) * horner(n, t)) by (nonlinear_arith);
}

/// The vanishing product is zero at each of its roots.
pub proof fn lemma_vanishing_root(xs: Seq<int>, k: int, j: int, m: int)
    requires
        m > 0,
        0 <= j < k,
    ensures
        vanishing_eval(xs, k, xs[j], m) == 0,
    decreases k,
{
    let v = vanishing_eval(xs, k - 1, xs[j], m);
    let f = xs[j] - xs[k - 1];
    lemma_small_mod(0, m as nat);
    if j < k - 1 {
        lemma_vanishing_root(xs, k - 1, j, m);
        assert(v * f == 0) by (nonlinear_arith)
            requires v == 0;
    } else {
        assert(v * f == 0) by (nonlinear_arith)
            requires f == 0;
    }
}

/// Values in `0..m` are congruent only when equal.
pub proof fn lemma_sub_mod_zero(a: int, b: int, m: int)
    requires
        0 <= a < m,
        0 <= b < m,
    ensures
        (a - b) % m == 0 <==> a == b,
{
    if a == b {
        lemma_small_mod(0, m as nat);
    } else {
        vstd::arithmetic::div_mod::lemma_fundamental_div_mod(a - b, m);
        if (a - b) % m == 0 {
            let q = (a - b) / m;
            assert(false) by (nonlinear_arith)
                requires
                    a - b == m * q,
                    -m < a - b < m,
                    a - b != 0,
                    m > 0,
            ;
        }
    }
}

/// One interpolation step lands on the target value: with `hp`, `hn` the
/// unreduced values of the current polynomial and of the vanishing
/// polynomial at the new point, `p` and `d` their reductions, `inv` the
/// inverse of `d`, and `c = (y - p) * inv`, the updated polynomial `hp + c * hn`
/// takes the value `y`.
pub proof fn lemma_interpolation_step(hp: int, hn: int, p: int, d: int, inv: int, y: int, c: int, m: int)
    requires
        m > 0,
        hp % m == p,
        hn % m == d,
        (d * inv) % m == 1,
        c == (((y - p) % m) * inv) % m,
        0 <= y < m,
    ensures
        (hp + c * hn) % m == y,
{
    let e = (y - p) % m;
    // c * hn is congruent to c * d
    lemma_mul_mod_noop_right(c, hn, m);
    // c * d is congruent to e * inv * d
    lemma_mul_mod_noop_left(e * inv, d, m);
    assert((e * inv) * d == e * (d * inv)) by (nonlinear_arith);
    lemma_mul_mod_noop_right(e, d * inv, m);
    lemma_mod_twice(y - p, m);
    assert((c * hn) % m == (y - p) % m);
    lemma_add_mod_noop(hp, c * hn, m);
    lemma_add_mod_noop(p, y - p, m);
    lemma_mod_twice(hp, m);
    lemma_small_mod(y as nat, m as nat);
}

/// Whether `a` has a multiplicative inverse modulo `m`.
pub open spec fn invertible(a: int, m: int) -> bool {
    exists|w: int| #[trigger] ((a * w) % m) == 1
}

/// Whether `xs[j] - xs[i]` is invertible modulo `m`.
pub open spec fn difference_invertible(xs: Seq<int>, i: int, j: int, m: int) -> bool {
    invertible(xs[j] - xs[i], m)
}

/// Whether the difference of every two of the points `xs` is invertible
/// modulo `m`; in a prime field, whether the points are pairwise distinct.
pub open spec fn differences_invertible(xs: Seq<int>, m: int) -> bool {
    forall|i: int, j: int| 0 <= i < j < xs.len() ==> #[trigger] difference_invertible(xs, i, j, m)
}

/// The quotient of the polynomial `q` by `(x - a)`, lowest degree first.
pub open spec fn quotient_by_linear(q: Seq<int>, a: int) -> Seq<int>
    decreases q.len(),
{
    if q.len() <= 1 {
        Seq::empty()
    } else {
        seq![remainder_by_linear(q.drop_first(), a)] + quotient_by_linear(q.drop_first(), a)
    }
}

/// The remainder of the polynomial `q` divided by `(x - a)`: its value at `a`.
pub open spec fn remainder_by_linear(q: Seq<int>, a: int) -> int
    decreases q.len(),
{
    if q.len() == 0 {
        0
    } else if q.len() == 1 {
        q[0]
    } else {
        q[0] + a * remainder_by_linear(q.drop_first(), a)
    }
}

/// Division by `(x - a)`: `q(t) == (t - a) * quotient(t) + remainder`.
pub proof fn lemma_division_by_linear(q: Seq<int>, a: int, t: int)
    requires
        q.len() >= 1,
    ensures
        quotient_by_linear(q, a).len() == q.len() - 1,
        horner(q, t) == (t - a) * horner(quotient_by_linear(q, a), t) + remainder_by_linear(q, a),
    decreases q.len(),
{
    if q.len() == 1 {
        assert(horner(q.drop_first(), t) == 0);
        assert(horner(q, t) == q[0] + t * 0);
        assert((t - a) * 0 == 0) by (nonlinear_arith);
    } else {
        let q1 = q.drop_first();
        lemma_division_by_linear(q1, a, t);
        let d1 = quotient_by_linear(q1, a);
        let r1 = remainder_by_linear(q1, a);
        let d = quotient_by_linear(q, a);
        assert(d.drop_first() =~= d1);
        assert(d[0] == r1);
        assert(horner(d, t) == r1 + t * horner(d1, t));
        let h1 = horner(d1, t);
        assert(q[0] + t * ((t - a) * h1 + r1) == (t - a) * (r1 + t * h1) + (q[0] + a * r1)) by (nonlinear_arith);
    }
}

/// A polynomial whose quotient by `(x - a)` and remainder are zero modulo
/// `m` has all its coefficients zero modulo `m`.
pub proof fn lemma_zero_quotient(q: Seq<int>, a: int, m: int)
    requires
        m > 0,
        q.len() >= 1,
        remainder_by_linear(q, a) % m == 0,
        forall|i: int| 0 <= i < quotient_by_linear(q, a).len() ==> #[trigger] quotient_by_linear(q, a)[i] % m == 0,
    ensures
        forall|i: int| 0 <= i < q.len() ==> #[trigger] q[i] % m == 0,
    decreases q.len(),
{
    if q.len() > 1 {
        let q1 = q.drop_first();
        let d = quotient_by_linear(q, a);
        let r1 = remainder_by_linear(q1, a);
        assert(d[0] == r1);
        assert(r1 % m == 0);
        assert forall|i: int| 0 <= i < quotient_by_linear(q1, a).len() implies #[trigger] quotient_by_linear(q1, a)[i] % m == 0 by {
            assert(quotient_by_linear(q1, a)[i] == d[i + 1]);
        }
        lemma_zero_quotient(q1, a, m);
        // q[0] == remainder(q) - a * r1
        vstd::arithmetic::div_mod::lemma_sub_mod_noop(remainder_by_linear(q, a), a * r1, m);
        lemma_mul_mod_noop_right(a, r1, m);
        assert(a * 0 == 0);
        lemma_small_mod(0, m as nat);
        assert forall|i: int| 0 <= i < q.len() implies #[trigger] q[i] % m == 0 by {
            if i > 0 {
                assert(q[i] == q1[i - 1]);
            }
        }
    }
}

/// A polynomial with at most `xs.len()` coefficients that vanishes modulo
/// `m` at every point of `xs`, whose differences are invertible, has all
/// its coefficients zero modulo `m`.
pub proof fn lemma_vanishing_everywhere_is_zero(q: Seq<int>, xs: Seq<int>, m: int)
    requires
        m > 1,
        q.len() == xs.len(),
        differences_invertible(xs, m),
        forall|i: int| 0 <= i < xs.len() ==> #[trigger] horner(q, xs[i]) % m == 0,
    ensures
        forall|i: int| 0 <= i < q.len() ==> #[trigger] q[i] % m == 0,
    decreases q.len(),
{
    if q.len() > 0 {
        let a = xs[0];
        let d = quotient_by_linear(q, a);
        let ys = xs.drop_first();
        lemma_division_by_linear(q, a, a);
        assert((a - a) * horner(d, a) == 0) by (nonlinear_arith);
        assert(remainder_by_linear(q, a) % m == 0);
        assert forall|i: int, j: int| 0 <= i < j < ys.len() implies #[trigger] difference_invertible(ys, i, j, m) by {
            assert(difference_invertible(xs, i + 1, j + 1, m));
        }
        assert forall|i: int| 0 <= i < ys.len() implies #[trigger] horner(d, ys[i]) % m == 0 by {
            let x = ys[i];
            assert(x == xs[i + 1]);
            assert(difference_invertible(xs, 0, i + 1, m));
            let w = choose|w: int| #[trigger] (((x - a) * w) % m) == 1;
            lemma_division_by_linear(q, a, x);
            let h = horner(d, x);
            let r = remainder_by_linear(q, a);
            // (x - a) * h is congruent to 0
            vstd::arithmetic::div_mod::lemma_sub_mod_noop(horner(q, x), r, m);
            lemma_small_mod(0, m as nat);
            assert(((x - a) * h) % m == 0);
            // h == w * (x - a) * h modulo m
            lemma_mul_mod_noop_right(w, (x - a) * h, m);
            assert(w * 0 == 0);
            assert(w * ((x - a) * h) == ((x - a) * w) * h) by (nonlinear_arith);
            lemma_mul_mod_noop_left((x - a) * w, h, m);
            assert(1 * h == h);
        }
        lemma_vanishing_everywhere_is_zero(d, ys, m);
        lemma_zero_quotient(q, a, m);
    }
}

/// Two coefficient vectors of field values, of the length of `xs`, that
/// take the same values at the points `xs` (with invertible differences)
/// are equal.
pub proof fn lemma_interpolant_unique(c1: Seq<int>, c2: Seq<int>, xs: Seq<int>, ys: Seq<int>, m: int)
    requires
        m > 1,
        c1.len() == xs.len(),
        c2.len() == xs.len(),
        forall|i: int| 0 <= i < c1.len() ==> 0 <= #[trigger] c1[i] < m,
        forall|i: int| 0 <= i < c2.len() ==> 0 <= #[trigger] c2[i] < m,
        differences_invertible(xs, m),
        interpolates(c1, xs, ys, xs.len() as int, m),
        interpolates(c2, xs, ys, xs.len() as int, m),
    ensures
        c1 == c2,
{
    let z = Seq::new(c1.len(), |i: int| 0int);
    let q = Seq::new(c1.len(), |i: int| c1[i] - c2[i]);
    assert forall|i: int| 0 <= i < xs.len() implies #[trigger] horner(q, xs[i]) % m == 0 by {
        assert forall|j: int| 0 <= j < q.len() implies #[trigger] q[j] % m == (c1[j] + (-1) * c2[j]) % m by {}
        lemma_horner_lincomb(q, c1, c2, -1, xs[i], m);
        assert(poly_eval(c1, xs[i], m) == ys[i]);
        assert(poly_eval(c2, xs[i], m) == ys[i]);
        vstd::arithmetic::div_mod::lemma_sub_mod_noop(horner(c1, xs[i]), horner(c2, xs[i]), m);
        lemma_small_mod(0, m as nat);
    }
    lemma_vanishing_everywhere_is_zero(q, xs, m);
    assert forall|i: int| 0 <= i < c1.len() implies c1[i] == c2[i] by {
        assert(q[i] % m == 0);
        lemma_sub_mod_zero(c1[i], c2[i], m);
    }
    assert(c1 =~= c2);
}

/// If the product of the first `k` factors `(t - xs[j])` is invertible, so
/// is each factor.
pub proof fn lemma_vanishing_factors_invertible(xs: Seq<int>, k: int, t: int, inv: int, j: int, m: int)
    requires
        m > 0,
        0 <= j < k,
        (vanishing_eval(xs, k, t, m) * inv) % m == 1,
    ensures
        invertible(t - xs[j], m),
    decreases k,
{
    let v = vanishing_eval(xs, k - 1, t, m);
    let f = t - xs[k - 1];
    // (v * f) % m * inv is congruent to v * (f * inv)
    lemma_mul_mod_noop_left(v * f, inv, m);
    assert((v * f) * inv == v * (f * inv)) by (nonlinear_arith);
    assert((v * f) * inv == f * (v * inv)) by (nonlinear_arith);
    if j == k - 1 {
        assert(((t - xs[j]) * (v * inv)) % m == 1);
    } else {
        assert((v * (f * inv)) % m == 1);
        lemma_vanishing_factors_invertible(xs, k - 1, t, f * inv, j, m);
    }
}

} // verus!
