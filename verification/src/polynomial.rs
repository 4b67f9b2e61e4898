//! Polynomials over a prime field in coefficient form.
//!
//! A `Polynomial` holds a vector of coefficients, lowest degree first, and
//! its `size`, the number of terms (degree + 1). The size always equals the
//! number of coefficients: every operation that lengthens or shortens the
//! vector updates it.

use vstd::prelude::*;
use vstd::arithmetic::div_mod::{lemma_add_mod_noop, lemma_small_mod, lemma_sub_mod_noop};
use vstd::std_specs::iter::IteratorSpec;
use crate::field::PrimeFieldElement;
use crate::evaluation::{
    values_of, all_canonical, horner, poly_eval, pairwise_distinct, interpolates,
    differences_invertible, lemma_horner_lincomb, lemma_horner_zeros,
    lemma_same_values_same_elements,
};
use crate::interpolation::{compute_efficient_interpolation, PolynomialError};

verus! {

broadcast use vstd::std_specs::vec::axiom_spec_into_iter;

/// A polynomial over the field `F`: `coefficients[i]` is the coefficient
/// of `x^i`, and `size` the number of terms.
#[derive(Debug, PartialEq, Eq)]
pub struct Polynomial<F: PrimeFieldElement> {
    size: usize,
    coefficients: Vec<F>,
}

impl<F: PrimeFieldElement> Polynomial<F> {
    #[verifier::type_invariant]
    spec fn size_is_length(self) -> bool {
        self.size == self.coefficients.len()
    }
}

impl<F: PrimeFieldElement> Clone for Polynomial<F> {
    /// A polynomial with copies of the coefficients.
    fn clone(&self) -> (r: Self)
        ensures
            r@ == self@,
    {
        let n = self.coefficients.len();
        let mut c: Vec<F> = Vec::new();
        let mut i: usize = 0;
        while i < n
            invariant
                i <= n,
                n == self@.len(),
                c@ == self@.subrange(0, i as int),
            decreases n - i,
        {
            c.push(self.coefficients[i]);
            i += 1;
        }
        proof {
            assert(self@.subrange(0, n as int) =~= self@);
        }
        Polynomial::from_vec(c)
    }
}

impl<F: PrimeFieldElement> View for Polynomial<F> {
    type V = Seq<F>;

    /// The coefficients, lowest degree first; their number is the size.
    closed spec fn view(&self) -> Seq<F> {
        self.coefficients@
    }
}

/// The coefficient of `x^i` in `vals`, zero past its end.
pub open spec fn coefficient_or_zero(vals: Seq<int>, i: int) -> int {
    if 0 <= i < vals.len() {
        vals[i]
    } else {
        0
    }
}

/// The larger of two lengths.
pub open spec fn max_len(a: Seq<int>, b: Seq<int>) -> nat {
    if a.len() >= b.len() {
        a.len()
    } else {
        b.len()
    }
}

/// `vals` cut or extended with zeros to length `n`.
pub open spec fn padded(vals: Seq<int>, n: int) -> Seq<int> {
    Seq::new(n as nat, |i: int| coefficient_or_zero(vals, i))
}

/// The coefficients of the sum of two polynomials, over the longer length.
pub open spec fn padded_sum(a: Seq<int>, b: Seq<int>, m: int) -> Seq<int> {
    Seq::new(max_len(a, b), |i: int| (coefficient_or_zero(a, i) + coefficient_or_zero(b, i)) % m)
}

/// The coefficients of the difference of two polynomials, over the longer
/// length.
pub open spec fn padded_difference(a: Seq<int>, b: Seq<int>, m: int) -> Seq<int> {
    Seq::new(max_len(a, b), |i: int| (coefficient_or_zero(a, i) - coefficient_or_zero(b, i)) % m)
}

/// The coefficients of a polynomial multiplied by `c`.
pub open spec fn scaled(a: Seq<int>, c: int, m: int) -> Seq<int> {
    Seq::new(a.len(), |i: int| (a[i] * c) % m)
}

/// Whether every value is a field value.
pub open spec fn field_values(vals: Seq<int>, m: int) -> bool {
    forall|i: int| 0 <= i < vals.len() ==> 0 <= #[trigger] vals[i] < m
}

/// `r` is what adding `b` to `a` leaves: as many terms as the longer of
/// the two, the sums of the values, canonical elements where `b` had a
/// term, and the terms of `a` unchanged past the end of `b`.
pub open spec fn is_sum<F: PrimeFieldElement>(a: Seq<F>, b: Seq<F>, r: Seq<F>) -> bool {
    &&& r.len() == max_len(values_of(a), values_of(b))
    &&& values_of(r) == padded_sum(values_of(a), values_of(b), F::order())
    &&& forall|i: int| 0 <= i < b.len() ==> #[trigger] r[i].is_canonical()
    &&& forall|i: int| b.len() <= i < a.len() ==> #[trigger] r[i] == a[i]
}

/// `r` is what subtracting `b` from `a` leaves, in the same way as
/// `is_sum`.
pub open spec fn is_difference<F: PrimeFieldElement>(a: Seq<F>, b: Seq<F>, r: Seq<F>) -> bool {
    &&& r.len() == max_len(values_of(a), values_of(b))
    &&& values_of(r) == padded_difference(values_of(a), values_of(b), F::order())
    &&& forall|i: int| 0 <= i < b.len() ==> #[trigger] r[i].is_canonical()
    &&& forall|i: int| b.len() <= i < a.len() ==> #[trigger] r[i] == a[i]
}

/// `r` is `a` with every coefficient multiplied by `c`, each product in
/// canonical form.
pub open spec fn is_scaled<F: PrimeFieldElement>(a: Seq<F>, c: F, r: Seq<F>) -> bool {
    &&& r.len() == a.len()
    &&& values_of(r) == scaled(values_of(a), c.value(), F::order())
    &&& all_canonical(r)
}

/// The values of field elements are field values.
pub proof fn lemma_values_in_field<F: PrimeFieldElement>(s: Seq<F>)
    ensures
        field_values(values_of(s), F::order()),
{
    assert forall|i: int| 0 <= i < values_of(s).len() implies 0 <= #[trigger] values_of(s)[i] < F::order() by {
        F::lemma_value_bound(s[i]);
    }
}

/// `IndexMut<Range<usize>>` on a `Vec`: the elements at `start..end`,
/// borrowed mutably; the borrow keeps its length, and what is written
/// through it lands in place. With the range in bounds it does not panic.
#[verifier::external_body]
fn vec_range_mut<T>(v: &mut Vec<T>, start: usize, end: usize) -> (s: &mut [T])
    requires
        start <= end <= old(v).len(),
    ensures
        s@ == old(v)@.subrange(start as int, end as int),
        final(s)@.len() == end - start,
        final(v)@ == old(v)@.subrange(0, start as int) + final(s)@ + old(v)@.subrange(
            end as int,
            old(v).len() as int,
        ),
    no_unwind
{
    &mut v[start..end]
}

impl<F: PrimeFieldElement> Polynomial<F> {
    /// The polynomial with the given coefficients.
    fn from_vec(coefficients: Vec<F>) -> (p: Polynomial<F>)
        ensures
            p@ == coefficients@,
    {
        Polynomial { size: coefficients.len(), coefficients }
    }

    /// Takes the coefficients out, leaving the polynomial with no terms.
    fn take_coefficients(&mut self) -> (c: Vec<F>)
        ensures
            c@ == old(self)@,
            final(self)@.len() == 0,
    {
        let mut empty = Polynomial { size: 0, coefficients: Vec::new() };
        std::mem::swap(self, &mut empty);
        empty.coefficients
    }

    /// Creates the polynomial of degree below `interpolation_points.len()`
    /// that takes the value `evaluations[i]` at `interpolation_points[i]`.
    /// It fails exactly when two interpolation points coincide; otherwise
    /// the result is the only polynomial with that many coefficients that
    /// does so.
    pub fn from_interpolations(interpolation_points: &[F], evaluations: &[F]) -> (res: Result<Polynomial<F>, PolynomialError>)
        requires
            interpolation_points.len() > 0,
            evaluations.len() >= interpolation_points.len(),
        ensures
            res is Ok <==> pairwise_distinct(values_of(interpolation_points@)),
            res matches Ok(p) ==> {
                &&& p@.len() == interpolation_points.len()
                &&& interpolates(
                    values_of(p@),
                    values_of(interpolation_points@),
                    values_of(evaluations@),
                    interpolation_points.len() as int,
                    F::order(),
                )
                &&& differences_invertible(values_of(interpolation_points@), F::order())
                &&& forall|q: Seq<int>|
                    q.len() == interpolation_points.len() && field_values(q, F::order()) && interpolates(
                        q,
                        values_of(interpolation_points@),
                        values_of(evaluations@),
                        interpolation_points.len() as int,
                        F::order(),
                    ) ==> q == values_of(p@)
                &&& all_canonical(p@)
                &&& forall|q: Seq<F>|
                    q.len() == interpolation_points.len() && all_canonical(q) && interpolates(
                        values_of(q),
                        values_of(interpolation_points@),
                        values_of(evaluations@),
                        interpolation_points.len() as int,
                        F::order(),
                    ) ==> q == p@
            },
    {
        let n = interpolation_points.len();
        let mut coefficients: Vec<F> = Vec::new();
        let mut i: usize = 0;
        while i < n
            invariant
                i <= n,
                coefficients.len() == i,
            decreases n - i,
        {
            coefficients.push(F::zero());
            i += 1;
        }
        match compute_efficient_interpolation(evaluations, &mut coefficients, interpolation_points, n) {
            Ok(()) => {
                proof {
                    assert forall|q: Seq<int>|
                        q.len() == n && field_values(q, F::order()) && interpolates(
                            q,
                            values_of(interpolation_points@),
                            values_of(evaluations@),
                            n as int,
                            F::order(),
                        ) implies q == values_of(coefficients@) by {
                        assert(forall|i: int| 0 <= i < n ==> 0 <= #[trigger] q[i] < F::order());
                    }
                    assert forall|q: Seq<F>|
                        q.len() == n && all_canonical(q) && interpolates(
                            values_of(q),
                            values_of(interpolation_points@),
                            values_of(evaluations@),
                            n as int,
                            F::order(),
                        ) implies q == coefficients@ by {
                        lemma_values_in_field(q);
                        assert(values_of(q) == values_of(coefficients@));
                        lemma_same_values_same_elements(q, coefficients@);
                    }
                }
                Ok(Polynomial::from_vec(coefficients))
            },
            Err(e) => Err(e),
        }
    }

    /// Creates a polynomial of `size` terms, all coefficients zero.
    pub fn new(size: usize) -> (p: Polynomial<F>)
        ensures
            p@.len() == size,
            forall|i: int| 0 <= i < size ==> #[trigger] p@[i].value() == 0,
            all_canonical(p@),
    {
        let mut coefficients: Vec<F> = Vec::new();
        let mut i: usize = 0;
        while i < size
            invariant
                i <= size,
                coefficients.len() == i,
                forall|j: int| 0 <= j < i ==> #[trigger] coefficients@[j].value() == 0,
                all_canonical(coefficients@),
            decreases size - i,
        {
            coefficients.push(F::zero());
            i += 1;
        }
        Polynomial { size, coefficients }
    }

    /// The number of terms of the polynomial (degree + 1).
    pub fn size(&self) -> (s: usize)
        ensures
            s == self@.len(),
    {
        proof {
            use_type_invariant(self);
        }
        self.size
    }

    /// The coefficients, lowest degree first.
    pub fn coefficients(&self) -> (c: &Vec<F>)
        ensures
            c@ == self@,
    {
        &self.coefficients
    }

    /// Sets the coefficient at `idx` to `v`.
    pub fn set_coefficient(&mut self, idx: usize, v: F)
        requires
            idx < old(self)@.len(),
        ensures
            final(self)@ == old(self)@.update(idx as int, v),
    {
        proof {
            use_type_invariant(&*self);
        }
        self.coefficients[idx] = v;
    }

    /// Resizes the polynomial to `new_len` terms, filling any new ones with
    /// `val`.
    pub fn resize(&mut self, new_len: usize, val: F)
        ensures
            final(self)@.len() == new_len,
            forall|i: int| 0 <= i < new_len ==> #[trigger] final(self)@[i] == if i < old(self)@.len() {
                old(self)@[i]
            } else {
                val
            },
    {
        let mut c = self.take_coefficients();
        let len = c.len();
        if new_len <= len {
            c.truncate(new_len);
        } else {
            let mut i = len;
            while i < new_len
                invariant
                    len <= i <= new_len,
                    len == old(self)@.len(),
                    c.len() == i,
                    forall|j: int| 0 <= j < len ==> #[trigger] c@[j] == old(self)@[j],
                    forall|j: int| len <= j < i ==> #[trigger] c@[j] == val,
                decreases new_len - i,
            {
                c.push(val);
                i += 1;
            }
        }
        *self = Polynomial::from_vec(c);
    }

    /// Adds `rhs` to `self` in place. If `rhs` has more terms, `self` is
    /// first extended with zero coefficients to as many terms.
    pub fn add_assign(&mut self, rhs: Polynomial<F>)
        ensures
            is_sum(old(self)@, rhs@, final(self)@),
    {
        proof {
            use_type_invariant(&rhs);
        }
        let ghost a = values_of(old(self)@);
        let ghost b = values_of(rhs@);
        let mut c = self.take_coefficients();
        let rn = rhs.coefficients.len();
        let old_len = c.len();
        if old_len < rn {
            let mut i = old_len;
            while i < rn
                invariant
                    old_len <= i <= rn,
                    old_len == old(self)@.len(),
                    c.len() == i,
                    forall|j: int| 0 <= j < old_len ==> #[trigger] c@[j] == old(self)@[j],
                    forall|j: int| old_len <= j < i ==> #[trigger] c@[j].value() == 0,
                decreases rn - i,
            {
                c.push(F::zero());
                i += 1;
            }
        }
        let ghost base = c@;
        let mut i: usize = 0;
        while i < rn
            invariant
                i <= rn,
                rn == rhs@.len(),
                c.len() == base.len(),
                base.len() >= rn,
                forall|j: int| 0 <= j < i ==> #[trigger] c@[j].value() == (base[j].value() + rhs@[j].value()) % F::order(),
                forall|j: int| 0 <= j < i ==> #[trigger] c@[j].is_canonical(),
                forall|j: int| i <= j < base.len() ==> #[trigger] c@[j] == base[j],
            decreases rn - i,
        {
            let s = c[i].add(&rhs.coefficients[i]);
            c.set(i, s);
            i += 1;
        }
        proof {
            let m = F::order();
            F::lemma_value_bound(vstd::pervasive::arbitrary());
            assert forall|j: int| 0 <= j < c.len() implies #[trigger] values_of(c@)[j]
                == (coefficient_or_zero(a, j) + coefficient_or_zero(b, j)) % m by {
                if j < old_len {
                    assert(base[j] == old(self)@[j]);
                }
                if j >= rn {
                    F::lemma_value_bound(old(self)@[j]);
                    lemma_small_mod(a[j] as nat, m as nat);
                }
            }
            assert(values_of(c@) =~= padded_sum(a, b, m));
        }
        *self = Polynomial::from_vec(c);
    }
    /// Subtracts `rhs` from `self` in place. If `rhs` has more terms,
    /// `self` is first extended with zero coefficients to as many terms.
    pub fn sub_assign(&mut self, rhs: Polynomial<F>)
        ensures
            is_difference(old(self)@, rhs@, final(self)@),
    {
        proof {
            use_type_invariant(&rhs);
        }
        let ghost a = values_of(old(self)@);
        let ghost b = values_of(rhs@);
        let mut c = self.take_coefficients();
        let rn = rhs.coefficients.len();
        let old_len = c.len();
        if old_len < rn {
            let mut i = old_len;
            while i < rn
                invariant
                    old_len <= i <= rn,
                    old_len == old(self)@.len(),
                    c.len() == i,
                    forall|j: int| 0 <= j < old_len ==> #[trigger] c@[j] == old(self)@[j],
                    forall|j: int| old_len <= j < i ==> #[trigger] c@[j].value() == 0,
                decreases rn - i,
            {
                c.push(F::zero());
                i += 1;
            }
        }
        let ghost base = c@;
        let mut i: usize = 0;
        while i < rn
            invariant
                i <= rn,
                rn == rhs@.len(),
                c.len() == base.len(),
                base.len() >= rn,
                forall|j: int| 0 <= j < i ==> #[trigger] c@[j].value() == (base[j].value() - rhs@[j].value()) % F::order(),
                forall|j: int| 0 <= j < i ==> #[trigger] c@[j].is_canonical(),
                forall|j: int| i <= j < base.len() ==> #[trigger] c@[j] == base[j],
            decreases rn - i,
        {
            let s = c[i].sub(&rhs.coefficients[i]);
            c.set(i, s);
            i += 1;
        }
        proof {
            let m = F::order();
            F::lemma_value_bound(vstd::pervasive::arbitrary());
            assert forall|j: int| 0 <= j < c.len() implies #[trigger] values_of(c@)[j]
                == (coefficient_or_zero(a, j) - coefficient_or_zero(b, j)) % m by {
                if j < old_len {
                    assert(base[j] == old(self)@[j]);
                }
                if j >= rn {
                    F::lemma_value_bound(old(self)@[j]);
                    lemma_small_mod(a[j] as nat, m as nat);
                }
            }
            assert(values_of(c@) =~= padded_difference(a, b, m));
        }
        *self = Polynomial::from_vec(c);
    }

    /// Multiplies every coefficient by `rhs` in place.
    pub fn mul_assign(&mut self, rhs: F)
        ensures
            is_scaled(old(self)@, rhs, final(self)@),
    {
        let mut c = self.take_coefficients();
        let n = c.len();
        let mut i: usize = 0;
        while i < n
            invariant
                i <= n,
                n == old(self)@.len(),
                c.len() == n,
                forall|j: int| 0 <= j < i ==> #[trigger] c@[j].value() == (old(self)@[j].value() * rhs.value()) % F::order(),
                forall|j: int| 0 <= j < i ==> #[trigger] c@[j].is_canonical(),
                forall|j: int| i <= j < n ==> #[trigger] c@[j] == old(self)@[j],
            decreases n - i,
        {
            let s = c[i].mul(&rhs);
            c.set(i, s);
            i += 1;
        }
        proof {
            assert(values_of(c@) =~= scaled(values_of(old(self)@), rhs.value(), F::order()));
        }
        *self = Polynomial::from_vec(c);
    }

    /// An iterator over the coefficients, lowest degree first.
    pub fn into_iter(self) -> (it: std::vec::IntoIter<F>)
        ensures
            it.remaining() == self@,
    {
        self.coefficients.into_iter()
    }

    /// The coefficient at `index`.
    pub fn index(&self, index: usize) -> (c: &F)
        requires
            index < self@.len(),
        ensures
            *c == self@[index as int],
    {
        &self.coefficients[index]
    }

    /// A mutable reference to the coefficient at `index`.
    pub fn index_mut(&mut self, index: usize) -> (c: &mut F)
        requires
            index < old(self)@.len(),
        ensures
            *c == old(self)@[index as int],
            final(self)@ == old(self)@.update(index as int, *final(c)),
    {
        proof {
            use_type_invariant(&*self);
        }
        &mut self.coefficients[index]
    }

    /// The coefficients at `start..end`.
    pub fn index_range(&self, start: usize, end: usize) -> (s: &[F])
        requires
            start <= end <= self@.len(),
        ensures
            s@ == self@.subrange(start as int, end as int),
    {
        vstd::slice::slice_subrange(self.coefficients.as_slice(), start, end)
    }

    /// A mutable view of the coefficients at `start..end`.
    pub fn index_range_mut(&mut self, start: usize, end: usize) -> (s: &mut [F])
        requires
            start <= end <= old(self)@.len(),
        ensures
            s@ == old(self)@.subrange(start as int, end as int),
            final(s)@.len() == end - start,
            final(self)@ == old(self)@.subrange(0, start as int) + final(s)@ + old(self)@.subrange(
                end as int,
                old(self)@.len() as int,
            ),
    {
        proof {
            use_type_invariant(&*self);
        }
        vec_range_mut(&mut self.coefficients, start, end)
    }

    /// The coefficients from `start` on.
    pub fn index_from(&self, start: usize) -> (s: &[F])
        requires
            start <= self@.len(),
        ensures
            s@ == self@.subrange(start as int, self@.len() as int),
    {
        vstd::slice::slice_subrange(self.coefficients.as_slice(), start, self.coefficients.len())
    }
}

impl<F: PrimeFieldElement> Default for Polynomial<F> {
    /// The polynomial with no terms.
    fn default() -> (p: Polynomial<F>)
        ensures
            p@.len() == 0,
    {
        Polynomial { size: 0, coefficients: Vec::new() }
    }
}

/// Padding with zeros does not change a polynomial's value.
pub proof fn lemma_horner_padded(a: Seq<int>, n: int, t: int)
    requires
        n >= a.len(),
    ensures
        horner(padded(a, n), t) == horner(a, t),
    decreases a.len(),
{
    let p = padded(a, n);
    if a.len() == 0 {
        lemma_horner_zeros(p, t);
    } else {
        lemma_horner_padded(a.drop_first(), n - 1, t);
        assert(p.drop_first() =~= padded(a.drop_first(), n - 1));
        assert(p[0] == a[0]);
    }
}

/// On values: subtracting what was just added gives back the values of
/// `a`, extended with zeros when `b` has more terms.
pub proof fn lemma_padded_difference_undoes_sum(a: Seq<int>, b: Seq<int>, m: int)
    requires
        m > 1,
        field_values(a, m),
        field_values(b, m),
    ensures
        padded_difference(padded_sum(a, b, m), b, m) == padded(a, max_len(a, b) as int),
{
    let sum = padded_sum(a, b, m);
    let back = padded_difference(sum, b, m);
    let expect = padded(a, max_len(a, b) as int);
    assert forall|i: int| 0 <= i < back.len() implies back[i] == expect[i] by {
        let x = coefficient_or_zero(a, i);
        let y = coefficient_or_zero(b, i);
        assert(0 <= x < m && 0 <= y < m);
        lemma_sub_mod_noop(x + y, y, m);
        lemma_small_mod(y as nat, m as nat);
        lemma_small_mod(x as nat, m as nat);
    }
    assert(back =~= expect);
}

/// `add_assign` adds the polynomials: the result's value at every point is
/// the sum of their values.
pub proof fn lemma_add_assign_evaluates(a: Seq<int>, b: Seq<int>, t: int, m: int)
    requires
        m > 0,
    ensures
        poly_eval(padded_sum(a, b, m), t, m) == (poly_eval(a, t, m) + poly_eval(b, t, m)) % m,
{
    let n = max_len(a, b) as int;
    let s = padded_sum(a, b, m);
    let pa = padded(a, n);
    let pb = padded(b, n);
    assert forall|i: int| 0 <= i < s.len() implies #[trigger] s[i] % m == (pa[i] + 1 * pb[i]) % m by {
        vstd::arithmetic::div_mod::lemma_mod_twice(pa[i] + pb[i], m);
    }
    lemma_horner_lincomb(s, pa, pb, 1, t, m);
    lemma_horner_padded(a, n, t);
    lemma_horner_padded(b, n, t);
    lemma_add_mod_noop(horner(a, t), horner(b, t), m);
}

/// `sub_assign` subtracts the polynomials: the result's value at every
/// point is the difference of their values.
pub proof fn lemma_sub_assign_evaluates(a: Seq<int>, b: Seq<int>, t: int, m: int)
    requires
        m > 0,
    ensures
        poly_eval(padded_difference(a, b, m), t, m) == (poly_eval(a, t, m) - poly_eval(b, t, m)) % m,
{
    let n = max_len(a, b) as int;
    let s = padded_difference(a, b, m);
    let pa = padded(a, n);
    let pb = padded(b, n);
    assert forall|i: int| 0 <= i < s.len() implies #[trigger] s[i] % m == (pa[i] + (-1) * pb[i]) % m by {
        vstd::arithmetic::div_mod::lemma_mod_twice(pa[i] - pb[i], m);
    }
    lemma_horner_lincomb(s, pa, pb, -1, t, m);
    lemma_horner_padded(a, n, t);
    lemma_horner_padded(b, n, t);
    lemma_sub_mod_noop(horner(a, t), horner(b, t), m);
}

/// `mul_assign(c)` scales the polynomial: the result's value at every point
/// is `c` times its value.
pub proof fn lemma_mul_assign_evaluates(a: Seq<int>, c: int, t: int, m: int)
    requires
        m > 0,
    ensures
        poly_eval(scaled(a, c, m), t, m) == (poly_eval(a, t, m) * c) % m,
{
    let s = scaled(a, c, m);
    let z = Seq::new(a.len(), |i: int| 0int);
    assert forall|i: int| 0 <= i < s.len() implies #[trigger] s[i] % m == (z[i] + c * a[i]) % m by {
        vstd::arithmetic::div_mod::lemma_mod_twice(a[i] * c, m);
        assert(a[i] * c == c * a[i]) by (nonlinear_arith);
    }
    lemma_horner_lincomb(s, z, a, c, t, m);
    lemma_horner_zeros(z, t);
    vstd::arithmetic::div_mod::lemma_mul_mod_noop_left(horner(a, t), c, m);
    assert(c * horner(a, t) == horner(a, t) * c) by (nonlinear_arith);
}

/// On values: the padded sum is commutative.
pub proof fn lemma_padded_sum_commutes(a: Seq<int>, b: Seq<int>, m: int)
    ensures
        padded_sum(a, b, m) == padded_sum(b, a, m),
{
    assert(padded_sum(a, b, m) =~= padded_sum(b, a, m));
}

/// On values: the padded difference of a sequence with itself is all
/// zeros.
pub proof fn lemma_padded_difference_self(a: Seq<int>, m: int)
    requires
        m > 0,
    ensures
        padded_difference(a, a, m) == Seq::new(a.len(), |i: int| 0int),
{
    assert forall|i: int| 0 <= i < a.len() implies #[trigger] padded_difference(a, a, m)[i] == 0 by {
        lemma_small_mod(0, m as nat);
    }
    assert(padded_difference(a, a, m) =~= Seq::new(a.len(), |i: int| 0int));
}

/// On values: scaling by `c1` and then by `c2` is scaling by their product.
pub proof fn lemma_scaled_twice(a: Seq<int>, c1: int, c2: int, m: int)
    requires
        m > 0,
    ensures
        scaled(scaled(a, c1, m), c2, m) == scaled(a, (c1 * c2) % m, m),
{
    assert forall|i: int| 0 <= i < a.len() implies #[trigger] scaled(scaled(a, c1, m), c2, m)[i] == scaled(a, (c1 * c2) % m, m)[i] by {
        let x = a[i];
        vstd::arithmetic::div_mod::lemma_mul_mod_noop_left(x * c1, c2, m);
        vstd::arithmetic::div_mod::lemma_mul_mod_noop_right(x, c1 * c2, m);
        assert((x * c1) * c2 == x * (c1 * c2)) by (nonlinear_arith);
    }
    assert(scaled(scaled(a, c1, m), c2, m) =~= scaled(a, (c1 * c2) % m, m));
}

/// On values: scaling distributes over the padded sum.
pub proof fn lemma_scaled_distributes(a: Seq<int>, b: Seq<int>, c: int, m: int)
    requires
        m > 0,
    ensures
        scaled(padded_sum(a, b, m), c, m) == padded_sum(scaled(a, c, m), scaled(b, c, m), m),
{
    let lhs = scaled(padded_sum(a, b, m), c, m);
    let rhs = padded_sum(scaled(a, c, m), scaled(b, c, m), m);
    assert forall|i: int| 0 <= i < lhs.len() implies #[trigger] lhs[i] == rhs[i] by {
        let x = coefficient_or_zero(a, i);
        let y = coefficient_or_zero(b, i);
        assert(coefficient_or_zero(scaled(a, c, m), i) == (x * c) % m) by {
            if i >= a.len() {
                lemma_small_mod(0, m as nat);
            }
        }
        assert(coefficient_or_zero(scaled(b, c, m), i) == (y * c) % m) by {
            if i >= b.len() {
                lemma_small_mod(0, m as nat);
            }
        }
        vstd::arithmetic::div_mod::lemma_mul_mod_noop_left(x + y, c, m);
        assert((x + y) * c == x * c + y * c) by (nonlinear_arith);
        lemma_add_mod_noop(x * c, y * c, m);
    }
    assert(lhs =~= rhs);
}

/// A result that keeps the terms of canonical `a` past the end of `b` and
/// has canonical terms elsewhere is canonical throughout.
proof fn lemma_kept_canonical<F: PrimeFieldElement>(a: Seq<F>, b: Seq<F>, r: Seq<F>)
    requires
        all_canonical(a),
        r.len() == max_len(values_of(a), values_of(b)),
        forall|i: int| 0 <= i < b.len() ==> #[trigger] r[i].is_canonical(),
        forall|i: int| b.len() <= i < a.len() ==> #[trigger] r[i] == a[i],
    ensures
        all_canonical(r),
{
    assert forall|i: int| 0 <= i < r.len() implies #[trigger] r[i].is_canonical() by {
        if i >= b.len() {
            assert(r[i] == a[i]);
        }
    }
}

/// Addition is commutative: `a += b` and `b += a` leave the same
/// coefficients.
pub proof fn lemma_add_commutes<F: PrimeFieldElement>(a: Seq<F>, b: Seq<F>, ab: Seq<F>, ba: Seq<F>)
    requires
        all_canonical(a),
        all_canonical(b),
        is_sum(a, b, ab),
        is_sum(b, a, ba),
    ensures
        ab == ba,
{
    lemma_padded_sum_commutes(values_of(a), values_of(b), F::order());
    lemma_kept_canonical(a, b, ab);
    lemma_kept_canonical(b, a, ba);
    lemma_same_values_same_elements(ab, ba);
}

/// Subtracting what was just added gives the polynomial back: after
/// `s = a; s += b` and `d = s; d -= b`, `d` holds the coefficients of `a`
/// followed by zeros up to the length of `b`; when `b` has no more terms
/// than `a`, `d` is `a`.
pub proof fn lemma_add_then_sub<F: PrimeFieldElement>(a: Seq<F>, b: Seq<F>, s: Seq<F>, d: Seq<F>)
    requires
        all_canonical(a),
        all_canonical(b),
        is_sum(a, b, s),
        is_difference(s, b, d),
    ensures
        d.len() == max_len(values_of(a), values_of(b)),
        d.subrange(0, a.len() as int) == a,
        forall|i: int| a.len() <= i < d.len() ==> #[trigger] d[i].value() == 0 && d[i].is_canonical(),
        b.len() <= a.len() ==> d == a,
{
    let m = F::order();
    F::lemma_value_bound(vstd::pervasive::arbitrary());
    lemma_values_in_field(a);
    lemma_values_in_field(b);
    lemma_padded_difference_undoes_sum(values_of(a), values_of(b), m);
    lemma_kept_canonical(a, b, s);
    lemma_kept_canonical(s, b, d);
    let va = values_of(a);
    assert(values_of(d) == padded(va, max_len(va, values_of(b)) as int));
    assert forall|i: int| 0 <= i < a.len() implies d[i] == a[i] by {
        assert(values_of(d)[i] == va[i]);
        F::lemma_canonical_unique(d[i], a[i]);
    }
    assert forall|i: int| a.len() <= i < d.len() implies #[trigger] d[i].value() == 0 && d[i].is_canonical() by {
        assert(values_of(d)[i] == 0);
    }
    assert(d.subrange(0, a.len() as int) =~= a);
    if b.len() <= a.len() {
        assert(d =~= a);
    }
}

/// Subtracting a polynomial from a copy of itself leaves as many zero
/// coefficients, each the canonical zero `z`.
pub proof fn lemma_sub_self<F: PrimeFieldElement>(a: Seq<F>, d: Seq<F>, z: F)
    requires
        all_canonical(a),
        is_difference(a, a, d),
        z.is_canonical(),
        z.value() == 0,
    ensures
        d == Seq::new(a.len(), |i: int| z),
{
    F::lemma_value_bound(z);
    lemma_padded_difference_self(values_of(a), F::order());
    let zs = Seq::new(a.len(), |i: int| z);
    assert forall|i: int| 0 <= i < d.len() implies d[i] == zs[i] by {
        assert(values_of(d)[i] == 0);
        F::lemma_canonical_unique(d[i], z);
    }
    assert(d =~= zs);
}

/// Scaling by `c1` and then by `c2` is scaling by their product `c12`.
pub proof fn lemma_scale_twice<F: PrimeFieldElement>(
    a: Seq<F>,
    c1: F,
    c2: F,
    c12: F,
    x1: Seq<F>,
    x: Seq<F>,
    y: Seq<F>,
)
    requires
        c12.value() == (c1.value() * c2.value()) % F::order(),
        is_scaled(a, c1, x1),
        is_scaled(x1, c2, x),
        is_scaled(a, c12, y),
    ensures
        x == y,
{
    F::lemma_value_bound(c1);
    lemma_scaled_twice(values_of(a), c1.value(), c2.value(), F::order());
    lemma_same_values_same_elements(x, y);
}

/// Scaling distributes over addition: `(a + b) * c` has the coefficients
/// of `a * c + b * c`.
pub proof fn lemma_scale_distributes<F: PrimeFieldElement>(
    a: Seq<F>,
    b: Seq<F>,
    c: F,
    s: Seq<F>,
    x: Seq<F>,
    sa: Seq<F>,
    sb: Seq<F>,
    y: Seq<F>,
)
    requires
        is_sum(a, b, s),
        is_scaled(s, c, x),
        is_scaled(a, c, sa),
        is_scaled(b, c, sb),
        is_sum(sa, sb, y),
    ensures
        x == y,
{
    F::lemma_value_bound(c);
    lemma_scaled_distributes(values_of(a), values_of(b), c.value(), F::order());
    lemma_kept_canonical(sa, sb, y);
    lemma_same_values_same_elements(x, y);
}

} // verus!
