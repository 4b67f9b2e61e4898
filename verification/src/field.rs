//! Elements of the two prime fields of BN254: the scalar field `Fr`
//! and the base field `Fq`.
//!
//! An element is held as four little-endian 64-bit limbs of its canonical
//! integer representative, below the field's order. The arithmetic itself
//! is done by `ark_bn254`; each call goes through a small wrapper whose
//! contract states the result modulo the field's order.

use vstd::prelude::*;
use ark_ff::{BigInt, BigInteger, Field, PrimeField};

verus! {

/// The integer that four little-endian 64-bit limbs stand for.
pub open spec fn limbs_val(l: [u64; 4]) -> int {
    l[0] as int + l[1] as int * 0x1_0000_0000_0000_0000int
        + l[2] as int * 0x1_0000_0000_0000_0000_0000_0000_0000_0000int
        + l[3] as int * 0x1_0000_0000_0000_0000_0000_0000_0000_0000_0000_0000_0000_0000int
}

/// The order `r` of the BN254 scalar field.
pub open spec fn fr_modulus() -> int {
    0x30644e72e131a029b85045b68181585d2833e84879b9709143e1f593f0000001int
}

/// The order `q` of the BN254 base field.
pub open spec fn fq_modulus() -> int {
    0x30644e72e131a029b85045b68181585d97816a916871ca8d3c208c16d87cfd47int
}

// ---------------------------------------------------------------------------
// Calls into ark_bn254 (trusted).
// ---------------------------------------------------------------------------

/// `ark_bn254::Fr::from_bigint`: it succeeds exactly on integers below `r`.
#[verifier::external_body]
fn ark_fr_from_bigint_is_some(a: [u64; 4]) -> (ok: bool)
    ensures
        ok == (limbs_val(a) < fr_modulus()),
{
    ark_bn254::Fr::from_bigint(BigInt(a)).is_some()
}

/// `ark_bn254::Fr` addition on canonical representatives: the sum modulo `r`.
#[verifier::external_body]
fn ark_fr_add(a: [u64; 4], b: [u64; 4]) -> (r: [u64; 4])
    requires
        limbs_val(a) < fr_modulus(),
        limbs_val(b) < fr_modulus(),
    ensures
        limbs_val(r) == (limbs_val(a) + limbs_val(b)) % fr_modulus(),
{
    let x = ark_bn254::Fr::from_bigint(BigInt(a)).unwrap();
    let y = ark_bn254::Fr::from_bigint(BigInt(b)).unwrap();
    (x + y).into_bigint().0
}

/// `ark_bn254::Fr` subtraction on canonical representatives: the difference
/// modulo `r`.
#[verifier::external_body]
fn ark_fr_sub(a: [u64; 4], b: [u64; 4]) -> (r: [u64; 4])
    requires
        limbs_val(a) < fr_modulus(),
        limbs_val(b) < fr_modulus(),
    ensures
        limbs_val(r) == (limbs_val(a) - limbs_val(b)) % fr_modulus(),
{
    let x = ark_bn254::Fr::from_bigint(BigInt(a)).unwrap();
    let y = ark_bn254::Fr::from_bigint(BigInt(b)).unwrap();
    (x - y).into_bigint().0
}

/// `ark_bn254::Fr` multiplication on canonical representatives: the product
/// modulo `r`. As `r` is prime, the product is zero only when a factor is.
#[verifier::external_body]
fn ark_fr_mul(a: [u64; 4], b: [u64; 4]) -> (r: [u64; 4])
    requires
        limbs_val(a) < fr_modulus(),
        limbs_val(b) < fr_modulus(),
    ensures
        limbs_val(r) == (limbs_val(a) * limbs_val(b)) % fr_modulus(),
        limbs_val(r) == 0 ==> limbs_val(a) == 0 || limbs_val(b) == 0,
{
    let x = ark_bn254::Fr::from_bigint(BigInt(a)).unwrap();
    let y = ark_bn254::Fr::from_bigint(BigInt(b)).unwrap();
    (x * y).into_bigint().0
}

/// `ark_bn254::Fr::inverse` on a canonical representative: `None` exactly for
/// zero, and otherwise an element whose product with the input is one
/// modulo `r`.
#[verifier::external_body]
fn ark_fr_inverse(a: [u64; 4]) -> (r: Option<[u64; 4]>)
    requires
        limbs_val(a) < fr_modulus(),
    ensures
        r is None <==> limbs_val(a) == 0,
        r matches Some(b) ==> limbs_val(b) < fr_modulus() && (limbs_val(a) * limbs_val(b))
            % fr_modulus() == 1,
{
    match ark_bn254::Fr::from_bigint(BigInt(a)).unwrap().inverse() {
        Some(b) => Some(b.into_bigint().0),
        None => None,
    }
}

/// `ark_bn254::Fq::from_bigint`: it succeeds exactly on integers below `q`.
#[verifier::external_body]
fn ark_fq_from_bigint_is_some(a: [u64; 4]) -> (ok: bool)
    ensures
        ok == (limbs_val(a) < fq_modulus()),
{
    ark_bn254::Fq::from_bigint(BigInt(a)).is_some()
}

/// `ark_bn254::Fq` addition on canonical representatives: the sum modulo `q`.
#[verifier::external_body]
fn ark_fq_add(a: [u64; 4], b: [u64; 4]) -> (r: [u64; 4])
    requires
        limbs_val(a) < fq_modulus(),
        limbs_val(b) < fq_modulus(),
    ensures
        limbs_val(r) == (limbs_val(a) + limbs_val(b)) % fq_modulus(),
{
    let x = ark_bn254::Fq::from_bigint(BigInt(a)).unwrap();
    let y = ark_bn254::Fq::from_bigint(BigInt(b)).unwrap();
    (x + y).into_bigint().0
}

/// `ark_bn254::Fq` subtraction on canonical representatives: the difference
/// modulo `q`.
#[verifier::external_body]
fn ark_fq_sub(a: [u64; 4], b: [u64; 4]) -> (r: [u64; 4])
    requires
        limbs_val(a) < fq_modulus(),
        limbs_val(b) < fq_modulus(),
    ensures
        limbs_val(r) == (limbs_val(a) - limbs_val(b)) % fq_modulus(),
{
    let x = ark_bn254::Fq::from_bigint(BigInt(a)).unwrap();
    let y = ark_bn254::Fq::from_bigint(BigInt(b)).unwrap();
    (x - y).into_bigint().0
}

/// `ark_bn254::Fq` multiplication on canonical representatives: the product
/// modulo `q`. As `q` is prime, the product is zero only when a factor is.
#[verifier::external_body]
fn ark_fq_mul(a: [u64; 4], b: [u64; 4]) -> (r: [u64; 4])
    requires
        limbs_val(a) < fq_modulus(),
        limbs_val(b) < fq_modulus(),
    ensures
        limbs_val(r) == (limbs_val(a) * limbs_val(b)) % fq_modulus(),
        limbs_val(r) == 0 ==> limbs_val(a) == 0 || limbs_val(b) == 0,
{
    let x = ark_bn254::Fq::from_bigint(BigInt(a)).unwrap();
    let y = ark_bn254::Fq::from_bigint(BigInt(b)).unwrap();
    (x * y).into_bigint().0
}

/// `ark_bn254::Fq::inverse` on a canonical representative: `None` exactly for
/// zero, and otherwise an element whose product with the input is one
/// modulo `q`.
#[verifier::external_body]
fn ark_fq_inverse(a: [u64; 4]) -> (r: Option<[u64; 4]>)
    requires
        limbs_val(a) < fq_modulus(),
    ensures
        r is None <==> limbs_val(a) == 0,
        r matches Some(b) ==> limbs_val(b) < fq_modulus() && (limbs_val(a) * limbs_val(b))
            % fq_modulus() == 1,
{
    match ark_bn254::Fq::from_bigint(BigInt(a)).unwrap().inverse() {
        Some(b) => Some(b.into_bigint().0),
        None => None,
    }
}

/// `ark_bn254::Fq::from_le_bytes_mod_order` applied to the little-endian
/// bytes of a 256-bit integer: that integer reduced modulo `q`.
#[verifier::external_body]
fn ark_fq_from_le_bytes_mod_order(a: [u64; 4]) -> (r: [u64; 4])
    ensures
        limbs_val(r) == limbs_val(a) % fq_modulus(),
{
    ark_bn254::Fq::from_le_bytes_mod_order(&BigInt(a).to_bytes_le()).into_bigint().0
}

// ---------------------------------------------------------------------------
// Prime-field arithmetic.
// ---------------------------------------------------------------------------

/// Elements of a prime field, with the arithmetic that polynomials over it
/// use. `value` is the element as an integer in `0..order()`, and every
/// operation states its result on values modulo `order()`.
pub trait PrimeFieldElement: Sized + Copy {
    /// The order of the field, a prime.
    spec fn order() -> int;

    /// The element as an integer in `0..order()`.
    spec fn value(&self) -> int;

    /// Every value lies in `0..order()`, and the order is above one.
    proof fn lemma_value_bound(a: Self)
        ensures
            1 < Self::order(),
            0 <= a.value() < Self::order(),
    ;

    /// Whether the element is held in its canonical form. Every operation
    /// below returns canonical elements, and so do the constructors of the
    /// fields in this crate.
    spec fn is_canonical(&self) -> bool;

    /// Canonical elements with the same value are the same element.
    proof fn lemma_canonical_unique(a: Self, b: Self)
        requires
            a.is_canonical(),
            b.is_canonical(),
            a.value() == b.value(),
        ensures
            a == b,
    ;

    /// The additive identity.
    fn zero() -> (r: Self)
        ensures
            r.value() == 0,
            r.is_canonical(),
    ;

    /// The multiplicative identity.
    fn one() -> (r: Self)
        ensures
            r.value() == 1,
            r.is_canonical(),
    ;

    /// Whether this is the zero element.
    fn is_zero(&self) -> (b: bool)
        ensures
            b == (self.value() == 0),
    ;

    /// The sum of two elements.
    fn add(&self, other: &Self) -> (r: Self)
        ensures
            r.value() == (self.value() + other.value()) % Self::order(),
            r.is_canonical(),
    ;

    /// The difference of two elements.
    fn sub(&self, other: &Self) -> (r: Self)
        ensures
            r.value() == (self.value() - other.value()) % Self::order(),
            r.is_canonical(),
    ;

    /// The product of two elements; it is zero only when a factor is.
    fn mul(&self, other: &Self) -> (r: Self)
        ensures
            r.value() == (self.value() * other.value()) % Self::order(),
            r.value() == 0 ==> self.value() == 0 || other.value() == 0,
            r.is_canonical(),
    ;

    /// The multiplicative inverse, or `None` for zero.
    fn inverse(&self) -> (r: Option<Self>)
        ensures
            r is None <==> self.value() == 0,
            r matches Some(b) ==> (self.value() * b.value()) % Self::order() == 1,
            r matches Some(b) ==> b.is_canonical(),
    ;
}

/// Equal limb values come from equal limbs.
proof fn lemma_limbs_val_injective(a: [u64; 4], b: [u64; 4])
    requires
        limbs_val(a) == limbs_val(b),
    ensures
        a == b,
{
    let w: int = 0x1_0000_0000_0000_0000;
    let a1 = a[1] + w * (a[2] + w * a[3]);
    let b1 = b[1] + w * (b[2] + w * b[3]);
    assert(limbs_val(a) == a[0] + w * a1) by (nonlinear_arith)
        requires
            w == 0x1_0000_0000_0000_0000,
            a1 == a[1] + w * (a[2] + w * a[3]),
            limbs_val(a) == a[0] + a[1] * 0x1_0000_0000_0000_0000int
                + a[2] * 0x1_0000_0000_0000_0000_0000_0000_0000_0000int
                + a[3] * 0x1_0000_0000_0000_0000_0000_0000_0000_0000_0000_0000_0000_0000int,
    ;
    assert(limbs_val(b) == b[0] + w * b1) by (nonlinear_arith)
        requires
            w == 0x1_0000_0000_0000_0000,
            b1 == b[1] + w * (b[2] + w * b[3]),
            limbs_val(b) == b[0] + b[1] * 0x1_0000_0000_0000_0000int
                + b[2] * 0x1_0000_0000_0000_0000_0000_0000_0000_0000int
                + b[3] * 0x1_0000_0000_0000_0000_0000_0000_0000_0000_0000_0000_0000_0000int,
    ;
    lemma_digit_split(a[0] as int, b[0] as int, a1, b1, w);
    lemma_digit_split(a[1] as int, b[1] as int, a[2] + w * a[3], b[2] + w * b[3], w);
    lemma_digit_split(a[2] as int, b[2] as int, a[3] as int, b[3] as int, w);
    assert(a =~= b);
}

/// Two base-`w` expansions with the low digit below `w` agree digit by
/// digit.
proof fn lemma_digit_split(x0: int, y0: int, x1: int, y1: int, w: int)
    requires
        0 <= x0 < w,
        0 <= y0 < w,
        x0 + w * x1 == y0 + w * y1,
    ensures
        x0 == y0,
        x1 == y1,
{
    assert(x0 - y0 == w * (y1 - x1)) by (nonlinear_arith)
        requires
            x0 + w * x1 == y0 + w * y1,
    ;
    if y1 != x1 {
        assert(w * (y1 - x1) >= w || w * (y1 - x1) <= -w) by (nonlinear_arith)
            requires
                y1 != x1,
                0 < w,
        ;
    }
}

// ---------------------------------------------------------------------------
// The scalar field.
// ---------------------------------------------------------------------------

/// An element of the BN254 scalar field.
#[derive(Clone, Copy, Debug, PartialEq, Eq, Structural)]
pub struct Fr {
    l0: u64,
    l1: u64,
    l2: u64,
    l3: u64,
}

impl Fr {
    /// The limbs of the representative, least significant first.
    pub closed spec fn spec_limbs(self) -> [u64; 4] {
        [self.l0, self.l1, self.l2, self.l3]
    }

    #[verifier::type_invariant]
    spec fn canonical(self) -> bool {
        limbs_val(self.spec_limbs()) < fr_modulus()
    }

    fn limbs(&self) -> (l: [u64; 4])
        ensures
            l == self.spec_limbs(),
    {
        [self.l0, self.l1, self.l2, self.l3]
    }

    fn from_canonical_limbs(l: [u64; 4]) -> (r: Fr)
        requires
            limbs_val(l) < fr_modulus(),
        ensures
            r.spec_limbs() == l,
    {
        Fr { l0: l[0], l1: l[1], l2: l[2], l3: l[3] }
    }
}

impl View for Fr {
    type V = int;

    /// The element as an integer in `0..r`.
    closed spec fn view(&self) -> int {
        limbs_val(self.spec_limbs()) % fr_modulus()
    }
}

impl Fr {
    /// Every element is below the field order.
    pub proof fn lemma_bound(a: Fr)
        ensures
            0 <= a@ < fr_modulus(),
    {
        vstd::arithmetic::div_mod::lemma_mod_bound(limbs_val(a.spec_limbs()), fr_modulus());
    }

    /// The element with the given small integer value.
    pub fn from_u64(v: u64) -> (r: Fr)
        ensures
            r@ == v,
            r.is_canonical(),
    {
        Fr { l0: v, l1: 0, l2: 0, l3: 0 }
    }

    /// The element whose canonical representative has the given little-endian
    /// limbs, or `None` when that integer is not below `r`.
    pub fn from_limbs(l: [u64; 4]) -> (r: Option<Fr>)
        ensures
            r is Some <==> limbs_val(l) < fr_modulus(),
            r matches Some(x) ==> x@ == limbs_val(l),
            r matches Some(x) ==> x.is_canonical(),
    {
        if ark_fr_from_bigint_is_some(l) {
            Some(Fr::from_canonical_limbs(l))
        } else {
            None
        }
    }

    /// The little-endian limbs of the canonical representative.
    pub fn to_limbs(&self) -> (l: [u64; 4])
        ensures
            limbs_val(l) == self@,
    {
        proof {
            use_type_invariant(self);
        }
        self.limbs()
    }
}

impl PrimeFieldElement for Fr {
    open spec fn order() -> int {
        fr_modulus()
    }

    open spec fn value(&self) -> int {
        self@
    }

    proof fn lemma_value_bound(a: Self) {
        Fr::lemma_bound(a);
    }

    open spec fn is_canonical(&self) -> bool {
        limbs_val(self.spec_limbs()) < fr_modulus()
    }

    proof fn lemma_canonical_unique(a: Fr, b: Fr) {
        vstd::arithmetic::div_mod::lemma_small_mod(limbs_val(a.spec_limbs()) as nat, fr_modulus() as nat);
        vstd::arithmetic::div_mod::lemma_small_mod(limbs_val(b.spec_limbs()) as nat, fr_modulus() as nat);
        lemma_limbs_val_injective(a.spec_limbs(), b.spec_limbs());
        assert(a.spec_limbs()[0] == b.spec_limbs()[0]);
        assert(a.spec_limbs()[1] == b.spec_limbs()[1]);
        assert(a.spec_limbs()[2] == b.spec_limbs()[2]);
        assert(a.spec_limbs()[3] == b.spec_limbs()[3]);
    }

    fn zero() -> (r: Fr) {
        Fr { l0: 0, l1: 0, l2: 0, l3: 0 }
    }

    fn one() -> (r: Fr) {
        Fr { l0: 1, l1: 0, l2: 0, l3: 0 }
    }

    fn is_zero(&self) -> (b: bool) {
        proof {
            use_type_invariant(self);
        }
        self.l0 == 0 && self.l1 == 0 && self.l2 == 0 && self.l3 == 0
    }

    fn add(&self, other: &Fr) -> (r: Fr) {
        proof {
            use_type_invariant(self);
            use_type_invariant(other);
        }
        Fr::from_canonical_limbs(ark_fr_add(self.limbs(), other.limbs()))
    }

    fn sub(&self, other: &Fr) -> (r: Fr) {
        proof {
            use_type_invariant(self);
            use_type_invariant(other);
        }
        let l = ark_fr_sub(self.limbs(), other.limbs());
        proof {
            vstd::arithmetic::div_mod::lemma_mod_bound(
                limbs_val(self.spec_limbs()) - limbs_val(other.spec_limbs()),
                fr_modulus(),
            );
        }
        Fr::from_canonical_limbs(l)
    }

    fn mul(&self, other: &Fr) -> (r: Fr) {
        proof {
            use_type_invariant(self);
            use_type_invariant(other);
        }
        Fr::from_canonical_limbs(ark_fr_mul(self.limbs(), other.limbs()))
    }

    fn inverse(&self) -> (r: Option<Fr>) {
        proof {
            use_type_invariant(self);
        }
        match ark_fr_inverse(self.limbs()) {
            Some(l) => Some(Fr::from_canonical_limbs(l)),
            None => None,
        }
    }
}

// ---------------------------------------------------------------------------
// The base field.
// ---------------------------------------------------------------------------

/// An element of the BN254 base field, over which the curve is defined.
#[derive(Clone, Copy, Debug, PartialEq, Eq, Structural)]
pub struct Fq {
    l0: u64,
    l1: u64,
    l2: u64,
    l3: u64,
}

impl Fq {
    /// The limbs of the representative, least significant first.
    pub closed spec fn spec_limbs(self) -> [u64; 4] {
        [self.l0, self.l1, self.l2, self.l3]
    }

    #[verifier::type_invariant]
    spec fn canonical(self) -> bool {
        limbs_val(self.spec_limbs()) < fq_modulus()
    }

    fn from_canonical_limbs(l: [u64; 4]) -> (r: Fq)
        requires
            limbs_val(l) < fq_modulus(),
        ensures
            r.spec_limbs() == l,
    {
        Fq { l0: l[0], l1: l[1], l2: l[2], l3: l[3] }
    }
}

impl View for Fq {
    type V = int;

    /// The element as an integer in `0..q`.
    closed spec fn view(&self) -> int {
        limbs_val(self.spec_limbs()) % fq_modulus()
    }
}

impl Fq {
    /// Every element is below the field order.
    pub proof fn lemma_bound(a: Fq)
        ensures
            0 <= a@ < fq_modulus(),
    {
        vstd::arithmetic::div_mod::lemma_mod_bound(limbs_val(a.spec_limbs()), fq_modulus());
    }

    /// The element with the given small integer value.
    pub fn from_u64(v: u64) -> (r: Fq)
        ensures
            r@ == v,
            r.is_canonical(),
    {
        Fq { l0: v, l1: 0, l2: 0, l3: 0 }
    }

    /// The element whose canonical representative has the given little-endian
    /// limbs, or `None` when that integer is not below `q`.
    pub fn from_limbs(l: [u64; 4]) -> (r: Option<Fq>)
        ensures
            r is Some <==> limbs_val(l) < fq_modulus(),
            r matches Some(x) ==> x@ == limbs_val(l),
            r matches Some(x) ==> x.is_canonical(),
    {
        if ark_fq_from_bigint_is_some(l) {
            Some(Fq::from_canonical_limbs(l))
        } else {
            None
        }
    }

    /// The element that a 256-bit integer, given by little-endian limbs,
    /// reduces to modulo `q`.
    pub fn from_limbs_mod_order(l: [u64; 4]) -> (r: Fq)
        ensures
            r@ == limbs_val(l) % fq_modulus(),
            r.is_canonical(),
    {
        Fq::from_canonical_limbs(ark_fq_from_le_bytes_mod_order(l))
    }

    /// The little-endian limbs of the canonical representative.
    pub fn to_limbs(&self) -> (l: [u64; 4])
        ensures
            limbs_val(l) == self@,
    {
        proof {
            use_type_invariant(self);
        }
        [self.l0, self.l1, self.l2, self.l3]
    }
}

impl Fq {
    fn limbs(&self) -> (l: [u64; 4])
        ensures
            l == self.spec_limbs(),
    {
        [self.l0, self.l1, self.l2, self.l3]
    }
}

impl PrimeFieldElement for Fq {
    open spec fn order() -> int {
        fq_modulus()
    }

    open spec fn value(&self) -> int {
        self@
    }

    proof fn lemma_value_bound(a: Self) {
        Fq::lemma_bound(a);
    }

    open spec fn is_canonical(&self) -> bool {
        limbs_val(self.spec_limbs()) < fq_modulus()
    }

    proof fn lemma_canonical_unique(a: Fq, b: Fq) {
        vstd::arithmetic::div_mod::lemma_small_mod(limbs_val(a.spec_limbs()) as nat, fq_modulus() as nat);
        vstd::arithmetic::div_mod::lemma_small_mod(limbs_val(b.spec_limbs()) as nat, fq_modulus() as nat);
        lemma_limbs_val_injective(a.spec_limbs(), b.spec_limbs());
        assert(a.spec_limbs()[0] == b.spec_limbs()[0]);
        assert(a.spec_limbs()[1] == b.spec_limbs()[1]);
        assert(a.spec_limbs()[2] == b.spec_limbs()[2]);
        assert(a.spec_limbs()[3] == b.spec_limbs()[3]);
    }

    fn zero() -> (r: Fq) {
        Fq { l0: 0, l1: 0, l2: 0, l3: 0 }
    }

    fn one() -> (r: Fq) {
        Fq { l0: 1, l1: 0, l2: 0, l3: 0 }
    }

    fn is_zero(&self) -> (b: bool) {
        proof {
            use_type_invariant(self);
        }
        self.l0 == 0 && self.l1 == 0 && self.l2 == 0 && self.l3 == 0
    }

    fn add(&self, other: &Fq) -> (r: Fq) {
        proof {
            use_type_invariant(self);
            use_type_invariant(other);
        }
        Fq::from_canonical_limbs(ark_fq_add(self.limbs(), other.limbs()))
    }

    fn sub(&self, other: &Fq) -> (r: Fq) {
        proof {
            use_type_invariant(self);
            use_type_invariant(other);
        }
        let l = ark_fq_sub(self.limbs(), other.limbs());
        proof {
            vstd::arithmetic::div_mod::lemma_mod_bound(
                limbs_val(self.spec_limbs()) - limbs_val(other.spec_limbs()),
                fq_modulus(),
            );
        }
        Fq::from_canonical_limbs(l)
    }

    fn mul(&self, other: &Fq) -> (r: Fq) {
        proof {
            use_type_invariant(self);
            use_type_invariant(other);
        }
        Fq::from_canonical_limbs(ark_fq_mul(self.limbs(), other.limbs()))
    }

    fn inverse(&self) -> (r: Option<Fq>) {
        proof {
            use_type_invariant(self);
        }
        match ark_fq_inverse(self.limbs()) {
            Some(l) => Some(Fq::from_canonical_limbs(l)),
            None => None,
        }
    }
}

} // verus!
