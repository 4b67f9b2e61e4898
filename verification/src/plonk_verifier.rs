//! The verifier of PLONK proofs: its state, and the checks and
//! bookkeeping that proof verification performs between its calls into
//! the transcript, the commitment scheme, multi-scalar multiplication and
//! the pairing.

use vstd::prelude::*;
use vstd::std_specs::iter::IteratorSpec;
use std::collections::HashMap;
use std::sync::Arc;
use crate::field::Fr;
use crate::curve::{G1Point, on_curve, lemma_on_curve_is_curve_equation};
use crate::field::fq_modulus;

verus! {

broadcast use vstd::std_specs::hash::group_hash_axioms;

/// The state a verifier keeps between proofs: the transcript manifest that
/// fixes the order of proof elements and challenges, the shared
/// verification key, and the commitment scheme, once one is set.
pub struct VerifierBase<M, K, S> {
    manifest: M,
    key: Arc<K>,
    commitment_scheme: Option<S>,
}

/// `Arc::clone`: another pointer to the same value.
#[verifier::external_body]
fn arc_clone<K>(a: &Arc<K>) -> (r: Arc<K>)
    ensures
        r == *a,
{
    Arc::clone(a)
}

impl<M, K, S> VerifierBase<M, K, S> {
    /// A verifier with the given manifest, key and commitment scheme.
    pub fn new(manifest: M, key: Arc<K>, commitment_scheme: Option<S>) -> (v: Self)
        ensures
            v.manifest() == manifest,
            v.key() == key,
            v.commitment_scheme() == commitment_scheme,
    {
        VerifierBase { manifest, key, commitment_scheme }
    }

    /// The transcript manifest.
    pub closed spec fn manifest(&self) -> M {
        self.manifest
    }

    /// The verification key.
    pub closed spec fn key(&self) -> Arc<K> {
        self.key
    }

    /// The commitment scheme, if set.
    pub closed spec fn commitment_scheme(&self) -> Option<S> {
        self.commitment_scheme
    }
}

impl<M: Clone, K, S: Clone> VerifierBase<M, K, S> {
    /// A verifier with a clone of `other`'s manifest and commitment scheme,
    /// sharing `other`'s verification key.
    pub fn from_other(other: &Self) -> (v: Self)
        ensures
            cloned(other.manifest(), v.manifest()),
            v.key() == other.key(),
            v.commitment_scheme() is Some <==> other.commitment_scheme() is Some,
            other.commitment_scheme() is Some ==> cloned(
                other.commitment_scheme().unwrap(),
                v.commitment_scheme().unwrap(),
            ),
    {
        VerifierBase {
            manifest: other.manifest.clone(),
            key: arc_clone(&other.key),
            commitment_scheme: other.commitment_scheme.clone(),
        }
    }
}

/// Whether an opening-proof group element is usable: on the curve and not
/// the point at infinity.
pub open spec fn valid_opening_point(p: G1Point) -> bool {
    on_curve(p) && !p.infinity
}

/// A usable opening-proof element is exactly a finite point whose
/// coordinates satisfy `y^2 = x^3 + 3` modulo `q`.
pub proof fn lemma_valid_opening_point_is_finite_curve_point(p: G1Point)
    ensures
        valid_opening_point(p) <==> !p.infinity && (p.y@ * p.y@) % fq_modulus() == (p.x@ * p.x@ * p.x@ + 3)
            % fq_modulus(),
{
    lemma_on_curve_is_curve_equation(p);
}

/// Checks the two opening-proof group elements `PI_Z` and `PI_Z_OMEGA` read
/// from a proof, and names the first one that is not a valid point.
pub fn check_opening_proof_points(pi_z: &G1Point, pi_z_omega: &G1Point) -> (res: Result<(), &'static str>)
    ensures
        res is Ok <==> valid_opening_point(*pi_z) && valid_opening_point(*pi_z_omega),
        !valid_opening_point(*pi_z) ==> (res matches Err(e) && e@
            == "opening proof group element PI_Z not a valid point"@),
        valid_opening_point(*pi_z) && !valid_opening_point(*pi_z_omega) ==> (res matches Err(e)
            && e@ == "opening proof group element PI_Z_OMEGA not a valid point"@),
{
    if !pi_z.is_on_curve() || pi_z.is_point_at_infinity() {
        return Err("opening proof group element PI_Z not a valid point");
    }
    if !pi_z_omega.is_on_curve() || pi_z_omega.is_point_at_infinity() {
        return Err("opening proof group element PI_Z_OMEGA not a valid point");
    }
    Ok(())
}

/// The checks that come before the multi-scalar multiplication, in order:
/// a failure of the commitment scheme's batch verification is passed on
/// first, then `PI_Z` and then `PI_Z_OMEGA` are checked.
pub fn check_before_pairing(
    batch_verification: Result<(), &'static str>,
    pi_z: &G1Point,
    pi_z_omega: &G1Point,
) -> (res: Result<(), &'static str>)
    ensures
        batch_verification is Err ==> res == batch_verification,
        batch_verification is Ok ==> (res is Ok <==> valid_opening_point(*pi_z) && valid_opening_point(*pi_z_omega)),
        batch_verification is Ok && !valid_opening_point(*pi_z) ==> (res matches Err(e) && e@
            == "opening proof group element PI_Z not a valid point"@),
        batch_verification is Ok && valid_opening_point(*pi_z) && !valid_opening_point(*pi_z_omega) ==> (
        res matches Err(e) && e@ == "opening proof group element PI_Z_OMEGA not a valid point"@),
{
    match batch_verification {
        Err(e) => Err(e),
        Ok(()) => check_opening_proof_points(pi_z, pi_z_omega),
    }
}

/// The scalar and point pairs that enter the multi-scalar multiplication,
/// in the order of `entries`: each keyed group element that is a valid
/// point and has a scalar under the same key, with that scalar.
pub open spec fn scalar_multiplication_inputs(entries: Seq<(u64, G1Point)>, scalars: Map<u64, Fr>) -> Seq<(Fr, G1Point)>
    decreases entries.len(),
{
    if entries.len() == 0 {
        Seq::empty()
    } else {
        let rest = scalar_multiplication_inputs(entries.drop_last(), scalars);
        let e = entries.last();
        if valid_opening_point(e.1) && scalars.contains_key(e.0) {
            rest.push((scalars[e.0], e.1))
        } else {
            rest
        }
    }
}

/// Every pair that enters the multi-scalar multiplication comes from an
/// entry with a valid point and the scalar stored under that entry's key,
/// and there are no more pairs than entries.
pub proof fn lemma_scalar_multiplication_inputs_sound(entries: Seq<(u64, G1Point)>, scalars: Map<u64, Fr>)
    ensures
        scalar_multiplication_inputs(entries, scalars).len() <= entries.len(),
        forall|i: int| 0 <= i < scalar_multiplication_inputs(entries, scalars).len() ==> {
            let pair = #[trigger] scalar_multiplication_inputs(entries, scalars)[i];
            &&& valid_opening_point(pair.1)
            &&& exists|j: int| 0 <= j < entries.len() && entries[j].1 == pair.1 && scalars.contains_key(
                entries[j].0,
            ) && scalars[entries[j].0] == pair.0
        },
    decreases entries.len(),
{
    if entries.len() > 0 {
        let rest_entries = entries.drop_last();
        lemma_scalar_multiplication_inputs_sound(rest_entries, scalars);
        let rest = scalar_multiplication_inputs(rest_entries, scalars);
        let all = scalar_multiplication_inputs(entries, scalars);
        assert forall|i: int| 0 <= i < all.len() implies {
            let pair = #[trigger] all[i];
            &&& valid_opening_point(pair.1)
            &&& exists|j: int| 0 <= j < entries.len() && entries[j].1 == pair.1 && scalars.contains_key(
                entries[j].0,
            ) && scalars[entries[j].0] == pair.0
        } by {
            if i < rest.len() {
                assert(all[i] == rest[i]);
                let j = choose|j: int| 0 <= j < rest_entries.len() && rest_entries[j].1 == rest[i].1
                    && scalars.contains_key(rest_entries[j].0) && scalars[rest_entries[j].0] == rest[i].0;
                assert(entries[j] == rest_entries[j]);
            } else {
                let j = entries.len() - 1;
                assert(entries[j] == entries.last());
            }
        }
    }
}

/// The positions in `entries` that the pairs come from, in order.
proof fn collected_positions(entries: Seq<(u64, G1Point)>, scalars: Map<u64, Fr>) -> (js: Seq<int>)
    ensures
        js.len() == scalar_multiplication_inputs(entries, scalars).len(),
        forall|i: int, j: int| 0 <= i < j < js.len() ==> js[i] < js[j],
        forall|i: int| #![trigger js[i]] 0 <= i < js.len() ==> {
            &&& 0 <= js[i] < entries.len()
            &&& valid_opening_point(entries[js[i]].1)
            &&& scalars.contains_key(entries[js[i]].0)
            &&& scalar_multiplication_inputs(entries, scalars)[i] == (scalars[entries[js[i]].0], entries[js[i]].1)
        },
        forall|j: int| 0 <= j < entries.len() && valid_opening_point((#[trigger] entries[j]).1)
            && scalars.contains_key(entries[j].0) ==> exists|i: int| 0 <= i < js.len() && js[i] == j,
    decreases entries.len(),
{
    if entries.len() == 0 {
        Seq::empty()
    } else {
        let rest = entries.drop_last();
        let n = entries.len() - 1;
        let js0 = collected_positions(rest, scalars);
        assert forall|i: int| 0 <= i < js0.len() implies entries[js0[i]] == rest[js0[i]] by {}
        assert(entries[n] == entries.last());
        if valid_opening_point(entries.last().1) && scalars.contains_key(entries.last().0) {
            let js = js0.push(n);
            assert forall|j: int| 0 <= j < entries.len() && valid_opening_point((#[trigger] entries[j]).1)
                && scalars.contains_key(entries[j].0) implies exists|i: int| 0 <= i < js.len() && js[i] == j by {
                if j < n {
                    assert(rest[j] == entries[j]);
                    let i = choose|i: int| 0 <= i < js0.len() && js0[i] == j;
                    assert(js[i] == j);
                } else {
                    assert(js[js0.len() as int] == j);
                }
            }
            js
        } else {
            assert forall|j: int| 0 <= j < entries.len() && valid_opening_point((#[trigger] entries[j]).1)
                && scalars.contains_key(entries[j].0) implies exists|i: int| 0 <= i < js0.len() && js0[i] == j by {
                assert(j != n);
                assert(rest[j] == entries[j]);
            }
            js0
        }
    }
}

/// Nothing is lost or invented: the pairs are, in the order of `entries`,
/// exactly one `(scalars[key], point)` for each entry whose point is usable
/// and whose key has a scalar, taken at increasing positions `js`, and for
/// no other entry. Equal pairs from different entries each appear.
pub proof fn lemma_scalar_multiplication_inputs_complete(entries: Seq<(u64, G1Point)>, scalars: Map<u64, Fr>)
    ensures
        exists|js: Seq<int>|
            #![trigger js.len()]
            {
                &&& js.len() == scalar_multiplication_inputs(entries, scalars).len()
                &&& forall|i: int, j: int| 0 <= i < j < js.len() ==> js[i] < js[j]
                &&& forall|i: int| #![trigger js[i]] 0 <= i < js.len() ==> {
                    &&& 0 <= js[i] < entries.len()
                    &&& valid_opening_point(entries[js[i]].1)
                    &&& scalars.contains_key(entries[js[i]].0)
                    &&& scalar_multiplication_inputs(entries, scalars)[i] == (scalars[entries[js[i]].0], entries[js[i]].1)
                }
                &&& forall|j: int| 0 <= j < entries.len() && valid_opening_point((#[trigger] entries[j]).1)
                    && scalars.contains_key(entries[j].0) ==> exists|i: int| 0 <= i < js.len() && js[i] == j
            },
{
    let js = collected_positions(entries, scalars);
}

/// Whether `walk` lists the entries of the map `m`, each exactly once, in
/// some order.
pub open spec fn lists_entries(walk: Seq<(u64, G1Point)>, m: Map<u64, G1Point>) -> bool {
    &&& walk.len() == m.dom().len()
    &&& forall|i: int| 0 <= i < walk.len() ==> m.contains_key(#[trigger] walk[i].0) && m[walk[i].0] == walk[i].1
    &&& forall|i: int, j: int| 0 <= i < j < walk.len() ==> #[trigger] walk[i].0 != #[trigger] walk[j].0
    &&& forall|k: u64| #[trigger] m.contains_key(k) ==> exists|i: int| 0 <= i < walk.len() && #[trigger] walk[i].0 == k
}

/// Whatever order a walk lists the entries of `g1` in, what is collected
/// along it has one pair per entry with a usable point and a scalar under
/// its key, and no other: the keys `ks` the pairs come from are distinct,
/// and every such key is among them.
pub proof fn lemma_listing_collects_each_valid_key(walk: Seq<(u64, G1Point)>, g1: Map<u64, G1Point>, fr: Map<u64, Fr>)
    requires
        lists_entries(walk, g1),
    ensures
        exists|ks: Seq<u64>|
            #![trigger ks.no_duplicates()]
            {
                &&& ks.no_duplicates()
                &&& ks.len() == scalar_multiplication_inputs(walk, fr).len()
                &&& forall|i: int| #![trigger ks[i]] 0 <= i < ks.len() ==> {
                    &&& g1.contains_key(ks[i])
                    &&& valid_opening_point(g1[ks[i]])
                    &&& fr.contains_key(ks[i])
                    &&& scalar_multiplication_inputs(walk, fr)[i] == (fr[ks[i]], g1[ks[i]])
                }
                &&& forall|k: u64| #[trigger] g1.contains_key(k) && valid_opening_point(g1[k]) && fr.contains_key(k)
                    ==> ks.contains(k)
            },
{
    let out = scalar_multiplication_inputs(walk, fr);
    let js = collected_positions(walk, fr);
    let ks = Seq::new(js.len(), |i: int| walk[js[i]].0);
    assert forall|i: int, j: int| 0 <= i < ks.len() && 0 <= j < ks.len() && i != j implies ks[i] != ks[j] by {
        if i < j {
            assert(walk[js[i]].0 != walk[js[j]].0);
        } else {
            assert(walk[js[j]].0 != walk[js[i]].0);
        }
    }
    assert forall|i: int| #![trigger ks[i]] 0 <= i < ks.len() implies {
        &&& g1.contains_key(ks[i])
        &&& valid_opening_point(g1[ks[i]])
        &&& fr.contains_key(ks[i])
        &&& out[i] == (fr[ks[i]], g1[ks[i]])
    } by {
        let e = walk[js[i]];
        assert(g1.contains_key(e.0) && g1[e.0] == e.1);
    }
    assert forall|k: u64| #[trigger] g1.contains_key(k) && valid_opening_point(g1[k]) && fr.contains_key(k)
        implies ks.contains(k) by {
        let p = choose|p: int| 0 <= p < walk.len() && #[trigger] walk[p].0 == k;
        assert(g1[walk[p].0] == walk[p].1);
        assert(walk[p] == (k, g1[k]));
        let i = choose|i: int| 0 <= i < js.len() && js[i] == p;
        assert(ks[i] == k);
    }
    assert(ks.no_duplicates());
}

/// Gathers the inputs of the multi-scalar multiplication from the group
/// elements and scalars that the commitment scheme produced, both keyed by
/// the same labels. The group elements are walked in the map's own order;
/// for each that is a valid point and has a scalar, the scalar goes to the
/// first vector and the point to the second. Whatever order the walk takes,
/// the result is that of some listing of the map's entries.
pub fn collect_scalar_multiplication_inputs(
    g1_elements: &HashMap<u64, G1Point>,
    fr_elements: &HashMap<u64, Fr>,
) -> (res: (Vec<Fr>, Vec<G1Point>))
    ensures
        exists|walk: Seq<(u64, G1Point)>| {
            &&& lists_entries(walk, g1_elements@)
            &&& res.0.len() == scalar_multiplication_inputs(walk, fr_elements@).len()
            &&& res.1.len() == res.0.len()
            &&& forall|i: int|
                #![trigger res.0@[i]]
                #![trigger res.1@[i]]
                0 <= i < res.0.len() ==> {
                    &&& res.0@[i] == scalar_multiplication_inputs(walk, fr_elements@)[i].0
                    &&& res.1@[i] == scalar_multiplication_inputs(walk, fr_elements@)[i].1
                }
        },
        exists|ks: Seq<u64>|
            #![trigger ks.no_duplicates()]
            {
                &&& ks.no_duplicates()
                &&& ks.len() == res.0.len()
                &&& ks.len() == res.1.len()
                &&& forall|i: int| #![trigger ks[i]] 0 <= i < ks.len() ==> {
                    &&& g1_elements@.contains_key(ks[i])
                    &&& valid_opening_point(g1_elements@[ks[i]])
                    &&& fr_elements@.contains_key(ks[i])
                    &&& res.0@[i] == fr_elements@[ks[i]]
                    &&& res.1@[i] == g1_elements@[ks[i]]
                }
                &&& forall|k: u64| #[trigger] g1_elements@.contains_key(k) && valid_opening_point(g1_elements@[k])
                    && fr_elements@.contains_key(k) ==> ks.contains(k)
            },
{
    let mut scalars: Vec<Fr> = Vec::new();
    let mut elements: Vec<G1Point> = Vec::new();
    let ghost seen = vstd::std_specs::hash::spec_hash_map_iter(g1_elements).remaining();
    let ghost walk = seen.map_values(|p: (&u64, &G1Point)| (*p.0, *p.1));
    for (key, element) in it: g1_elements.iter()
        invariant
            it.seq() == seen,
            walk == seen.map_values(|p: (&u64, &G1Point)| (*p.0, *p.1)),
            scalars@ == scalar_multiplication_inputs(walk.take(it.index() as int), fr_elements@).map_values(|p: (Fr, G1Point)| p.0),
            elements@ == scalar_multiplication_inputs(walk.take(it.index() as int), fr_elements@).map_values(|p: (Fr, G1Point)| p.1),
    {
        let ghost i = it.index() as int;
        let ghost prev = scalar_multiplication_inputs(walk.take(i), fr_elements@);
        let ghost cur = scalar_multiplication_inputs(walk.take(i + 1), fr_elements@);
        let key = *key;
        let element = *element;
        proof {
            assert(walk.take(i + 1).drop_last() =~= walk.take(i));
            assert(walk.take(i + 1).last() == walk[i]);
            assert(walk[i] == (key, element));
        }
        if element.is_on_curve() && !element.is_point_at_infinity() {
            match fr_elements.get(&key) {
                Some(scalar) => {
                    proof {
                        assert(fr_elements@.contains_key(key));
                        assert(fr_elements@[key] == *scalar);
                        assert(cur == prev.push((*scalar, element)));
                    }
                    scalars.push(*scalar);
                    elements.push(element);
                },
                None => {
                    proof {
                        assert(!fr_elements@.contains_key(key));
                        assert(cur == prev);
                    }
                },
            }
        } else {
            proof {
                assert(cur == prev);
            }
        }
        proof {
            assert(scalars@ =~= cur.map_values(|p: (Fr, G1Point)| p.0));
            assert(elements@ =~= cur.map_values(|p: (Fr, G1Point)| p.1));
        }
    }
    proof {
        let m = g1_elements@;
        assert(walk.take(walk.len() as int) =~= walk);
        assert(seen.no_duplicates());
        assert forall|i: int| 0 <= i < walk.len() implies m.contains_key(#[trigger] walk[i].0) && m[walk[i].0] == walk[i].1 by {
            assert(m.contains_key(*seen[i].0));
        }
        assert forall|i: int, j: int| 0 <= i < j < walk.len() implies #[trigger] walk[i].0 != #[trigger] walk[j].0 by {
            if walk[i].0 == walk[j].0 {
                assert(m.contains_key(*seen[i].0) && m.contains_key(*seen[j].0));
                assert(seen[i] == seen[j]);
            }
        }
        assert forall|k: u64| #[trigger] m.contains_key(k) implies exists|i: int| 0 <= i < walk.len() && #[trigger] walk[i].0 == k by {
            assert(seen.contains((&k, &m[k])));
            let i = choose|i: int| 0 <= i < seen.len() && seen[i] == (&k, &m[k]);
            assert(walk[i].0 == k);
        }
        assert(lists_entries(walk, m));
        lemma_listing_collects_each_valid_key(walk, m, fr_elements@);
    }
    let ghost out = scalar_multiplication_inputs(walk, fr_elements@);
    let ghost ks = choose|ks: Seq<u64>|
        #![trigger ks.no_duplicates()]
        {
            &&& ks.no_duplicates()
            &&& ks.len() == out.len()
            &&& forall|i: int| #![trigger ks[i]] 0 <= i < ks.len() ==> {
                &&& g1_elements@.contains_key(ks[i])
                &&& valid_opening_point(g1_elements@[ks[i]])
                &&& fr_elements@.contains_key(ks[i])
                &&& out[i] == (fr_elements@[ks[i]], g1_elements@[ks[i]])
            }
            &&& forall|k: u64| #[trigger] g1_elements@.contains_key(k) && valid_opening_point(g1_elements@[k]) && fr_elements@.contains_key(k)
                ==> ks.contains(k)
        };
    let res = (scalars, elements);
    proof {
        assert forall|i: int| #![trigger ks[i]] 0 <= i < ks.len() implies {
            &&& res.0@[i] == fr_elements@[ks[i]]
            &&& res.1@[i] == g1_elements@[ks[i]]
        } by {
            assert(res.0@[i] == out[i].0);
            assert(res.1@[i] == out[i].1);
        }
        assert(ks.no_duplicates());
    }
    res
}

/// Doubles the length of `elements`, filling the new half with the point at
/// infinity: the room that the Pippenger point table is built in.
pub fn resize_for_pippenger_table(elements: &mut Vec<G1Point>)
    requires
        2 * old(elements).len() <= usize::MAX,
    ensures
        final(elements).len() == 2 * old(elements).len(),
        forall|i: int| 0 <= i < old(elements).len() ==> #[trigger] final(elements)@[i] == old(elements)@[i],
        forall|i: int| old(elements).len() <= i < final(elements).len() ==> {
            &&& #[trigger] final(elements)@[i].infinity
            &&& final(elements)@[i].x@ == 0
            &&& final(elements)@[i].y@ == 0
        },
{
    let n = elements.len();
    let mut i: usize = 0;
    while i < n
        invariant
            i <= n,
            n == old(elements).len(),
            elements.len() == n + i,
            2 * n <= usize::MAX,
            forall|j: int| 0 <= j < n ==> #[trigger] elements@[j] == old(elements)@[j],
            forall|j: int| n <= j < n + i ==> {
                &&& #[trigger] elements@[j].infinity
                &&& elements@[j].x@ == 0
                &&& elements@[j].y@ == 0
            },
        decreases n - i,
    {
        elements.push(G1Point::identity());
        i += 1;
    }
}

} // verus!
