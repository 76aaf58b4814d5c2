//! What reading variables off the bits of a constant finds.
use vstd::arithmetic::div_mod::*;
use vstd::arithmetic::power2::*;
use vstd::prelude::*;

use crate::bits::{exponent_of, lemma_exponent_unique, submask};
use crate::decomposition::{
    bits_of, candidate_wf, lemma_bits_determined, lemma_bits_small, lemma_decomposition,
    lemma_shifted_sum, lemma_unshifted, negative_bits, shifted, unsigned,
};
use crate::effect::{Component, Consequence};
use crate::field::field_mul;
use crate::laws::{
    bits_read, field_order, lemma_assignments_complete, lemma_bitwise_solution, lemma_occurrences,
    lemma_parts, lemma_terms, occurrences, parts, ranges_match, separable, terms,
};
use crate::modular::lemma_small;
use crate::outcomes::absolute;
use crate::quadratic::Quadratic;
use crate::range_constraint::{lemma_wrap, Range};
use crate::solution::{
    affine_solution, assignments, candidate, candidates, components, covered, decomposable,
    decomposes, decomposition, fits, magnitude, mask_of, may_wrap, separate, solution, unshifted,
    Candidate, Error, Solution,
};
use crate::sorting::{
    arranged, inserted, lemma_sorted_all, lemma_sorted_arranged, lemma_sorted_by,
    lemma_sorted_member, lemma_sorted_total, sorted_by, total,
};
use crate::symbolic_expression::{assigns, lemma_value_bound, Symbolic};
use crate::variable::Variable;

verus! {

/// The number is a power of two.
pub open spec fn is_power(n: int) -> bool {
    exists|e: nat| #[trigger] pow2(e) == n
}

/// The coefficient is a number whose distance from zero is a power of two.
pub open spec fn shifts<K>(p: int, c: Symbolic<K>) -> bool {
    c is Concrete && is_power(absolute(p, c->Concrete_0))
}

/// The bits that a variable can have when it is multiplied by the distance of its coefficient
/// from zero.
pub open spec fn term_mask<K>(p: int, c: Symbolic<K>, r: Range) -> u64 {
    r.multiple(p, absolute(p, c->Concrete_0)).mask
}

/// The sum of the masks of all terms.
pub open spec fn mask_total<K>(p: int, t: Seq<(K, Symbolic<K>)>, ranges: Seq<Range>) -> int
    decreases t.len(),
{
    if t.len() == 0 {
        0
    } else {
        mask_total(p, t.drop_last(), ranges) + term_mask(p, t.last().1, ranges[t.len() - 1])
    }
}

/// The masks of two terms share a bit.
pub open spec fn overlapping<K>(p: int, t: Seq<(K, Symbolic<K>)>, ranges: Seq<Range>) -> bool {
    exists|i: int, j: int|
        0 <= i < j < t.len() && term_mask(p, (#[trigger] t[i]).1, ranges[i]) & term_mask(
            p,
            (#[trigger] t[j]).1,
            ranges[j],
        ) != 0
}

/// All coefficients are powers of two up to the sign, no two masks share a bit, and together
/// they are below the modulus.
pub open spec fn readable<K>(p: int, t: Seq<(K, Symbolic<K>)>, ranges: Seq<Range>) -> bool {
    &&& forall|i: int| 0 <= i < t.len() ==> shifts(p, (#[trigger] t[i]).1)
    &&& !overlapping(p, t, ranges)
    &&& mask_total(p, t, ranges) < p
}

/// The candidate is the term with the range.
spec fn stands_for<K>(
    p: int,
    d: Candidate<K>,
    k: K,
    c: Symbolic<K>,
    r: Range,
) -> bool {
    &&& d.variable == k
    &&& d.range == r
    &&& pow2(d.exponent) == absolute(p, c->Concrete_0)
    &&& d.is_negative == (c->Concrete_0 < p - c->Concrete_0)
    &&& mask_of(p, d) == term_mask(p, c, r)
    &&& may_wrap(p, d) == (r.bound() * absolute(p, c->Concrete_0) >= p)
}

proof fn lemma_candidate_exact<K>(p: int, k: K, c: Symbolic<K>, r: Range)
    requires
        field_order(p),
        c.wf(p),
        c != Symbolic::<K>::Concrete(0),
    ensures
        candidate(p, k, c, r) is Some <==> shifts(p, c),
        candidate(p, k, c, r) matches Some(d) ==> stands_for(p, d, k, c, r),
{
    if let Symbolic::Concrete(n) = c {
        assert(p % 2 != 0);
        lemma_wrap(p, -n);
        assert(magnitude(p, n) == absolute(p, n));
        let m = absolute(p, n);
        if is_power(m) {
            let e = choose|e: nat| #[trigger] pow2(e) == m;
            lemma_exponent_unique(m, e);
        }
        if exponent_of(m) is Some {
            let e = choose|e: nat| #[trigger] pow2(e) == m;
            assert(pow2(e) == m);
            lemma_exponent_unique(m, e);
        }
    }
}

proof fn lemma_covered_disjoint<K>(p: int, s: Seq<Candidate<K>>, x: u64)
    ensures
        x & covered(p, s) == 0 <==> forall|i: int|
            0 <= i < s.len() ==> x & mask_of(p, #[trigger] s[i]) == 0,
    decreases s.len(),
{
    if s.len() > 0 {
        let d = s.drop_last();
        let a = covered(p, d);
        let m = mask_of(p, s.last());
        lemma_covered_disjoint(p, d, x);
        assert(x & (a | m) == 0 <==> x & a == 0 && x & m == 0) by (bit_vector);
        assert(s[s.len() - 1] == s.last());
        if x & covered(p, s) == 0 {
            assert forall|i: int| 0 <= i < s.len() implies x & mask_of(p, #[trigger] s[i]) == 0 by {
                if i < s.len() - 1 {
                    assert(d[i] == s[i]);
                }
            }
        }
        if forall|i: int| 0 <= i < s.len() ==> x & mask_of(p, #[trigger] s[i]) == 0 {
            assert forall|i: int| 0 <= i < d.len() implies x & mask_of(p, #[trigger] d[i]) == 0 by {
                assert(d[i] == s[i]);
            }
        }
    } else {
        assert(x & 0 == 0) by (bit_vector);
    }
}

/// No two candidates of the list share a bit.
spec fn disjoint<K>(p: int, s: Seq<Candidate<K>>) -> bool {
    forall|i: int, j: int|
        0 <= i < j < s.len() ==> mask_of(p, #[trigger] s[i]) & mask_of(p, #[trigger] s[j]) == 0
}

proof fn lemma_separate_disjoint<K>(p: int, s: Seq<Candidate<K>>)
    ensures
        separate(p, s) <==> disjoint(p, s),
        separate(p, s) ==> covered(p, s) == total(s, |c: Candidate<K>| mask_of(p, c) as int),
    decreases s.len(),
{
    if s.len() > 0 {
        let d = s.drop_last();
        let n = s.len() - 1;
        let m = mask_of(p, s.last());
        let a = covered(p, d);
        lemma_separate_disjoint(p, d);
        lemma_covered_disjoint(p, d, m);
        assert(s[n] == s.last());
        assert forall|i: int| 0 <= i < d.len() implies #[trigger] d[i] == s[i] by {
        }
        if separate(p, s) {
            assert(a | m == a + m) by (bit_vector)
                requires
                    m & a == 0,
            ;
            assert forall|i: int, j: int| 0 <= i < j < s.len() implies mask_of(p, #[trigger] s[i])
                & mask_of(p, #[trigger] s[j]) == 0 by {
                assert(d[i] == s[i]);
                if j < n {
                    assert(d[j] == s[j]);
                } else {
                    let x = mask_of(p, s[i]);
                    assert(m & mask_of(p, d[i]) == 0);
                    assert(x & m == m & x) by (bit_vector);
                }
            }
        }
        if disjoint(p, s) {
            assert forall|i: int, j: int| 0 <= i < j < d.len() implies mask_of(p, #[trigger] d[i])
                & mask_of(p, #[trigger] d[j]) == 0 by {
                assert(d[i] == s[i] && d[j] == s[j]);
            }
            assert forall|i: int| 0 <= i < d.len() implies m & mask_of(p, #[trigger] d[i]) == 0 by {
                let x = mask_of(p, s[i]);
                assert(mask_of(p, s[i]) & mask_of(p, s[n]) == 0);
                assert(x & m == m & x) by (bit_vector);
            }
        }
    }
}

proof fn lemma_inserted_masks<K>(
    p: int,
    s: Seq<Candidate<K>>,
    a: Candidate<K>,
    key: spec_fn(Candidate<K>) -> int,
)
    ensures
        covered(p, inserted(s, a, key)) == covered(p, s) | mask_of(p, a),
        separate(p, inserted(s, a, key)) == (separate(p, s) && mask_of(p, a) & covered(p, s) == 0),
    decreases s.len(),
{
    let r = inserted(s, a, key);
    if s.len() == 0 || key(s.last()) <= key(a) {
        assert(r.drop_last() =~= s);
        assert(r.last() == a);
    } else {
        let d = s.drop_last();
        let q = inserted(d, a, key);
        lemma_inserted_masks(p, d, a, key);
        assert(r.drop_last() =~= q);
        assert(r.last() == s.last());
        let c = covered(p, d);
        let m = mask_of(p, s.last());
        let x = mask_of(p, a);
        assert((c | x) | m == (c | m) | x) by (bit_vector);
        assert((x & c == 0 && m & (c | x) == 0) <==> (m & c == 0 && x & (c | m) == 0))
            by (bit_vector);
    }
}

proof fn lemma_sorted_masks<K>(
    p: int,
    s: Seq<Candidate<K>>,
    key: spec_fn(Candidate<K>) -> int,
)
    ensures
        covered(p, sorted_by(s, key)) == covered(p, s),
        separate(p, sorted_by(s, key)) == separate(p, s),
    decreases s.len(),
{
    if s.len() > 0 {
        lemma_sorted_masks(p, s.drop_last(), key);
        lemma_inserted_masks(p, sorted_by(s.drop_last(), key), s.last(), key);
    }
}

proof fn lemma_mask_total<K>(
    p: int,
    t: Seq<(K, Symbolic<K>)>,
    ranges: Seq<Range>,
    c: Seq<Candidate<K>>,
)
    requires
        t.len() == c.len(),
        forall|i: int|
            #![trigger t[i]]
            0 <= i < t.len() ==> stands_for(p, c[i], t[i].0, t[i].1, ranges[i]),
    ensures
        mask_total(p, t, ranges) == total(c, |d: Candidate<K>| mask_of(p, d) as int),
    decreases t.len(),
{
    if t.len() > 0 {
        let d = t.drop_last();
        let e = c.drop_last();
        assert forall|i: int| #![trigger d[i]] 0 <= i < d.len() implies stands_for(
            p,
            e[i],
            d[i].0,
            d[i].1,
            ranges[i],
        ) by {
            assert(d[i] == t[i]);
        }
        lemma_mask_total(p, d, ranges, e);
        assert(t[t.len() - 1] == t.last());
    }
}

/// The candidates of the terms.
proof fn lemma_candidates_exact<V: Variable>(p: int, q: Quadratic<V::V>, ranges: Seq<Range>)
    requires
        field_order(p),
        q.wf(p),
    ensures
        ({
            let t = terms::<V>(q);
            &&& candidates(p, t, ranges) is Some <==> forall|i: int|
                0 <= i < t.len() ==> shifts(p, (#[trigger] t[i]).1)
            &&& candidates(p, t, ranges) matches Some(c) ==> {
                &&& c.len() == t.len()
                &&& parts::<V>(p, q, ranges).len() == t.len()
                &&& forall|i: int|
                    #![trigger t[i]]
                    0 <= i < t.len() ==> stands_for(p, c[i], t[i].0, t[i].1, ranges[i])
                &&& separate(p, parts::<V>(p, q, ranges)) <==> !overlapping(p, t, ranges)
                &&& separate(p, parts::<V>(p, q, ranges)) ==> covered(p, parts::<V>(p, q, ranges))
                    == mask_total(p, t, ranges)
            }
        }),
{
    let t = terms::<V>(q);
    lemma_terms::<V>(p, q);
    assert forall|i: int| #![trigger t[i]] 0 <= i < t.len() implies ({
        &&& candidate(p, t[i].0, t[i].1, ranges[i]) is Some <==> shifts(p, t[i].1)
        &&& candidate(p, t[i].0, t[i].1, ranges[i]) matches Some(d) ==> stands_for(
            p,
            d,
            t[i].0,
            t[i].1,
            ranges[i],
        )
    }) by {
        lemma_candidate_exact(p, t[i].0, t[i].1, ranges[i]);
    }
    if candidates(p, t, ranges) is Some {
        let c = candidates(p, t, ranges).unwrap();
        let key = |d: Candidate<V::V>| d.exponent as int;
        assert forall|i: int| #![trigger t[i]] 0 <= i < t.len() implies stands_for(
            p,
            c[i],
            t[i].0,
            t[i].1,
            ranges[i],
        ) by {
            assert(candidate(p, t[i].0, t[i].1, ranges[i]) is Some);
        }
        lemma_sorted_by(c, key);
        lemma_sorted_masks(p, c, key);
        lemma_separate_disjoint(p, c);
        lemma_mask_total(p, t, ranges, c);
        if overlapping(p, t, ranges) {
            let (i, j) = choose|i: int, j: int|
                0 <= i < j < t.len() && term_mask(p, (#[trigger] t[i]).1, ranges[i]) & term_mask(
                    p,
                    (#[trigger] t[j]).1,
                    ranges[j],
                ) != 0;
            assert(mask_of(p, c[i]) & mask_of(p, c[j]) != 0);
        } else {
            assert forall|i: int, j: int| 0 <= i < j < c.len() implies mask_of(p, #[trigger] c[i])
                & mask_of(p, #[trigger] c[j]) == 0 by {
                assert(stands_for(p, c[i], t[i].0, t[i].1, ranges[i]));
                assert(stands_for(p, c[j], t[j].0, t[j].1, ranges[j]));
            }
        }
    } else {
        let i = choose|i: int|
            0 <= i < t.len() && candidate(
                p,
                (#[trigger] t[i]).0,
                t[i].1,
                ranges[i],
            ) is None;
        assert(!shifts(p, t[i].1));
    }
}

/// Reading the variables off the bits of the constant is given up exactly if some coefficient
/// is no number that is a power of two up to the sign, the masks of two variables share a bit,
/// or the masks add up to the modulus or more. Nothing is found then. Otherwise a number gives
/// one assignment of a number for each variable or the error that the ranges conflict, and any
/// other constant gives one bit decomposition of it.
pub proof fn lemma_reading_cases<V: Variable>(p: int, q: Quadratic<V::V>, ranges: Seq<Range>)
    requires
        field_order(p),
        q.wf(p),
    ensures
        ({
            let t = terms::<V>(q);
            let d = decomposition(p, t, ranges, q.constant);
            &&& readable(p, t, ranges) <==> !(d matches Ok(s) && !s.complete)
            &&& !readable(p, t, ranges) ==> (d matches Ok(s) && !s.complete && s.effects.len() == 0)
            &&& readable(p, t, ranges) && !(q.constant is Concrete) ==> (d matches Ok(s)
                && s.effects.len() == 1 && (s.effects[0] matches Consequence::BitDecomposition(v, c)
                && v == q.constant && c.len() == t.len()))
            &&& readable(p, t, ranges) && q.constant is Concrete ==> {
                ||| d == Err::<Solution<V::V>, Error>(Error::ConflictingRangeConstraints)
                ||| d matches Ok(s) && s.effects.len() == t.len() && forall|i: int|
                    0 <= i < t.len() ==> ((#[trigger] s.effects[i]) matches Consequence::Assignment(
                        v,
                        e,
                    ) && e is Concrete)
            }
        }),
{
    lemma_candidates_exact::<V>(p, q, ranges);
}

/// A readable equation with more than one unknown variable is solved by reading them off the
/// bits of the constant, and any other is not solved completely. The same holds where an
/// equation without unknown variables is solved as an affine one.
pub proof fn lemma_solution_by_bits<V: Variable>(p: int, q: Quadratic<V::V>, ranges: Seq<Range>)
    requires
        field_order(p),
        q.wf(p),
        q.quadratic.len() == 0,
        terms::<V>(q).len() != 1,
    ensures
        ({
            let t = terms::<V>(q);
            let s = affine_solution::<V>(p, q, ranges);
            &&& readable(p, t, ranges) ==> s == decomposition(p, t, ranges, q.constant)
            &&& readable(p, t, ranges) <==> !(s matches Ok(r) && !r.complete)
            &&& s is Err ==> q.constant is Concrete
            &&& t.len() > 1 ==> solution::<V>(p, q, ranges) == s
        }),
{
    lemma_reading_cases::<V>(p, q, ranges);
    lemma_terms::<V>(p, q);
    if terms::<V>(q).len() > 1 {
        assert(q.linear.contains_key(terms::<V>(q)[0].0));
    }
}

/// Multiplied by the distance of its coefficient from zero, every variable has only bits of its
/// mask. Where no value of its range can reach the modulus that way, neither does its value.
pub open spec fn fitting<V: Variable>(
    p: int,
    q: Quadratic<V::V>,
    ranges: Seq<Range>,
    env: spec_fn(V::V) -> int,
) -> bool {
    let t = terms::<V>(q);
    &&& assigns(p, env)
    &&& forall|i: int|
        #![trigger t[i]]
        0 <= i < t.len() ==> {
            let n = absolute(p, t[i].1->Concrete_0);
            &&& submask(
                field_mul(p, env(t[i].0), n) as u64,
                term_mask(p, t[i].1, ranges[i]),
            )
            &&& ranges[i].bound() * n >= p || env(t[i].0) * n < p
        }
}

/// A candidate fits under the values.
spec fn candidate_fits<K>(p: int, d: Candidate<K>, env: spec_fn(K) -> int) -> bool {
    let x = env(d.variable);
    let f = pow2(d.exponent) as int;
    &&& submask(field_mul(p, x, f) as u64, mask_of(p, d))
    &&& may_wrap(p, d) || x * f < p
}

/// The terms fit if the parts do.
proof fn lemma_fitting_parts<V: Variable>(
    p: int,
    q: Quadratic<V::V>,
    ranges: Seq<Range>,
    env: spec_fn(V::V) -> int,
)
    requires
        field_order(p),
        q.wf(p),
        candidates(p, terms::<V>(q), ranges) is Some,
        assigns(p, env),
    ensures
        fitting::<V>(p, q, ranges, env) <==> forall|j: int|
            0 <= j < parts::<V>(p, q, ranges).len() ==> candidate_fits(
                p,
                #[trigger] parts::<V>(p, q, ranges)[j],
                env,
            ),
{
    let t = terms::<V>(q);
    let c = candidates(p, t, ranges).unwrap();
    let s = parts::<V>(p, q, ranges);
    let key = |d: Candidate<V::V>| d.exponent as int;
    lemma_candidates_exact::<V>(p, q, ranges);
    if fitting::<V>(p, q, ranges, env) {
        let fine = |d: Candidate<V::V>| candidate_fits(p, d, env);
        assert forall|i: int| 0 <= i < c.len() implies fine(#[trigger] c[i]) by {
            assert(stands_for(p, c[i], t[i].0, t[i].1, ranges[i]));
        }
        lemma_sorted_all(c, key, fine);
        assert forall|j: int| 0 <= j < s.len() implies candidate_fits(
            p,
            #[trigger] s[j],
            env,
        ) by {
            assert(fine(sorted_by(c, key)[j]));
        }
    }
    if forall|j: int| 0 <= j < s.len() ==> candidate_fits(p, #[trigger] s[j], env) {
        assert forall|i: int| #![trigger t[i]] 0 <= i < t.len() implies ({
            let n = absolute(p, t[i].1->Concrete_0);
            &&& submask(field_mul(p, env(t[i].0), n) as u64, term_mask(p, t[i].1, ranges[i]))
            &&& ranges[i].bound() * n >= p || env(t[i].0) * n < p
        }) by {
            assert(stands_for(p, c[i], t[i].0, t[i].1, ranges[i]));
            assert(c.contains(c[i]));
            lemma_sorted_member(c, key, c[i]);
            let j = choose|j: int| 0 <= j < s.len() && s[j] == c[i];
            assert(candidate_fits(p, s[j], env));
        }
    }
}

/// Values that fit and solve the equation are those that are read off the bits.
proof fn lemma_fitting_decomposes<V: Variable>(
    p: int,
    q: Quadratic<V::V>,
    ranges: Seq<Range>,
    env: spec_fn(V::V) -> int,
)
    requires
        field_order(p),
        q.wf(p),
        ranges_match::<V>(p, q, ranges),
        separable::<V>(p, q, ranges),
        fitting::<V>(p, q, ranges, env),
        q.value(p, env) == 0,
    ensures
        decomposes(
            p,
            parts::<V>(p, q, ranges),
            q.constant.value(p, env),
            shifted(p, parts::<V>(p, q, ranges), env),
        ),
        forall|j: int|
            0 <= j < parts::<V>(p, q, ranges).len() ==> env(
                (#[trigger] parts::<V>(p, q, ranges)[j]).variable,
            ) == unshifted(
                p,
                shifted(p, parts::<V>(p, q, ranges), env)[j],
                parts::<V>(p, q, ranges)[j].exponent,
            ),
{
    let s = parts::<V>(p, q, ranges);
    let bits = shifted(p, s, env);
    lemma_parts::<V>(p, q, ranges, env);
    lemma_fitting_parts::<V>(p, q, ranges, env);
    lemma_bitwise_solution::<V>(p, q, ranges, env);
    assert forall|j: int| 0 <= j < s.len() implies ({
        &&& submask(#[trigger] bits[j], mask_of(p, s[j]))
        &&& bits[j] == field_mul(p, env(s[j].variable), pow2(s[j].exponent) as int)
        &&& may_wrap(p, s[j]) || bits[j] as int % (pow2(s[j].exponent) as int) == 0
    }) by {
        let x = env(s[j].variable);
        let f = pow2(s[j].exponent) as int;
        assert(candidate_fits(p, s[j], env));
        lemma_mod_bound(x * f, p);
        lemma_pow2_pos(s[j].exponent);
        if !may_wrap(p, s[j]) {
            assert(0 <= x * f) by (nonlinear_arith)
                requires
                    0 <= x,
                    f > 0,
            ;
            lemma_small(p, x * f);
            lemma_mod_multiples_basic(x, f);
        }
    }
    assert(fits(p, s, bits));
    lemma_shifted_sum(p, s, bits, env);
    lemma_value_bound(q.constant, p, env);
    assert forall|j: int| 0 <= j < s.len() implies env((#[trigger] s[j]).variable) == unshifted(
        p,
        bits[j],
        s[j].exponent,
    ) by {
        assert(candidate_wf(p, s[j]));
        lemma_bits_small(p, s, bits, j);
        assert(bits[j] == field_mul(p, env(s[j].variable), pow2(s[j].exponent) as int));
        lemma_unshifted(p, bits[j], s[j].exponent);
    }
}

/// Values that are read off the bits of a number fit and solve the equation.
proof fn lemma_read_fitting<V: Variable>(
    p: int,
    q: Quadratic<V::V>,
    ranges: Seq<Range>,
    bits: Seq<u64>,
    env: spec_fn(V::V) -> int,
)
    requires
        field_order(p),
        q.wf(p),
        ranges_match::<V>(p, q, ranges),
        separable::<V>(p, q, ranges),
        q.constant is Concrete,
        assigns(p, env),
        decomposes(p, parts::<V>(p, q, ranges), q.constant->Concrete_0, bits),
        forall|j: int|
            0 <= j < parts::<V>(p, q, ranges).len() ==> env(
                (#[trigger] parts::<V>(p, q, ranges)[j]).variable,
            ) == unshifted(p, bits[j], parts::<V>(p, q, ranges)[j].exponent),
    ensures
        fitting::<V>(p, q, ranges, env),
        q.value(p, env) == 0,
{
    let s = parts::<V>(p, q, ranges);
    let a = assignments(p, s, bits);
    lemma_parts::<V>(p, q, ranges, env);
    assert forall|j: int| 0 <= j < s.len() implies (#[trigger] a[j]).holds(p, env) by {
        assert(env(s[j].variable) == unshifted(p, bits[j], s[j].exponent));
    }
    lemma_assignments_complete::<V>(p, q, ranges, env, bits);
    assert forall|j: int| 0 <= j < s.len() implies candidate_fits(p, #[trigger] s[j], env) by {
        let x = env(s[j].variable);
        let f = pow2(s[j].exponent) as int;
        assert(candidate_wf(p, s[j]));
        lemma_bits_small(p, s, bits, j);
        lemma_unshifted(p, bits[j], s[j].exponent);
        assert(submask(bits[j], mask_of(p, s[j])));
        assert(may_wrap(p, s[j]) || bits[j] as int % f == 0);
        if !may_wrap(p, s[j]) {
            lemma_pow2_pos(s[j].exponent);
            lemma_fundamental_div_mod(bits[j] as int, f);
            assert(x * f == f * x) by (nonlinear_arith);
        }
    }
    lemma_fitting_parts::<V>(p, q, ranges, env);
}

proof fn lemma_count_positive<K>(s: Seq<Candidate<K>>, k: K, i: int)
    requires
        0 <= i < s.len(),
        s[i].variable == k,
    ensures
        occurrences(s, k) >= 1,
    decreases s.len(),
{
    lemma_count_bound(s.drop_last(), k);
    if i < s.len() - 1 {
        assert(s.drop_last()[i] == s[i]);
        lemma_count_positive(s.drop_last(), k, i);
    }
}

proof fn lemma_count_bound<K>(s: Seq<Candidate<K>>, k: K)
    ensures
        occurrences(s, k) >= 0,
    decreases s.len(),
{
    if s.len() > 0 {
        lemma_count_bound(s.drop_last(), k);
    }
}

proof fn lemma_count_two<K>(s: Seq<Candidate<K>>, k: K, i: int, j: int)
    requires
        0 <= i < j < s.len(),
        s[i].variable == k,
        s[j].variable == k,
    ensures
        occurrences(s, k) >= 2,
    decreases s.len(),
{
    let d = s.drop_last();
    assert(d[i] == s[i]);
    if j < s.len() - 1 {
        assert(d[j] == s[j]);
        lemma_count_two(d, k, i, j);
    } else {
        lemma_count_positive(d, k, i);
    }
}

/// Different parts have different variables.
proof fn lemma_parts_distinct<V: Variable>(
    p: int,
    q: Quadratic<V::V>,
    ranges: Seq<Range>,
    i: int,
    j: int,
)
    requires
        field_order(p),
        q.wf(p),
        candidates(p, terms::<V>(q), ranges) is Some,
        0 <= i < j < parts::<V>(p, q, ranges).len(),
    ensures
        parts::<V>(p, q, ranges)[i].variable != parts::<V>(p, q, ranges)[j].variable,
{
    let t = terms::<V>(q);
    let c = candidates(p, t, ranges).unwrap();
    let s = parts::<V>(p, q, ranges);
    let k = s[i].variable;
    lemma_terms::<V>(p, q);
    lemma_candidates_exact::<V>(p, q, ranges);
    assert forall|i: int| 0 <= i < t.len() implies (#[trigger] c[i]).variable == t[i].0 by {
        assert(stands_for(p, c[i], t[i].0, t[i].1, ranges[i]));
    }
    lemma_occurrences::<V>(t, c, k);
    lemma_sorted_total(
        c,
        |d: Candidate<V::V>| d.exponent as int,
        |d: Candidate<V::V>|
            if d.variable == k {
                1int
            } else {
                0
            },
    );
    if s[j].variable == k {
        lemma_count_two(s, k, i, j);
    }
}

/// The values that are read off the bits, and zero for all other variables.
spec fn read_values<K>(
    p: int,
    s: Seq<Candidate<K>>,
    bits: Seq<u64>,
) -> spec_fn(K) -> int {
    |k: K|
        if exists|j: int| 0 <= j < s.len() && (#[trigger] s[j]).variable == k {
            let j = choose|j: int| 0 <= j < s.len() && (#[trigger] s[j]).variable == k;
            unshifted(p, bits[j], s[j].exponent)
        } else {
            0
        }
}

proof fn lemma_read_values<V: Variable>(
    p: int,
    q: Quadratic<V::V>,
    ranges: Seq<Range>,
    bits: Seq<u64>,
)
    requires
        field_order(p),
        q.wf(p),
        ranges_match::<V>(p, q, ranges),
        separable::<V>(p, q, ranges),
        q.constant is Concrete,
        decomposes(p, parts::<V>(p, q, ranges), q.constant->Concrete_0, bits),
    ensures
        ({
            let env = read_values(p, parts::<V>(p, q, ranges), bits);
            &&& fitting::<V>(p, q, ranges, env)
            &&& q.value(p, env) == 0
        }),
{
    let s = parts::<V>(p, q, ranges);
    let env = read_values(p, s, bits);
    lemma_parts::<V>(p, q, ranges, |k: V::V| 0int);
    assert forall|j: int| 0 <= j < s.len() implies env((#[trigger] s[j]).variable) == unshifted(
        p,
        bits[j],
        s[j].exponent,
    ) by {
        let k = s[j].variable;
        let i = choose|i: int| 0 <= i < s.len() && (#[trigger] s[i]).variable == k;
        if i < j {
            lemma_parts_distinct::<V>(p, q, ranges, i, j);
        } else if j < i {
            lemma_parts_distinct::<V>(p, q, ranges, j, i);
        }
    }
    assert forall|k: V::V| 0 <= #[trigger] env(k) < p by {
        if exists|j: int| 0 <= j < s.len() && (#[trigger] s[j]).variable == k {
            let j = choose|j: int| 0 <= j < s.len() && (#[trigger] s[j]).variable == k;
            assert(candidate_wf(p, s[j]));
            lemma_bits_small(p, s, bits, j);
            lemma_unshifted(p, bits[j], s[j].exponent);
        }
    }
    lemma_read_fitting::<V>(p, q, ranges, bits, env);
}

/// A readable equation with a number as constant conflicts with the ranges exactly if no
/// fitting values solve it. Otherwise the assignments give the only fitting values that do.
pub proof fn lemma_reading_exact<V: Variable>(
    p: int,
    q: Quadratic<V::V>,
    ranges: Seq<Range>,
    env: spec_fn(V::V) -> int,
)
    requires
        field_order(p),
        q.wf(p),
        ranges_match::<V>(p, q, ranges),
        q.quadratic.len() == 0,
        readable(p, terms::<V>(q), ranges),
        q.constant is Concrete,
        assigns(p, env),
    ensures
        decomposition(p, terms::<V>(q), ranges, q.constant) is Err <==> forall|
            values: spec_fn(V::V) -> int,
        | #[trigger]
            fitting::<V>(p, q, ranges, values) ==> q.value(p, values) != 0,
        decomposition(p, terms::<V>(q), ranges, q.constant) matches Ok(s) ==> (fitting::<V>(
            p,
            q,
            ranges,
            env,
        ) && q.value(p, env) == 0 <==> forall|i: int|
            0 <= i < s.effects.len() ==> (#[trigger] s.effects[i]).holds(p, env)),
{
    let s = parts::<V>(p, q, ranges);
    let n = q.constant->Concrete_0;
    lemma_candidates_exact::<V>(p, q, ranges);
    lemma_reading_cases::<V>(p, q, ranges);
    lemma_parts::<V>(p, q, ranges, env);
    assert(0 <= n < p);
    lemma_decomposition(p, s, n);
    assert forall|values: spec_fn(V::V) -> int| #[trigger]
        fitting::<V>(p, q, ranges, values) && q.value(p, values) == 0 implies decomposes(
        p,
        s,
        n,
        shifted(p, s, values),
    ) by {
        lemma_fitting_decomposes::<V>(p, q, ranges, values);
    }
    if decomposable(p, s, n) {
        let bits = bits_read::<V>(p, q, ranges);
        assert(decomposes(p, s, n, bits));
        lemma_read_values::<V>(p, q, ranges, bits);
        assert(fitting::<V>(p, q, ranges, read_values(p, s, bits)));
        let effects = decomposition(p, terms::<V>(q), ranges, q.constant)->Ok_0.effects;
        assert(effects == assignments(p, s, bits));
        if fitting::<V>(p, q, ranges, env) && q.value(p, env) == 0 {
            lemma_fitting_decomposes::<V>(p, q, ranges, env);
            assert(shifted(p, s, env) == bits);
            assert forall|i: int| 0 <= i < effects.len() implies (#[trigger] effects[i]).holds(
                p,
                env,
            ) by {
                assert(env(s[i].variable) == unshifted(p, bits[i], s[i].exponent));
            }
        }
        if forall|i: int| 0 <= i < effects.len() ==> (#[trigger] effects[i]).holds(p, env) {
            assert forall|j: int| 0 <= j < s.len() implies env((#[trigger] s[j]).variable)
                == unshifted(p, bits[j], s[j].exponent) by {
                assert(effects[j].holds(p, env));
            }
            lemma_read_fitting::<V>(p, q, ranges, bits, env);
        }
    }
}

/// The component describes a term: it has its variable, its coefficient with the sign turned,
/// and the bits that the range of the variable leaves for the product.
pub open spec fn describes<K>(p: int, d: Component<K>, k: K, c: Symbolic<K>, r: Range) -> bool {
    &&& d.variable == k
    &&& c is Concrete
    &&& d.is_negative ==> c->Concrete_0 == pow2(d.exponent)
    &&& !d.is_negative ==> c->Concrete_0 == p - pow2(d.exponent)
    &&& d.bit_mask == r.multiple(p, pow2(d.exponent) as int).mask
}

/// The reading has this bit decomposition as its only effect.
pub open spec fn decomposed<V: Variable>(
    p: int,
    q: Quadratic<V::V>,
    ranges: Seq<Range>,
    value: Symbolic<V::V>,
    c: Seq<Component<V::V>>,
) -> bool {
    decomposition(p, terms::<V>(q), ranges, q.constant) matches Ok(s) && s.effects.len() == 1
        && s.effects[0] == Consequence::BitDecomposition(value, c)
}

proof fn lemma_decomposed<V: Variable>(
    p: int,
    q: Quadratic<V::V>,
    ranges: Seq<Range>,
    value: Symbolic<V::V>,
    c: Seq<Component<V::V>>,
)
    requires
        field_order(p),
        q.wf(p),
        decomposed::<V>(p, q, ranges, value, c),
    ensures
        candidates(p, terms::<V>(q), ranges) is Some,
        c == components(p, parts::<V>(p, q, ranges)),
        value == q.constant,
        separate(p, parts::<V>(p, q, ranges)),
        covered(p, parts::<V>(p, q, ranges)) < p,
{
    let t = terms::<V>(q);
    let s = parts::<V>(p, q, ranges);
    lemma_candidates_exact::<V>(p, q, ranges);
    lemma_reading_cases::<V>(p, q, ranges);
    let effects = decomposition(p, t, ranges, q.constant)->Ok_0.effects;
    assert(effects[0] is BitDecomposition);
    assert(effects[0] == Consequence::BitDecomposition(q.constant, components(p, s)));
}

/// The component of a part describes the term.
proof fn lemma_component_describes<K>(
    p: int,
    d: Candidate<K>,
    e: Component<K>,
    k: K,
    c: Symbolic<K>,
    r: Range,
)
    requires
        stands_for(p, d, k, c, r),
        shifts(p, c),
        e == (Component {
            variable: d.variable,
            is_negative: d.is_negative,
            exponent: d.exponent,
            bit_mask: mask_of(p, d),
        }),
    ensures
        describes(p, e, k, c, r),
{
}

/// The bit decomposition of an equation is that of the constant, and has a component for every
/// term, which describes it, and no others.
pub proof fn lemma_components_describe<V: Variable>(
    p: int,
    q: Quadratic<V::V>,
    ranges: Seq<Range>,
    value: Symbolic<V::V>,
    c: Seq<Component<V::V>>,
    n: int,
)
    requires
        field_order(p),
        q.wf(p),
        decomposed::<V>(p, q, ranges, value, c),
        0 <= n < c.len(),
    ensures
        value == q.constant,
        c.len() == terms::<V>(q).len(),
        exists|i: int|
            #![trigger terms::<V>(q)[i]]
            0 <= i < terms::<V>(q).len() && describes(
                p,
                c[n],
                terms::<V>(q)[i].0,
                terms::<V>(q)[i].1,
                ranges[i],
            ),
        exists|j: int|
            #![trigger c[j]]
            0 <= j < c.len() && describes(
                p,
                c[j],
                terms::<V>(q)[n].0,
                terms::<V>(q)[n].1,
                ranges[n],
            ),
{
    let t = terms::<V>(q);
    let u = candidates(p, t, ranges).unwrap();
    let s = parts::<V>(p, q, ranges);
    let key = |d: Candidate<V::V>| d.exponent as int;
    lemma_decomposed::<V>(p, q, ranges, value, c);
    lemma_candidates_exact::<V>(p, q, ranges);
    let described = |d: Candidate<V::V>|
        exists|i: int|
            #![trigger t[i]]
            0 <= i < t.len() && stands_for(p, d, t[i].0, t[i].1, ranges[i]);
    assert forall|i: int| 0 <= i < u.len() implies described(#[trigger] u[i]) by {
        assert(stands_for(p, u[i], t[i].0, t[i].1, ranges[i]));
    }
    lemma_sorted_all(u, key, described);
    assert(described(sorted_by(u, key)[n]));
    let i = choose|i: int|
        #![trigger t[i]]
        0 <= i < t.len() && stands_for(p, s[n], t[i].0, t[i].1, ranges[i]);
    assert(shifts(p, t[i].1));
    lemma_component_describes(p, s[n], c[n], t[i].0, t[i].1, ranges[i]);
    assert(stands_for(p, u[n], t[n].0, t[n].1, ranges[n]));
    assert(u.contains(u[n]));
    lemma_sorted_member(u, key, u[n]);
    let j = choose|j: int| 0 <= j < s.len() && s[j] == u[n];
    assert(shifts(p, t[n].1));
    lemma_component_describes(p, s[j], c[j], t[n].0, t[n].1, ranges[n]);
}

/// No two components of the bit decomposition have a bit of their masks in common, and the
/// masks add up to less than the modulus. The components come by ascending exponent, and for
/// the same exponent by ascending variable.
pub proof fn lemma_components_separate<V: Variable>(
    p: int,
    q: Quadratic<V::V>,
    ranges: Seq<Range>,
    value: Symbolic<V::V>,
    c: Seq<Component<V::V>>,
    i: int,
    j: int,
)
    requires
        field_order(p),
        q.wf(p),
        decomposed::<V>(p, q, ranges, value, c),
        0 <= i < j < c.len(),
    ensures
        c[i].bit_mask & c[j].bit_mask == 0,
        total(c, |d: Component<V::V>| d.bit_mask as int) < p,
        c[i].exponent < c[j].exponent || (c[i].exponent == c[j].exponent && V::precedes(
            c[i].variable,
            c[j].variable,
        )),
{
    let s = parts::<V>(p, q, ranges);
    let key = |d: Candidate<V::V>| d.exponent as int;
    lemma_decomposed::<V>(p, q, ranges, value, c);
    lemma_separate_disjoint(p, s);
    lemma_components_total(p, s);
    assert(mask_of(p, s[i]) & mask_of(p, s[j]) == 0);
    lemma_parts_arranged::<V>(p, q, ranges);
    assert(key(s[i]) <= key(s[j]));
}

proof fn lemma_components_total<K>(p: int, s: Seq<Candidate<K>>)
    ensures
        total(components(p, s), |d: Component<K>| d.bit_mask as int) == total(
            s,
            |c: Candidate<K>| mask_of(p, c) as int,
        ),
    decreases s.len(),
{
    if s.len() > 0 {
        lemma_components_total(p, s.drop_last());
        assert(components(p, s).drop_last() =~= components(p, s.drop_last()));
    }
}

/// Parts come by ascending exponent, and for the same exponent by ascending variable.
proof fn lemma_parts_arranged<V: Variable>(p: int, q: Quadratic<V::V>, ranges: Seq<Range>)
    requires
        field_order(p),
        q.wf(p),
        candidates(p, terms::<V>(q), ranges) is Some,
    ensures
        arranged(
            parts::<V>(p, q, ranges),
            |d: Candidate<V::V>| d.exponent as int,
            |a: Candidate<V::V>, b: Candidate<V::V>| V::precedes(a.variable, b.variable),
        ),
{
    let t = terms::<V>(q);
    let u = candidates(p, t, ranges).unwrap();
    let key = |d: Candidate<V::V>| d.exponent as int;
    let before = |a: Candidate<V::V>, b: Candidate<V::V>| V::precedes(a.variable, b.variable);
    lemma_terms::<V>(p, q);
    lemma_candidates_exact::<V>(p, q, ranges);
    assert forall|i: int, j: int| 0 <= i < j < u.len() implies before(
        #[trigger] u[i],
        #[trigger] u[j],
    ) by {
        assert(stands_for(p, u[i], t[i].0, t[i].1, ranges[i]));
        assert(stands_for(p, u[j], t[j].0, t[j].1, ranges[j]));
        assert(V::precedes(t[i].0, t[j].0));
    }
    lemma_sorted_arranged(u, key, before);
}

/// The assignments of a number come in the same order: for any two of them the distance of the
/// first coefficient from zero is less, or it is the same and the first variable precedes the
/// second.
pub proof fn lemma_assignments_order<V: Variable>(
    p: int,
    q: Quadratic<V::V>,
    ranges: Seq<Range>,
    i: int,
    j: int,
)
    requires
        field_order(p),
        q.wf(p),
        q.constant is Concrete,
        decomposition(p, terms::<V>(q), ranges, q.constant) matches Ok(s) && 0 <= i < j
            < s.effects.len(),
    ensures
        ({
            let effects = decomposition(p, terms::<V>(q), ranges, q.constant)->Ok_0.effects;
            &&& effects[i] is Assignment
            &&& effects[j] is Assignment
            &&& ({
                let x = effects[i]->Assignment_0;
                let y = effects[j]->Assignment_0;
                let a = absolute(p, q.linear[x]->Concrete_0);
                let b = absolute(p, q.linear[y]->Concrete_0);
                &&& q.linear.contains_key(x)
                &&& q.linear.contains_key(y)
                &&& a < b || (a == b && V::precedes(x, y))
            })
        }),
{
    let t = terms::<V>(q);
    let u = candidates(p, t, ranges).unwrap();
    let s = parts::<V>(p, q, ranges);
    let key = |d: Candidate<V::V>| d.exponent as int;
    lemma_terms::<V>(p, q);
    lemma_candidates_exact::<V>(p, q, ranges);
    lemma_parts_arranged::<V>(p, q, ranges);
    let described = |d: Candidate<V::V>|
        q.linear.contains_key(d.variable) && pow2(d.exponent) == absolute(
            p,
            q.linear[d.variable]->Concrete_0,
        );
    assert forall|i: int| 0 <= i < u.len() implies described(#[trigger] u[i]) by {
        assert(stands_for(p, u[i], t[i].0, t[i].1, ranges[i]));
        assert(q.linear.contains_key(t[i].0));
    }
    lemma_sorted_all(u, key, described);
    assert(described(sorted_by(u, key)[i]));
    assert(described(sorted_by(u, key)[j]));
    assert(s[i] == sorted_by(u, key)[i] && s[j] == sorted_by(u, key)[j]);
    if s[i].exponent < s[j].exponent {
        lemma_pow2_strictly_increases(s[i].exponent, s[j].exponent);
    }
    assert(key(s[i]) <= key(s[j]));
}

/// The masks of the negative components, added up.
pub open spec fn negative_total<K>(c: Seq<Component<K>>) -> int {
    total(
        c,
        |d: Component<K>|
            if d.is_negative {
                d.bit_mask as int
            } else {
                0
            },
    )
}

/// The bits of a component in the value, which is taken together with the masks of all
/// negative components. Those of a negative component are turned.
pub open spec fn component_bits<K>(
    p: int,
    c: Seq<Component<K>>,
    value: int,
    j: int,
) -> u64 {
    let v = ((value + negative_total(c)) % p) as u64;
    if c[j].is_negative {
        c[j].bit_mask & !v
    } else {
        c[j].bit_mask & v
    }
}

proof fn lemma_negative_total<K>(p: int, s: Seq<Candidate<K>>)
    ensures
        negative_total(components(p, s)) == negative_bits(p, s),
    decreases s.len(),
{
    if s.len() > 0 {
        lemma_negative_total(p, s.drop_last());
        assert(components(p, s).drop_last() =~= components(p, s.drop_last()));
    }
}

/// Where a bit decomposition holds, every variable is the value with its bits in the
/// decomposed value, shifted: multiplied by the power of two it has exactly these bits. If
/// that product does not reach the modulus, the variable is the bits shifted back.
pub proof fn lemma_components_read<V: Variable>(
    p: int,
    q: Quadratic<V::V>,
    ranges: Seq<Range>,
    value: Symbolic<V::V>,
    c: Seq<Component<V::V>>,
    env: spec_fn(V::V) -> int,
    j: int,
)
    requires
        field_order(p),
        q.wf(p),
        assigns(p, env),
        decomposed::<V>(p, q, ranges, value, c),
        Consequence::BitDecomposition(value, c).holds(p, env),
        0 <= j < c.len(),
    ensures
        ({
            let bits = component_bits(p, c, value.value(p, env), j);
            let x = env(c[j].variable);
            &&& field_mul(p, x, pow2(c[j].exponent) as int) == bits
            &&& x * pow2(c[j].exponent) < p ==> x == bits as int / (pow2(c[j].exponent) as int)
        }),
{
    let s = parts::<V>(p, q, ranges);
    lemma_decomposed::<V>(p, q, ranges, value, c);
    let bits = shifted(p, s, env);
    assert forall|i: int| 0 <= i < s.len() implies ({
        &&& submask(#[trigger] bits[i], mask_of(p, s[i]))
        &&& bits[i] == field_mul(p, env(s[i].variable), pow2(s[i].exponent) as int)
    }) by {
        lemma_mod_bound(env(s[i].variable) * pow2(s[i].exponent), p);
        assert(submask(
            field_mul(p, env(c[i].variable), pow2(c[i].exponent) as int) as u64,
            c[i].bit_mask,
        ));
    }
    lemma_shifted_sum(p, s, bits, env);
    let n = value.value(p, env);
    lemma_bits_determined(p, s, n, bits);
    lemma_negative_total(p, s);
    assert(bits[j] == bits_of(p, s, unsigned(p, s, n))[j]);
    let x = env(c[j].variable);
    let f = pow2(c[j].exponent) as int;
    lemma_pow2_pos(c[j].exponent);
    if x * f < p {
        assert(0 <= x * f) by (nonlinear_arith)
            requires
                0 <= x,
                f > 0,
        ;
        lemma_small(p, x * f);
        lemma_div_by_multiple(x, f);
    }
}

} // verus!
