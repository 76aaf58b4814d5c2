//! What solving an equation promises.
use vstd::arithmetic::div_mod::*;
use vstd::arithmetic::mul::lemma_mul_is_commutative;
use vstd::arithmetic::power2::*;
use vstd::prelude::*;

use crate::bits::{exponent_of, lemma_exponent_bound, submask};
use crate::decomposition::{
    bits_of, candidate_wf, candidates_wf, lemma_bits_small, lemma_decomposition, lemma_shifted,
    lemma_shifted_sum, lemma_unshifted, shifted, unsigned,
};
use crate::effect::{components_sum, some_component, Component, Consequence};
use crate::field::{
    field_mul, field_neg, field_quotient, lemma_field_congruent, lemma_no_zero_divisors,
    lemma_quotient,
};
use crate::linear::{
    ascending, has_key, lemma_ascending_distinct, lemma_drop_last, lemma_listing_exists,
    lemma_listing_mapped, lemma_pairs_finite, lemma_sum_insert, listing, pairs_map, position,
    sum_over,
};
use crate::modular::{
    congruent, is_prime, lemma_congruent_add, lemma_congruent_close, lemma_congruent_mod,
    lemma_congruent_multiple, lemma_congruent_sub, lemma_small,
};
use crate::quadratic::{lemma_known_value, lemma_quadratic_negated, term_value, Quadratic};
use crate::range_constraint::{lemma_multiple_allows, lemma_sum_allows, Range};
use crate::solution::{
    assignments, by_exponent, candidate, candidates, components, covered, decomposable, decomposes,
    decomposition, division, magnitude, mask_of, may_wrap, optional, other_numbers, separate,
    signed_total, solution, sum_of_others, sum_with_constant, transferred, unshifted, widest,
    Candidate, Error, Solution,
};
use crate::sorting::{
    lemma_sorted_all, lemma_sorted_by, lemma_sorted_mapped, lemma_sorted_member, lemma_sorted_total,
    ordered, sorted_by, total,
};
use crate::symbolic_expression::{
    assigns, lemma_minus_one, lemma_negated, lemma_nonzero_sound, lemma_over, lemma_range_sound,
    lemma_value_bound, Symbolic,
};
use crate::variable::Variable;

verus! {

/// The number of elements of a field that fits a machine word.
pub open spec fn field_order(p: int) -> bool {
    2 < p <= u64::MAX && is_prime(p)
}

/// The linear terms of an expression in their order.
pub open spec fn terms<V: Variable>(q: Quadratic<V::V>) -> Seq<(V::V, Symbolic<V::V>)> {
    listing::<V, Symbolic<V::V>>(q.linear)
}

/// There is one range for each linear term.
pub open spec fn ranges_match<V: Variable>(
    p: int,
    q: Quadratic<V::V>,
    ranges: Seq<Range>,
) -> bool {
    &&& ranges.len() == terms::<V>(q).len()
    &&& forall|i: int| 0 <= i < ranges.len() ==> (#[trigger] ranges[i]).within(p)
}

/// The values of the variables are elements of the field and satisfy all range constraints:
/// those of the known symbols and those given for the unknown variables.
pub open spec fn permitted<V: Variable>(
    p: int,
    q: Quadratic<V::V>,
    ranges: Seq<Range>,
    env: spec_fn(V::V) -> int,
) -> bool {
    &&& assigns(p, env)
    &&& q.consistent(env)
    &&& ranges_match::<V>(p, q, ranges)
    &&& forall|i: int|
        0 <= i < ranges.len() ==> (#[trigger] ranges[i]).allows(env(terms::<V>(q)[i].0))
}

/// The value of linear terms in a list, not reduced.
pub open spec fn terms_value<K>(
    p: int,
    s: Seq<(K, Symbolic<K>)>,
    env: spec_fn(K) -> int,
) -> int
    decreases s.len(),
{
    if s.len() == 0 {
        0
    } else {
        terms_value(p, s.drop_last(), env) + s.last().1.value(p, env) * env(s.last().0)
    }
}

proof fn lemma_terms_sum<V: Variable>(
    p: int,
    s: Seq<(V::V, Symbolic<V::V>)>,
    env: spec_fn(V::V) -> int,
    f: spec_fn(V::V) -> int,
)
    requires
        ascending::<V, Symbolic<V::V>>(s),
        forall|i: int|
            0 <= i < s.len() ==> f((#[trigger] s[i]).0) == s[i].1.value(p, env) * env(s[i].0),
    ensures
        sum_over(pairs_map(s).dom(), f) == terms_value(p, s, env),
    decreases s.len(),
{
    lemma_pairs_finite::<V, Symbolic<V::V>>(s);
    if s.len() > 0 {
        let d = s.drop_last();
        lemma_drop_last::<V, Symbolic<V::V>>(s);
        assert forall|i: int| 0 <= i < d.len() implies f((#[trigger] d[i]).0) == d[i].1.value(
            p,
            env,
        ) * env(d[i].0) by {
            assert(d[i] == s[i]);
        }
        lemma_terms_sum::<V>(p, d, env, f);
        lemma_ascending_distinct::<V, Symbolic<V::V>>(s, s.len() - 1);
        lemma_pairs_finite::<V, Symbolic<V::V>>(d);
        let k = s.last().0;
        assert(pairs_map(s).dom() =~= pairs_map(d).dom().insert(k));
        assert(!pairs_map(d).dom().contains(k));
        lemma_sum_insert(pairs_map(d).dom(), f, k);
        assert(s[s.len() - 1] == s.last());
    } else {
        assert(pairs_map(s).dom() =~= Set::empty());
    }
}

/// Without quadratic terms, the value is that of the linear terms and the constant.
pub proof fn lemma_affine_value<V: Variable>(
    p: int,
    q: Quadratic<V::V>,
    env: spec_fn(V::V) -> int,
)
    requires
        p > 0,
        q.quadratic.len() == 0,
        q.linear.dom().finite(),
    ensures
        q.value(p, env) == (terms_value(p, terms::<V>(q), env) + q.constant.value(p, env)) % p,
{
    let s = terms::<V>(q);
    lemma_listing_exists::<V, Symbolic<V::V>>(q.linear);
    let f = |k: V::V| term_value(p, q.linear, env, k);
    assert forall|i: int| 0 <= i < s.len() implies f((#[trigger] s[i]).0) == s[i].1.value(p, env)
        * env(s[i].0) by {
        lemma_ascending_distinct::<V, Symbolic<V::V>>(s, i);
    }
    lemma_terms_sum::<V>(p, s, env, f);
}

/// The terms are those of the map.
pub proof fn lemma_terms<V: Variable>(p: int, q: Quadratic<V::V>)
    requires
        q.wf(p),
    ensures
        ascending::<V, Symbolic<V::V>>(terms::<V>(q)),
        pairs_map(terms::<V>(q)) == q.linear,
        terms::<V>(q).len() == q.linear.dom().len(),
        forall|i: int|
            #![trigger terms::<V>(q)[i]]
            0 <= i < terms::<V>(q).len() ==> {
                &&& q.linear.contains_key(terms::<V>(q)[i].0)
                &&& q.linear[terms::<V>(q)[i].0] == terms::<V>(q)[i].1
                &&& terms::<V>(q)[i].1.wf(p)
                &&& !terms::<V>(q)[i].1.is_zero()
            },
{
    let s = terms::<V>(q);
    lemma_listing_exists::<V, Symbolic<V::V>>(q.linear);
    lemma_pairs_finite::<V, Symbolic<V::V>>(s);
    assert forall|i: int| #![trigger s[i]] 0 <= i < s.len() implies ({
        &&& q.linear.contains_key(s[i].0)
        &&& q.linear[s[i].0] == s[i].1
        &&& s[i].1.wf(p)
        &&& !s[i].1.is_zero()
    }) by {
        lemma_ascending_distinct::<V, Symbolic<V::V>>(s, i);
        assert(q.linear.contains_key(s[i].0));
    }
}

/// A linear equation in one variable has one solution if the coefficient is not zero.
pub proof fn lemma_one_solution(p: int, c: int, x: int, k: int)
    requires
        field_order(p),
        0 < c < p,
        0 <= x < p,
        0 <= k < p,
    ensures
        (c * x + k) % p == 0 <==> x == field_quotient(p, k, field_neg(p, c)),
{
    let d = field_neg(p, c);
    lemma_field_congruent(p, c, 0);
    lemma_mod_add_multiples_vanish(-c, p);
    lemma_small(p, p - c);
    assert(d == p - c);
    lemma_small(p, d);
    lemma_small(p, k);
    lemma_small(p, 0);
    let y = field_quotient(p, k, d);
    lemma_quotient(p, k, d);
    lemma_field_congruent(p, y, d);
    assert(c * y + y * d == y * p) by (nonlinear_arith)
        requires
            d == p - c,
    ;
    lemma_congruent_multiple(p, 0, y);
    lemma_congruent_sub(p, y * p, 0, y * d, k);
    assert(congruent(p, c * y, -k));
    lemma_congruent_add(p, c * y, -k, k, k);
    if (c * x + k) % p == 0 {
        lemma_congruent_sub(p, c * x + k, 0, c * y + k, 0);
        assert(c * x - c * y == c * (x - y)) by (nonlinear_arith);
        lemma_no_zero_divisors(p, c, x - y);
        lemma_small(p, c);
        lemma_congruent_add(p, x - y, 0, y, y);
        lemma_congruent_close(p, x, y);
    }
}

/// Division finds the only solution.
proof fn lemma_division<K>(
    p: int,
    k: K,
    c: Symbolic<K>,
    constant: Symbolic<K>,
    env: spec_fn(K) -> int,
)
    requires
        field_order(p),
        assigns(p, env),
        c.wf(p),
        constant.wf(p),
        c.consistent(env),
        constant.consistent(env),
    ensures
        ({
            let s = division(p, k, c, constant);
            let holds = forall|i: int|
                0 <= i < s.effects.len() ==> (#[trigger] s.effects[i]).holds(p, env);
            let solved = (c.value(p, env) * env(k) + constant.value(p, env)) % p == 0;
            &&& solved ==> holds
            &&& s.complete && holds ==> solved
        }),
{
    let s = division(p, k, c, constant);
    let x = c.value(p, env);
    let y = constant.value(p, env);
    lemma_value_bound(c, p, env);
    lemma_value_bound(constant, p, env);
    assert(0 <= env(k) < p);
    lemma_negated(c, p, env);
    lemma_over(constant, c.negated(p), p, env);
    let assignment = Consequence::Assignment(k, constant.over(p, c.negated(p)));
    if x != 0 {
        lemma_one_solution(p, x, env(k), y);
    }
    if c.is_nonzero(p) {
        lemma_nonzero_sound(c, p, env);
        assert(s.effects[0] == assignment);
    } else if constant.is_nonzero(p) {
        lemma_nonzero_sound(constant, p, env);
        let assertion = Consequence::Assertion(c, Symbolic::<K>::Concrete(0), false);
        assert(s.effects[0] == assertion);
        assert(s.effects[1] == assignment);
        if x == 0 {
            assert(x * env(k) == 0);
            lemma_small(p, y);
        }
    }
}

/// The value of all terms but one, not reduced.
spec fn others_value<K>(
    p: int,
    s: Seq<(K, Symbolic<K>)>,
    env: spec_fn(K) -> int,
    skip: int,
) -> int
    decreases s.len(),
{
    if s.len() == 0 {
        0
    } else {
        let rest = others_value(p, s.drop_last(), env, skip);
        if s.len() - 1 == skip {
            rest
        } else {
            rest + s.last().1.value(p, env) * env(s.last().0)
        }
    }
}

proof fn lemma_others_value<K>(
    p: int,
    s: Seq<(K, Symbolic<K>)>,
    env: spec_fn(K) -> int,
    skip: int,
)
    ensures
        terms_value(p, s, env) == others_value(p, s, env, skip) + (if 0 <= skip < s.len() {
            s[skip].1.value(p, env) * env(s[skip].0)
        } else {
            0
        }),
    decreases s.len(),
{
    if s.len() > 0 {
        lemma_others_value(p, s.drop_last(), env, skip);
    }
}

/// The variables of all terms but one satisfy their ranges.
spec fn others_permitted<K>(
    p: int,
    s: Seq<(K, Symbolic<K>)>,
    ranges: Seq<Range>,
    env: spec_fn(K) -> int,
    skip: int,
) -> bool {
    &&& s.len() <= ranges.len()
    &&& forall|i: int|
        #![trigger s[i]]
        0 <= i < s.len() ==> s[i].1.wf(p) && ranges[i].within(p) && (i == skip
            || ranges[i].allows(env(s[i].0)))
}

/// The constraint on the other terms allows their value.
proof fn lemma_sum_of_others<K>(
    p: int,
    s: Seq<(K, Symbolic<K>)>,
    ranges: Seq<Range>,
    env: spec_fn(K) -> int,
    skip: int,
)
    requires
        field_order(p),
        assigns(p, env),
        others_permitted(p, s, ranges, env, skip),
        other_numbers(s, skip),
    ensures
        match sum_of_others(p, s, ranges, skip) {
            None => others_value(p, s, env, skip) == 0,
            Some(r) => r.within(p) && r.allows(others_value(p, s, env, skip) % p),
        },
    decreases s.len(),
{
    if s.len() > 0 {
        let d = s.drop_last();
        let n = s.len() - 1;
        assert forall|i: int| #![trigger d[i]] 0 <= i < d.len() implies d[i].1.wf(p)
            && ranges[i].within(p) && (i == skip || ranges[i].allows(env(d[i].0))) by {
            assert(d[i] == s[i]);
        }
        assert forall|i: int| 0 <= i < d.len() && i != skip implies (#[trigger] d[i]).1.number()
            is Some by {
            assert(d[i] == s[i]);
        }
        lemma_sum_of_others(p, d, ranges, env, skip);
        if n != skip {
            assert(s[n] == s.last());
            let f = s[n].1.number().unwrap();
            let x = env(s[n].0);
            assert(0 <= x < p);
            lemma_multiple_allows(p, ranges[n], f, x);
            let last = ranges[n].multiple(p, f);
            let v = field_mul(p, x, f);
            lemma_field_congruent(p, x, f);
            assert(x * f == f * x) by (nonlinear_arith);
            let rest = others_value(p, d, env, skip);
            match sum_of_others(p, d, ranges, skip) {
                None => {},
                Some(r) => {
                    lemma_congruent_mod(p, rest);
                    lemma_sum_allows(p, r, last, rest % p, v);
                    lemma_congruent_add(p, rest % p, rest, v, f * x);
                },
            }
        }
    }
}

/// The chosen term has the coefficient one or minus one.
pub proof fn lemma_widest<K>(p: int, s: Seq<(K, Symbolic<K>)>, ranges: Seq<Range>)
    ensures
        widest(p, s, ranges) matches Some(j) ==> {
            &&& 0 <= j < s.len()
            &&& s[j].1.is_one() || s[j].1.is_minus_one(p)
        },
    decreases s.len(),
{
    if s.len() > 0 {
        lemma_widest(p, s.drop_last(), ranges);
    }
}

/// A transferred range constraint holds of every solution whose other variables are in range.
proof fn lemma_transferred<K>(
    p: int,
    s: Seq<(K, Symbolic<K>)>,
    ranges: Seq<Range>,
    constant: Symbolic<K>,
    env: spec_fn(K) -> int,
)
    requires
        field_order(p),
        assigns(p, env),
        widest(p, s, ranges) matches Some(j) ==> others_permitted(p, s, ranges, env, j),
        constant.wf(p),
        constant.consistent(env),
        (terms_value(p, s, env) + constant.value(p, env)) % p == 0,
    ensures
        transferred(p, s, ranges, constant) matches Some(c) ==> c.holds(p, env),
{
    lemma_widest(p, s, ranges);
    if let Some(j) = widest(p, s, ranges) {
        if other_numbers(s, j) {
            let others = others_value(p, s, env, j);
            let z = constant.value(p, env);
            let x = env(s[j].0);
            assert(0 <= x < p);
            lemma_value_bound(constant, p, env);
            lemma_range_sound(constant, p, env);
            lemma_others_value(p, s, env, j);
            lemma_sum_of_others(p, s, ranges, env, j);
            let sum = sum_with_constant(p, s, ranges, j, constant);
            let v = (others + z) % p;
            lemma_congruent_mod(p, others + z);
            match sum_of_others(p, s, ranges, j) {
                None => {
                    lemma_small(p, z);
                },
                Some(r) => {
                    lemma_congruent_mod(p, others);
                    lemma_sum_allows(p, r, constant.range(p), others % p, z);
                    lemma_congruent_add(p, others % p, others, z, z);
                },
            }
            assert(sum.within(p) && sum.allows(v));
            lemma_small(p, 0);
            if s[j].1.is_one() {
                assert(s[j].1.value(p, env) * x == x);
                assert(terms_value(p, s, env) + z == others + x + z);
                lemma_multiple_allows(p, sum, p - 1, v);
                lemma_minus_one(p, v);
                lemma_field_congruent(p, v, 0);
                lemma_congruent_sub(p, 0, 0, v, others + z);
                lemma_congruent_sub(p, others + x + z, 0, others + z, others + z);
                assert(congruent(p, x, field_neg(p, v)));
                lemma_congruent_close(p, x, field_neg(p, v));
            } else {
                assert((p - 1) * x == p * x - x) by (nonlinear_arith);
                assert(s[j].1.value(p, env) == p - 1);
                assert(terms_value(p, s, env) + z == others + z - x + p * x);
                lemma_congruent_multiple(p, others + z - x, x);
                assert(congruent(p, others + z - x, 0));
                lemma_congruent_add(p, others + z - x, 0, x, x);
                lemma_congruent_close(p, x, v);
            }
        }
    }
}

/// The signed, shifted value of the variable of a candidate.
pub open spec fn signed_value<K>(c: Candidate<K>, env: spec_fn(K) -> int) -> int {
    let shifted_value = pow2(c.exponent) * env(c.variable);
    if c.is_negative {
        -shifted_value
    } else {
        shifted_value
    }
}

proof fn lemma_components_total<K>(p: int, s: Seq<Candidate<K>>, env: spec_fn(K) -> int)
    ensures
        components_sum(components(p, s), env) == total(s, |c: Candidate<K>| signed_value(c, env)),
    decreases s.len(),
{
    if s.len() > 0 {
        lemma_components_total(p, s.drop_last(), env);
        assert(components(p, s).drop_last() =~= components(p, s.drop_last()));
    }
}

/// A candidate stands for the negated term.
pub proof fn lemma_candidate<K>(p: int, k: K, c: Symbolic<K>, r: Range, env: spec_fn(K) -> int)
    requires
        field_order(p),
        c.wf(p),
        r.within(p),
        candidate(p, k, c, r) is Some,
    ensures
        ({
            let d = candidate(p, k, c, r).unwrap();
            &&& d.variable == k
            &&& d.range == r
            &&& candidate_wf(p, d)
            &&& c.number() is Some
            &&& magnitude(p, c.number().unwrap()) == pow2(d.exponent)
            &&& d.is_negative == (c.number().unwrap() <= (p - 1) / 2)
            &&& congruent(p, c.value(p, env) * env(k), -signed_value(d, env))
        }),
{
    let d = candidate(p, k, c, r).unwrap();
    let n = c.number().unwrap();
    let m = magnitude(p, n);
    lemma_field_congruent(p, n, 0);
    lemma_exponent_bound(m as u64);
    let x = env(k);
    if n > (p - 1) / 2 {
        lemma_mod_add_multiples_vanish(-n, p);
        lemma_small(p, p - n);
        assert(n * x == -((p - n) * x) + x * p) by (nonlinear_arith);
        lemma_congruent_multiple(p, -((p - n) * x), x);
    }
}

proof fn lemma_candidates_total<K>(
    p: int,
    s: Seq<(K, Symbolic<K>)>,
    ranges: Seq<Range>,
    c: Seq<Candidate<K>>,
    env: spec_fn(K) -> int,
)
    requires
        field_order(p),
        s.len() == c.len(),
        forall|i: int|
            #![trigger s[i]]
            0 <= i < s.len() ==> s[i].1.wf(p) && ranges[i].within(p) && candidate(
                p,
                s[i].0,
                s[i].1,
                ranges[i],
            ) == Some(c[i]),
    ensures
        congruent(
            p,
            terms_value(p, s, env),
            -total(c, |d: Candidate<K>| signed_value(d, env)),
        ),
    decreases s.len(),
{
    if s.len() > 0 {
        let n = s.len() - 1;
        let t = s.drop_last();
        let d = c.drop_last();
        assert forall|i: int| #![trigger t[i]] 0 <= i < t.len() implies t[i].1.wf(p)
            && ranges[i].within(p) && candidate(p, t[i].0, t[i].1, ranges[i]) == Some(d[i]) by {
            assert(t[i] == s[i]);
        }
        lemma_candidates_total(p, t, ranges, d, env);
        assert(s[n] == s.last());
        lemma_candidate(p, s[n].0, s[n].1, ranges[n], env);
        let f = |d: Candidate<K>| signed_value(d, env);
        lemma_congruent_add(
            p,
            terms_value(p, t, env),
            -total(d, f),
            s[n].1.value(p, env) * env(s[n].0),
            -signed_value(c[n], env),
        );
        assert(c.last() == c[n]);
        assert(f(c.last()) == signed_value(c[n], env));
    }
}

/// The candidates of the linear terms by ascending exponent.
pub open spec fn parts<V: Variable>(
    p: int,
    q: Quadratic<V::V>,
    ranges: Seq<Range>,
) -> Seq<Candidate<V::V>> {
    by_exponent(candidates(p, terms::<V>(q), ranges).unwrap())
}

/// The variables are read off the bits of the constant.
pub open spec fn bitwise<V: Variable>(
    p: int,
    q: Quadratic<V::V>,
    ranges: Seq<Range>,
) -> bool {
    &&& terms::<V>(q).len() > 1
    &&& separable::<V>(p, q, ranges)
}

/// The variables can be read off the bits of the constant.
pub open spec fn separable<V: Variable>(
    p: int,
    q: Quadratic<V::V>,
    ranges: Seq<Range>,
) -> bool {
    &&& q.quadratic.len() == 0
    &&& candidates(p, terms::<V>(q), ranges) is Some
    &&& separate(p, parts::<V>(p, q, ranges))
    &&& covered(p, parts::<V>(p, q, ranges)) < p
}

/// The candidates are well-formed, stand for the linear terms, and are permitted values.
pub proof fn lemma_parts<V: Variable>(
    p: int,
    q: Quadratic<V::V>,
    ranges: Seq<Range>,
    env: spec_fn(V::V) -> int,
)
    requires
        field_order(p),
        q.wf(p),
        ranges_match::<V>(p, q, ranges),
        candidates(p, terms::<V>(q), ranges) is Some,
    ensures
        candidates_wf(p, parts::<V>(p, q, ranges)),
        parts::<V>(p, q, ranges).len() == terms::<V>(q).len(),
        congruent(
            p,
            terms_value(p, terms::<V>(q), env),
            -components_sum(components(p, parts::<V>(p, q, ranges)), env),
        ),
        permitted::<V>(p, q, ranges, env) ==> forall|i: int|
            0 <= i < parts::<V>(p, q, ranges).len() ==> (#[trigger] parts::<V>(
                p,
                q,
                ranges,
            )[i]).range.allows(env(parts::<V>(p, q, ranges)[i].variable)),
        forall|i: int|
            #![trigger parts::<V>(p, q, ranges)[i]]
            0 <= i < parts::<V>(p, q, ranges).len() ==> {
                let c = parts::<V>(p, q, ranges)[i];
                &&& q.linear.contains_key(c.variable)
                &&& q.linear[c.variable].number() is Some
                &&& magnitude(p, q.linear[c.variable].number().unwrap()) == pow2(c.exponent)
            },
{
    let s = terms::<V>(q);
    let c = candidates(p, s, ranges).unwrap();
    let sorted = parts::<V>(p, q, ranges);
    let key = |d: Candidate<V::V>| d.exponent as int;
    lemma_terms::<V>(p, q);
    assert forall|i: int| #![trigger s[i]] 0 <= i < s.len() implies s[i].1.wf(p)
        && ranges[i].within(p) && candidate(p, s[i].0, s[i].1, ranges[i]) == Some(c[i]) by {
        assert(candidate(p, s[i].0, s[i].1, ranges[i]) is Some);
    }
    lemma_candidates_total(p, s, ranges, c, env);
    lemma_sorted_by(c, key);
    lemma_sorted_total(c, key, |d: Candidate<V::V>| signed_value(d, env));
    lemma_components_total(p, sorted, env);
    let good = |d: Candidate<V::V>|
        {
            &&& candidate_wf(p, d)
            &&& q.linear.contains_key(d.variable)
            &&& q.linear[d.variable].number() is Some
            &&& magnitude(p, q.linear[d.variable].number().unwrap()) == pow2(d.exponent)
        };
    assert forall|i: int| 0 <= i < c.len() implies good(#[trigger] c[i]) by {
        assert(candidate(p, s[i].0, s[i].1, ranges[i]) == Some(c[i]));
        lemma_candidate(p, s[i].0, s[i].1, ranges[i], env);
    }
    lemma_sorted_all(c, key, good);
    assert forall|i: int| #![trigger sorted[i]] 0 <= i < sorted.len() implies good(sorted[i]) by {
        assert(good(sorted_by(c, key)[i]));
    }
    if permitted::<V>(p, q, ranges, env) {
        let allowed = |d: Candidate<V::V>| d.range.allows(env(d.variable));
        assert forall|i: int| 0 <= i < c.len() implies allowed(#[trigger] c[i]) by {
            assert(candidate(p, s[i].0, s[i].1, ranges[i]) == Some(c[i]));
            lemma_candidate(p, s[i].0, s[i].1, ranges[i], env);
            assert(ranges[i].allows(env(s[i].0)));
        }
        lemma_sorted_all(c, key, allowed);
        assert forall|i: int| 0 <= i < sorted.len() implies (#[trigger] sorted[i]).range.allows(
            env(sorted[i].variable),
        ) by {
            assert(allowed(sorted_by(c, key)[i]));
        }
    }
}

/// An equation that is solved by its bits holds where the constant is the sum of the
/// components. Under permitted values the shifted values are bits of the masks then.
pub proof fn lemma_bitwise_solution<V: Variable>(
    p: int,
    q: Quadratic<V::V>,
    ranges: Seq<Range>,
    env: spec_fn(V::V) -> int,
)
    requires
        field_order(p),
        q.wf(p),
        assigns(p, env),
        ranges_match::<V>(p, q, ranges),
        separable::<V>(p, q, ranges),
    ensures
        q.value(p, env) == 0 <==> q.constant.value(p, env) == components_sum(
            components(p, parts::<V>(p, q, ranges)),
            env,
        ) % p,
        permitted::<V>(p, q, ranges, env) && q.value(p, env) == 0 ==> decomposes(
            p,
            parts::<V>(p, q, ranges),
            q.constant.value(p, env),
            shifted(p, parts::<V>(p, q, ranges), env),
        ),
{
    let s = parts::<V>(p, q, ranges);
    let t = terms_value(p, terms::<V>(q), env);
    let sum = components_sum(components(p, s), env);
    let z = q.constant.value(p, env);
    lemma_parts::<V>(p, q, ranges, env);
    lemma_affine_value::<V>(p, q, env);
    lemma_value_bound(q.constant, p, env);
    lemma_congruent_mod(p, sum);
    lemma_small(p, 0);
    lemma_small(p, z);
    if q.value(p, env) == 0 {
        lemma_congruent_sub(p, t + z, 0, t, -sum);
        assert(congruent(p, z, sum));
    }
    if z == sum % p {
        lemma_congruent_add(p, t, -sum, z, sum);
    }
    if permitted::<V>(p, q, ranges, env) && q.value(p, env) == 0 {
        lemma_shifted(p, s, env);
    }
}

/// The constraints of all unknown variables but one hold, and those of the known symbols.
pub open spec fn permitted_but<V: Variable>(
    p: int,
    q: Quadratic<V::V>,
    ranges: Seq<Range>,
    env: spec_fn(V::V) -> int,
    k: V::V,
) -> bool {
    &&& assigns(p, env)
    &&& q.consistent(env)
    &&& ranges_match::<V>(p, q, ranges)
    &&& forall|i: int|
        0 <= i < ranges.len() && terms::<V>(q)[i].0 != k ==> (#[trigger] ranges[i]).allows(
            env(terms::<V>(q)[i].0),
        )
}

/// A transferred range constraint holds of every solution of the equation whose other
/// unknown variables are in range. The range of the variable itself does not matter.
pub proof fn lemma_transferred_sound<V: Variable>(
    p: int,
    q: Quadratic<V::V>,
    ranges: Seq<Range>,
    env: spec_fn(V::V) -> int,
    k: V::V,
    r: Range,
)
    requires
        field_order(p),
        q.wf(p),
        q.quadratic.len() == 0,
        transferred(p, terms::<V>(q), ranges, q.constant) == Some(
            Consequence::RangeConstraint(k, r),
        ),
        permitted_but::<V>(p, q, ranges, env, k),
        q.value(p, env) == 0,
    ensures
        r.allows(env(k)),
{
    let s = terms::<V>(q);
    lemma_terms::<V>(p, q);
    lemma_affine_value::<V>(p, q, env);
    lemma_widest(p, s, ranges);
    let j = widest(p, s, ranges).unwrap();
    assert(s[j].0 == k);
    assert forall|i: int| #![trigger s[i]] 0 <= i < s.len() implies s[i].1.wf(p)
        && ranges[i].within(p) && (i == j || ranges[i].allows(env(s[i].0))) by {
        assert(ranges[i].within(p));
        if i != j {
            lemma_ascending_distinct::<V, Symbolic<V::V>>(s, i);
            lemma_ascending_distinct::<V, Symbolic<V::V>>(s, j);
            assert(ranges[i].allows(env(terms::<V>(q)[i].0)));
        }
    }
    lemma_transferred(p, s, ranges, q.constant, env);
}

/// The negated equation has the same solutions and the same permitted values.
proof fn lemma_opposite<V: Variable>(
    p: int,
    q: Quadratic<V::V>,
    ranges: Seq<Range>,
    env: spec_fn(V::V) -> int,
)
    requires
        field_order(p),
        q.wf(p),
        permitted::<V>(p, q, ranges, env),
    ensures
        q.negated(p).wf(p),
        permitted::<V>(p, q.negated(p), ranges, env),
        q.value(p, env) == 0 ==> q.negated(p).value(p, env) == 0,
{
    let n = q.negated(p);
    let s = terms::<V>(q);
    let t = terms::<V>(n);
    lemma_quadratic_negated(q, p, env);
    lemma_small(p, 0);
    let f = |c: Symbolic<V::V>| c.negated(p);
    lemma_listing_mapped::<V>(q.linear, f);
    assert(t.len() == s.len());
    assert forall|i: int| 0 <= i < ranges.len() implies (#[trigger] ranges[i]).allows(
        env(t[i].0),
    ) by {
        assert(ranges[i].allows(env(s[i].0)));
        assert(t[i] == (s[i].0, f(s[i].1)));
    }
}

/// The transferred constraints of the equation and of its negation hold of every solution.
proof fn lemma_both_transferred<V: Variable>(
    p: int,
    q: Quadratic<V::V>,
    ranges: Seq<Range>,
    env: spec_fn(V::V) -> int,
)
    requires
        field_order(p),
        q.wf(p),
        q.quadratic.len() == 0,
        permitted::<V>(p, q, ranges, env),
        q.value(p, env) == 0,
    ensures
        transferred(p, terms::<V>(q), ranges, q.constant) matches Some(c) ==> c.holds(p, env),
        transferred(p, terms::<V>(q.negated(p)), ranges, q.negated(p).constant) matches Some(c)
            ==> c.holds(p, env),
{
    let n = q.negated(p);
    lemma_opposite::<V>(p, q, ranges, env);
    if let Some(Consequence::RangeConstraint(k, r)) = transferred(
        p,
        terms::<V>(q),
        ranges,
        q.constant,
    ) {
        lemma_transferred_sound::<V>(p, q, ranges, env, k, r);
    }
    if let Some(Consequence::RangeConstraint(k, r)) = transferred(
        p,
        terms::<V>(n),
        ranges,
        n.constant,
    ) {
        lemma_transferred_sound::<V>(p, n, ranges, env, k, r);
    }
}

/// The bits of a number that is decomposed.
pub open spec fn bits_read<V: Variable>(
    p: int,
    q: Quadratic<V::V>,
    ranges: Seq<Range>,
) -> Seq<u64> {
    choose|bits: Seq<u64>|
        decomposes(p, parts::<V>(p, q, ranges), q.constant.number().unwrap(), bits)
}

/// Assignments that were read off the bits hold of every solution.
proof fn lemma_assignments_sound<V: Variable>(
    p: int,
    q: Quadratic<V::V>,
    ranges: Seq<Range>,
    env: spec_fn(V::V) -> int,
)
    requires
        field_order(p),
        q.wf(p),
        bitwise::<V>(p, q, ranges),
        q.constant.number() is Some,
        permitted::<V>(p, q, ranges, env),
        q.value(p, env) == 0,
    ensures
        decomposable(p, parts::<V>(p, q, ranges), q.constant.number().unwrap()),
        forall|i: int|
            0 <= i < parts::<V>(p, q, ranges).len() ==> (#[trigger] assignments(
                p,
                parts::<V>(p, q, ranges),
                bits_read::<V>(p, q, ranges),
            )[i]).holds(p, env),
{
    let s = parts::<V>(p, q, ranges);
    let n = q.constant.number().unwrap();
    let bits = bits_read::<V>(p, q, ranges);
    lemma_parts::<V>(p, q, ranges, env);
    lemma_bitwise_solution::<V>(p, q, ranges, env);
    lemma_shifted(p, s, env);
    assert(decomposes(p, s, n, shifted(p, s, env)));
    lemma_decomposition(p, s, n);
    assert(bits == shifted(p, s, env));
    let a = assignments(p, s, bits);
    assert forall|i: int| 0 <= i < s.len() implies (#[trigger] a[i]).holds(p, env) by {
        assert(candidate_wf(p, s[i]));
        lemma_bits_small(p, s, bits, i);
        lemma_unshifted(p, bits[i], s[i].exponent);
        assert(shifted(p, s, env)[i] == field_mul(
            p,
            env(s[i].variable),
            pow2(s[i].exponent) as int,
        ));
    }
}

/// What solving finds holds of every solution of the equation that the range constraints
/// permit.
pub proof fn lemma_solution_sound<V: Variable>(
    p: int,
    q: Quadratic<V::V>,
    ranges: Seq<Range>,
    env: spec_fn(V::V) -> int,
)
    requires
        field_order(p),
        q.wf(p),
        permitted::<V>(p, q, ranges, env),
        q.value(p, env) == 0,
    ensures
        solution::<V>(p, q, ranges) matches Ok(s) ==> forall|i: int|
            0 <= i < s.effects.len() ==> (#[trigger] s.effects[i]).holds(p, env),
{
    lemma_terms::<V>(p, q);
    if solution::<V>(p, q, ranges) is Ok && q.quadratic.len() == 0 && !q.is_known() {
        let s = solution::<V>(p, q, ranges)->Ok_0;
        let t = terms::<V>(q);
        if t.len() == 1 {
            lemma_affine_value::<V>(p, q, env);
            assert(terms_value(p, t.drop_last(), env) == 0);
            assert(t[0] == t.last());
            assert(q.linear.contains_key(t[0].0));
            lemma_division(p, t[0].0, t[0].1, q.constant, env);
        } else if t.len() == 0 {
            assert(q.linear =~= Map::empty());
        } else if bitwise::<V>(p, q, ranges) {
            let parts = parts::<V>(p, q, ranges);
            if q.constant.number() is Some {
                lemma_assignments_sound::<V>(p, q, ranges, env);
                assert(s.effects == assignments(p, parts, bits_read::<V>(p, q, ranges)));
            } else {
                lemma_bitwise_solution::<V>(p, q, ranges, env);
                lemma_parts::<V>(p, q, ranges, env);
                lemma_shifted(p, parts, env);
                let c = components(p, parts);
                let effect = Consequence::BitDecomposition(q.constant, c);
                assert(s.effects[0] == effect);
                assert forall|i: int| #![trigger c[i]] 0 <= i < c.len() implies submask(
                    field_mul(p, env(c[i].variable), pow2(c[i].exponent) as int) as u64,
                    c[i].bit_mask,
                ) by {
                    assert(submask(shifted(p, parts, env)[i], mask_of(p, parts[i])));
                }
                assert(effect.holds(p, env));
            }
        } else {
            lemma_both_transferred::<V>(p, q, ranges, env);
        }
    }
}

/// Where the variables have the values that were read off the bits, the equation holds.
pub proof fn lemma_assignments_complete<V: Variable>(
    p: int,
    q: Quadratic<V::V>,
    ranges: Seq<Range>,
    env: spec_fn(V::V) -> int,
    bits: Seq<u64>,
)
    requires
        field_order(p),
        q.wf(p),
        assigns(p, env),
        ranges_match::<V>(p, q, ranges),
        separable::<V>(p, q, ranges),
        q.constant.number() is Some,
        decomposes(p, parts::<V>(p, q, ranges), q.constant.number().unwrap(), bits),
        forall|i: int|
            0 <= i < parts::<V>(p, q, ranges).len() ==> (#[trigger] assignments(
                p,
                parts::<V>(p, q, ranges),
                bits,
            )[i]).holds(p, env),
    ensures
        q.value(p, env) == 0,
{
    let s = parts::<V>(p, q, ranges);
    let a = assignments(p, s, bits);
    lemma_parts::<V>(p, q, ranges, env);
    assert forall|i: int| 0 <= i < s.len() implies #[trigger] bits[i] == field_mul(
        p,
        env(s[i].variable),
        pow2(s[i].exponent) as int,
    ) by {
        assert(a[i].holds(p, env));
        assert(candidate_wf(p, s[i]));
        lemma_bits_small(p, s, bits, i);
        lemma_unshifted(p, bits[i], s[i].exponent);
    }
    lemma_shifted_sum(p, s, bits, env);
    lemma_bitwise_solution::<V>(p, q, ranges, env);
}

/// A complete result solves the equation: where all its effects hold, so does the equation.
/// An expression without unknown variables may have any value.
pub proof fn lemma_solution_complete<V: Variable>(
    p: int,
    q: Quadratic<V::V>,
    ranges: Seq<Range>,
    env: spec_fn(V::V) -> int,
)
    requires
        field_order(p),
        q.wf(p),
        !q.is_known(),
        assigns(p, env),
        q.consistent(env),
        ranges_match::<V>(p, q, ranges),
    ensures
        solution::<V>(p, q, ranges) matches Ok(s) ==> (s.complete && (forall|i: int|
            0 <= i < s.effects.len() ==> (#[trigger] s.effects[i]).holds(p, env)) ==> q.value(
            p,
            env,
        ) == 0),
{
    lemma_terms::<V>(p, q);
    if solution::<V>(p, q, ranges) is Ok && q.quadratic.len() == 0 {
        let s = solution::<V>(p, q, ranges)->Ok_0;
        let t = terms::<V>(q);
        if s.complete && forall|i: int|
            0 <= i < s.effects.len() ==> (#[trigger] s.effects[i]).holds(p, env) {
            if t.len() == 1 {
                lemma_affine_value::<V>(p, q, env);
                assert(terms_value(p, t.drop_last(), env) == 0);
                assert(t[0] == t.last());
                assert(q.linear.contains_key(t[0].0));
                lemma_division(p, t[0].0, t[0].1, q.constant, env);
            } else if t.len() == 0 {
                assert(q.linear =~= Map::empty());
            } else {
                assert(bitwise::<V>(p, q, ranges));
                let parts = parts::<V>(p, q, ranges);
                if q.constant.number() is Some {
                    let bits = bits_read::<V>(p, q, ranges);
                    assert(s.effects == assignments(p, parts, bits));
                    lemma_assignments_complete::<V>(p, q, ranges, env, bits);
                } else {
                    lemma_bitwise_solution::<V>(p, q, ranges, env);
                    assert(s.effects[0] == Consequence::BitDecomposition(
                        q.constant,
                        components(p, parts),
                    ));
                    assert(s.effects[0].holds(p, env));
                }
            }
        }
    }
}

/// A complete result is the solution of the equation: under permitted values, the equation
/// holds exactly if all effects hold.
pub proof fn lemma_solution_exact<V: Variable>(
    p: int,
    q: Quadratic<V::V>,
    ranges: Seq<Range>,
    env: spec_fn(V::V) -> int,
)
    requires
        field_order(p),
        q.wf(p),
        !q.is_known(),
        permitted::<V>(p, q, ranges, env),
    ensures
        solution::<V>(p, q, ranges) matches Ok(s) ==> (s.complete ==> (q.value(p, env) == 0
            <==> forall|i: int|
            0 <= i < s.effects.len() ==> (#[trigger] s.effects[i]).holds(p, env))),
{
    lemma_solution_complete::<V>(p, q, ranges, env);
    if q.value(p, env) == 0 {
        lemma_solution_sound::<V>(p, q, ranges, env);
    }
}

/// An error means that the equation has no solution which the range constraints permit.
pub proof fn lemma_error_is_unsolvable<V: Variable>(
    p: int,
    q: Quadratic<V::V>,
    ranges: Seq<Range>,
    env: spec_fn(V::V) -> int,
)
    requires
        field_order(p),
        q.wf(p),
        permitted::<V>(p, q, ranges, env),
    ensures
        solution::<V>(p, q, ranges) is Err ==> q.value(p, env) != 0,
{
    lemma_terms::<V>(p, q);
    if solution::<V>(p, q, ranges) is Err && q.value(p, env) == 0 {
        let t = terms::<V>(q);
        if q.is_known() {
            lemma_known_value(q, p, env);
            assert(q.constant.consistent(env));
            lemma_nonzero_sound(q.constant, p, env);
        } else if t.len() == 0 {
            assert(q.linear =~= Map::empty());
        } else {
            assert(bitwise::<V>(p, q, ranges));
            lemma_assignments_sound::<V>(p, q, ranges, env);
        }
    }
}

/// Which results come on which expressions. An expression without unknown variables leads to
/// a complete result without effects, or to an error if it is known not to be zero. One with
/// quadratic terms leads to an incomplete result without effects. The other error is that a
/// number is no sum of bits of the variables. All effects of an incomplete result are range
/// constraints.
pub proof fn lemma_solution_shape<V: Variable>(p: int, q: Quadratic<V::V>, ranges: Seq<Range>)
    requires
        q.wf(p),
    ensures
        solution::<V>(p, q, ranges) == Err::<Solution<V::V>, Error>(Error::ConstraintUnsatisfiable)
            <==> q.is_known() && q.constant.is_nonzero(p),
        solution::<V>(p, q, ranges) == Err::<Solution<V::V>, Error>(
            Error::ConflictingRangeConstraints,
        ) <==> bitwise::<V>(p, q, ranges) && q.constant.number() is Some && !decomposable(
            p,
            parts::<V>(p, q, ranges),
            q.constant.number().unwrap(),
        ),
        solution::<V>(p, q, ranges) matches Ok(s) ==> {
            &&& q.is_known() ==> s.complete && s.effects.len() == 0
            &&& q.quadratic.len() > 0 ==> !s.complete && s.effects.len() == 0
            &&& !s.complete ==> forall|i: int|
                0 <= i < s.effects.len() ==> (#[trigger] s.effects[i]) is RangeConstraint
        },
{
    lemma_terms::<V>(p, q);
    if q.is_known() {
        if terms::<V>(q).len() > 0 {
            assert(q.linear.contains_key(terms::<V>(q)[0].0));
        }
    } else if terms::<V>(q).len() == 0 {
        assert(q.linear =~= Map::empty());
    }
}

/// Some effect is about the variable.
pub open spec fn determined<K>(effects: Seq<Consequence<K>>, k: K) -> bool {
    exists|i: int| 0 <= i < effects.len() && (#[trigger] effects[i]).determines(k)
}

proof fn lemma_assignment_variables<K>(p: int, s: Seq<Candidate<K>>, bits: Seq<u64>, k: K)
    ensures
        determined(assignments(p, s, bits), k) <==> exists|j: int|
            0 <= j < s.len() && (#[trigger] s[j]).variable == k,
{
    let effects = assignments(p, s, bits);
    if determined(effects, k) {
        let i = choose|i: int| 0 <= i < effects.len() && (#[trigger] effects[i]).determines(k);
        assert(s[i].variable == k);
    }
    if exists|j: int| 0 <= j < s.len() && (#[trigger] s[j]).variable == k {
        let j = choose|j: int| 0 <= j < s.len() && (#[trigger] s[j]).variable == k;
        assert(effects[j].determines(k));
    }
}

proof fn lemma_component_variables<K>(
    p: int,
    s: Seq<Candidate<K>>,
    constant: Symbolic<K>,
    k: K,
)
    ensures
        determined(
            seq![Consequence::BitDecomposition(constant, components(p, s))],
            k,
        ) <==> exists|j: int| 0 <= j < s.len() && (#[trigger] s[j]).variable == k,
{
    let c = components(p, s);
    let effect = Consequence::BitDecomposition(constant, c);
    let effects = seq![effect];
    assert(effects[0] == effect);
    if determined(effects, k) {
        let i = choose|i: int| 0 <= i < effects.len() && (#[trigger] effects[i]).determines(k);
        assert(i == 0);
        let j = choose|j: int| 0 <= j < c.len() && (#[trigger] c[j]).variable == k;
        assert(s[j].variable == k);
    }
    if exists|j: int| 0 <= j < s.len() && (#[trigger] s[j]).variable == k {
        let j = choose|j: int| 0 <= j < s.len() && (#[trigger] s[j]).variable == k;
        assert(c[j].variable == k);
        assert(some_component(c, k));
        assert(effect.determines(k));
        assert(effects[0].determines(k));
    }
}

/// The candidates are those of the unknown variables.
proof fn lemma_part_variables<V: Variable>(
    p: int,
    q: Quadratic<V::V>,
    ranges: Seq<Range>,
    k: V::V,
)
    requires
        field_order(p),
        q.wf(p),
        ranges_match::<V>(p, q, ranges),
        candidates(p, terms::<V>(q), ranges) is Some,
    ensures
        q.linear.contains_key(k) <==> exists|j: int|
            0 <= j < parts::<V>(p, q, ranges).len() && (#[trigger] parts::<V>(
                p,
                q,
                ranges,
            )[j]).variable == k,
{
    let t = terms::<V>(q);
    let sorted = parts::<V>(p, q, ranges);
    let env = |k: V::V| 0int;
    lemma_terms::<V>(p, q);
    lemma_parts::<V>(p, q, ranges, env);
    if q.linear.contains_key(k) {
        assert(has_key(t, k));
        let i = position(t, k);
        let c = candidates(p, t, ranges).unwrap();
        assert(candidate(p, t[i].0, t[i].1, ranges[i]) is Some);
        assert(ranges[i].within(p));
        lemma_candidate(p, t[i].0, t[i].1, ranges[i], env);
        assert(c.contains(c[i]));
        lemma_sorted_member(c, |d: Candidate<V::V>| d.exponent as int, c[i]);
        let j = choose|j: int| 0 <= j < sorted.len() && sorted[j] == c[i];
        assert(sorted[j].variable == k);
    }
}

/// A transferred constraint is about a variable of the terms.
proof fn lemma_transferred_variables<K>(
    p: int,
    s: Seq<(K, Symbolic<K>)>,
    ranges: Seq<Range>,
    constant: Symbolic<K>,
    k: K,
)
    requires
        determined(optional(transferred(p, s, ranges, constant)), k),
    ensures
        exists|i: int| 0 <= i < s.len() && (#[trigger] s[i]).0 == k,
{
    lemma_widest(p, s, ranges);
    let effects = optional(transferred(p, s, ranges, constant));
    let i = choose|i: int| 0 <= i < effects.len() && (#[trigger] effects[i]).determines(k);
    let j = widest(p, s, ranges).unwrap();
    assert(s[j].0 == k);
}

proof fn lemma_determined_parts<K>(a: Seq<Consequence<K>>, b: Seq<Consequence<K>>, k: K)
    requires
        determined(a + b, k),
    ensures
        determined(a, k) || determined(b, k),
{
    let i = choose|i: int| 0 <= i < (a + b).len() && (#[trigger] (a + b)[i]).determines(k);
    if i < a.len() {
        assert(a[i].determines(k));
    } else {
        assert(b[i - a.len()].determines(k));
    }
}

/// All effects are about unknown variables of the expression, and a complete result has an
/// effect for every unknown variable.
pub proof fn lemma_solution_variables<V: Variable>(
    p: int,
    q: Quadratic<V::V>,
    ranges: Seq<Range>,
    k: V::V,
)
    requires
        field_order(p),
        q.wf(p),
        ranges_match::<V>(p, q, ranges),
    ensures
        solution::<V>(p, q, ranges) matches Ok(s) ==> {
            &&& determined(s.effects, k) ==> q.linear.contains_key(k)
            &&& s.complete && q.linear.contains_key(k) ==> determined(s.effects, k)
        },
{
    lemma_terms::<V>(p, q);
    if solution::<V>(p, q, ranges) is Ok && q.quadratic.len() == 0 && !q.is_known() {
        let s = solution::<V>(p, q, ranges)->Ok_0;
        let t = terms::<V>(q);
        if t.len() == 1 {
            assert(q.linear.contains_key(t[0].0));
            if q.linear.contains_key(k) {
                assert(has_key(t, k));
            }
            let c = t[0].1;
            let a = Consequence::Assignment(t[0].0, q.constant.over(p, c.negated(p)));
            if c.is_nonzero(p) {
                assert(s.effects[0] == a);
                assert(s.effects[0].determines(t[0].0));
            } else if q.constant.is_nonzero(p) {
                assert(s.effects[1] == a);
                assert(s.effects[1].determines(t[0].0));
                assert(!s.effects[0].determines(k));
            }
        } else if t.len() == 0 {
            assert(q.linear =~= Map::empty());
        } else if bitwise::<V>(p, q, ranges) {
            let sorted = parts::<V>(p, q, ranges);
            lemma_part_variables::<V>(p, q, ranges, k);
            if q.constant.number() is Some {
                let bits = bits_read::<V>(p, q, ranges);
                lemma_assignment_variables(p, sorted, bits, k);
                assert(s.effects == assignments(p, sorted, bits));
            } else {
                lemma_component_variables(p, sorted, q.constant, k);
                assert(s.effects == seq![
                    Consequence::BitDecomposition(q.constant, components(p, sorted)),
                ]);
            }
        } else if determined(s.effects, k) {
            let n = q.negated(p);
            let first = transferred(p, t, ranges, q.constant);
            let second = transferred(p, terms::<V>(n), ranges, n.constant);
            assert(s.effects == optional(first) + optional(second));
            lemma_determined_parts(optional(first), optional(second), k);
            lemma_listing_mapped::<V>(q.linear, |c: Symbolic<V::V>| c.negated(p));
            if determined(optional(first), k) {
                lemma_transferred_variables(p, t, ranges, q.constant, k);
                let i = choose|i: int| 0 <= i < t.len() && (#[trigger] t[i]).0 == k;
                assert(q.linear.contains_key(t[i].0));
            } else {
                let u = terms::<V>(n);
                lemma_transferred_variables(p, u, ranges, n.constant, k);
                let i = choose|i: int| 0 <= i < u.len() && (#[trigger] u[i]).0 == k;
                assert(u[i].0 == t[i].0);
                assert(q.linear.contains_key(t[i].0));
            }
        }
    }
}

/// How often an effect sets the variable.
pub open spec fn settings<K>(effect: Consequence<K>, k: K) -> int {
    match effect {
        Consequence::Assignment(v, _) => if v == k {
            1
        } else {
            0
        },
        Consequence::BitDecomposition(_, components) => total(
            components,
            |c: Component<K>|
                if c.variable == k {
                    1int
                } else {
                    0
                },
        ),
        _ => 0,
    }
}

/// How often effects set the variable.
pub open spec fn all_settings<K>(effects: Seq<Consequence<K>>, k: K) -> int {
    total(effects, |e: Consequence<K>| settings(e, k))
}

/// How often the variable occurs among candidates.
pub open spec fn occurrences<K>(s: Seq<Candidate<K>>, k: K) -> int {
    total(
        s,
        |c: Candidate<K>|
            if c.variable == k {
                1int
            } else {
                0
            },
    )
}

proof fn lemma_assignment_settings<K>(p: int, s: Seq<Candidate<K>>, bits: Seq<u64>, k: K)
    ensures
        all_settings(assignments(p, s, bits), k) == occurrences(s, k),
    decreases s.len(),
{
    if s.len() > 0 {
        lemma_assignment_settings(p, s.drop_last(), bits, k);
        assert(assignments(p, s, bits).drop_last() =~= assignments(p, s.drop_last(), bits));
    }
}

proof fn lemma_component_settings<K>(p: int, s: Seq<Candidate<K>>, k: K)
    ensures
        total(
            components(p, s),
            |c: Component<K>|
                if c.variable == k {
                    1int
                } else {
                    0
                },
        ) == occurrences(s, k),
    decreases s.len(),
{
    if s.len() > 0 {
        lemma_component_settings(p, s.drop_last(), k);
        assert(components(p, s).drop_last() =~= components(p, s.drop_last()));
    }
}

/// Candidates of terms with different variables have different variables.
pub proof fn lemma_occurrences<V: Variable>(
    t: Seq<(V::V, Symbolic<V::V>)>,
    s: Seq<Candidate<V::V>>,
    k: V::V,
)
    requires
        ascending::<V, Symbolic<V::V>>(t),
        t.len() == s.len(),
        forall|i: int| 0 <= i < t.len() ==> (#[trigger] s[i]).variable == t[i].0,
    ensures
        occurrences(s, k) == (if pairs_map(t).contains_key(k) {
            1int
        } else {
            0
        }),
    decreases t.len(),
{
    if t.len() > 0 {
        lemma_drop_last::<V, Symbolic<V::V>>(t);
        lemma_ascending_distinct::<V, Symbolic<V::V>>(t, t.len() - 1);
        assert forall|i: int| 0 <= i < t.len() - 1 implies (
        #[trigger] s.drop_last()[i]).variable == t.drop_last()[i].0 by {
            assert(s[i].variable == t[i].0);
        }
        lemma_occurrences::<V>(t.drop_last(), s.drop_last(), k);
        assert(s[t.len() - 1].variable == t.last().0);
    }
}

/// A complete result sets every unknown variable exactly once and no other variable.
pub proof fn lemma_solution_once<V: Variable>(
    p: int,
    q: Quadratic<V::V>,
    ranges: Seq<Range>,
    k: V::V,
)
    requires
        field_order(p),
        q.wf(p),
        ranges_match::<V>(p, q, ranges),
    ensures
        solution::<V>(p, q, ranges) matches Ok(s) ==> (s.complete ==> all_settings(s.effects, k)
            == (if q.linear.contains_key(k) {
            1int
        } else {
            0
        })),
{
    lemma_terms::<V>(p, q);
    if solution::<V>(p, q, ranges) is Ok && !q.is_known() {
        let s = solution::<V>(p, q, ranges)->Ok_0;
        let t = terms::<V>(q);
        if t.len() == 0 {
            assert(q.linear =~= Map::empty());
        } else if s.complete && t.len() == 1 {
            assert(q.linear.contains_key(t[0].0));
            if q.linear.contains_key(k) {
                assert(has_key(t, k));
            }
            let e = s.effects;
            let a = Consequence::Assignment(t[0].0, q.constant.over(p, t[0].1.negated(p)));
            assert(e.last() == a);
            let front = e.drop_last();
            if front.len() > 0 {
                assert(front.drop_last() =~= Seq::empty());
                assert(front.last() is Assertion);
                assert(all_settings(front.drop_last(), k) == 0);
            }
            assert(all_settings(front, k) == 0);
        } else if s.complete {
            assert(bitwise::<V>(p, q, ranges));
            let c = candidates(p, t, ranges).unwrap();
            let key = |d: Candidate<V::V>| d.exponent as int;
            let sorted = parts::<V>(p, q, ranges);
            assert forall|i: int| 0 <= i < t.len() implies (#[trigger] c[i]).variable == t[i].0 by {
                assert(candidate(p, t[i].0, t[i].1, ranges[i]) is Some);
            }
            lemma_occurrences::<V>(t, c, k);
            lemma_sorted_total(
                c,
                key,
                |d: Candidate<V::V>|
                    if d.variable == k {
                        1int
                    } else {
                        0
                    },
            );
            if q.constant.number() is Some {
                let bits = bits_read::<V>(p, q, ranges);
                lemma_assignment_settings(p, sorted, bits, k);
                assert(s.effects == assignments(p, sorted, bits));
            } else {
                lemma_component_settings(p, sorted, k);
                let effect = Consequence::BitDecomposition(q.constant, components(p, sorted));
                assert(s.effects.drop_last() =~= Seq::empty());
                assert(s.effects.last() == effect);
                assert(all_settings(s.effects.drop_last(), k) == 0);
            }
        }
    }
}

/// The variables are read off the bits of the constant unless some coefficient is no number
/// that is a power of two up to the sign, two masks share a bit, or the masks together reach
/// the modulus. Nothing is found then.
pub proof fn lemma_decomposition_given_up<V: Variable>(
    p: int,
    q: Quadratic<V::V>,
    ranges: Seq<Range>,
)
    ensures
        ({
            let t = terms::<V>(q);
            let given_up = decomposition(p, t, ranges, q.constant) matches Ok(s) && !s.complete;
            &&& given_up <==> {
                ||| exists|i: int|
                    0 <= i < t.len() && ((#[trigger] t[i]).1.number() matches Some(n)
                        ==> exponent_of(magnitude(p, n)) is None)
                ||| !separate(p, parts::<V>(p, q, ranges))
                ||| covered(p, parts::<V>(p, q, ranges)) >= p
            }
            &&& given_up ==> decomposition(p, t, ranges, q.constant) == Ok::<Solution<V::V>, Error>(
                Solution::<V::V>::nothing(),
            )
        }),
{
    let t = terms::<V>(q);
    assert forall|i: int| 0 <= i < t.len() implies (candidate(
        p,
        (#[trigger] t[i]).0,
        t[i].1,
        ranges[i],
    ) is None <==> (t[i].1.number() matches Some(n) ==> exponent_of(magnitude(p, n)) is None)) by {
    }
}

/// Variables that are read off the bits of a number are assigned by ascending exponent, and
/// their shifted values have only bits of their masks.
pub proof fn lemma_assigned_bits<V: Variable>(
    p: int,
    q: Quadratic<V::V>,
    ranges: Seq<Range>,
    i: int,
)
    requires
        field_order(p),
        q.wf(p),
        ranges_match::<V>(p, q, ranges),
        bitwise::<V>(p, q, ranges),
        q.constant.number() is Some,
        0 <= i < parts::<V>(p, q, ranges).len(),
    ensures
        ordered(parts::<V>(p, q, ranges), |c: Candidate<V::V>| c.exponent as int),
        solution::<V>(p, q, ranges) matches Ok(s) ==> {
            let c = parts::<V>(p, q, ranges)[i];
            let x = unshifted(p, bits_read::<V>(p, q, ranges)[i], c.exponent);
            let y = field_mul(p, x, pow2(c.exponent) as int);
            &&& s.complete
            &&& s.effects.len() == parts::<V>(p, q, ranges).len()
            &&& s.effects[i] == Consequence::Assignment(c.variable, Symbolic::Concrete(x))
            &&& 0 <= x < p
            &&& 0 <= y < p
            &&& submask(y as u64, mask_of(p, c))
            &&& may_wrap(p, c) || y == x * pow2(c.exponent)
        },
{
    let s = parts::<V>(p, q, ranges);
    let bits = bits_read::<V>(p, q, ranges);
    let c = s[i];
    lemma_terms::<V>(p, q);
    assert(q.linear.contains_key(terms::<V>(q)[0].0));
    lemma_sorted_by(
        candidates(p, terms::<V>(q), ranges).unwrap(),
        |c: Candidate<V::V>| c.exponent as int,
    );
    if solution::<V>(p, q, ranges) is Ok {
        let f = pow2(c.exponent) as int;
        assert(may_wrap(p, c) || bits[i] as int % f == 0);
        assert(submask(bits[i], mask_of(p, c)));
        lemma_bits_small(p, s, bits, i);
        lemma_parts::<V>(p, q, ranges, |k: V::V| 0int);
        assert(candidate_wf(p, c));
        lemma_unshifted(p, bits[i], c.exponent);
        if !may_wrap(p, c) {
            lemma_pow2_pos(c.exponent);
            lemma_fundamental_div_mod(bits[i] as int, f);
            lemma_mul_is_commutative(bits[i] as int / f, f);
        }
    }
}

/// Under permitted values, the bits of the constant determine every variable of an equation
/// that is solved by its bits: it is the value that has its bits when it is shifted. That is
/// the bits shifted back where the value cannot wrap.
pub proof fn lemma_bits_determine_variable<V: Variable>(
    p: int,
    q: Quadratic<V::V>,
    ranges: Seq<Range>,
    env: spec_fn(V::V) -> int,
    i: int,
)
    requires
        field_order(p),
        q.wf(p),
        permitted::<V>(p, q, ranges, env),
        bitwise::<V>(p, q, ranges),
        q.value(p, env) == 0,
        0 <= i < parts::<V>(p, q, ranges).len(),
    ensures
        ({
            let s = parts::<V>(p, q, ranges);
            let bits = bits_of(p, s, unsigned(p, s, q.constant.value(p, env)));
            &&& decomposes(p, s, q.constant.value(p, env), bits)
            &&& env(s[i].variable) == unshifted(p, bits[i], s[i].exponent)
            &&& may_wrap(p, s[i]) || env(s[i].variable) == bits[i] as int / pow2(
                s[i].exponent,
            ) as int
        }),
{
    let s = parts::<V>(p, q, ranges);
    let z = q.constant.value(p, env);
    let bits = shifted(p, s, env);
    lemma_parts::<V>(p, q, ranges, env);
    lemma_bitwise_solution::<V>(p, q, ranges, env);
    lemma_shifted(p, s, env);
    lemma_value_bound(q.constant, p, env);
    lemma_decomposition(p, s, z);
    assert(decomposes(p, s, z, bits));
    assert(candidate_wf(p, s[i]));
    lemma_bits_small(p, s, bits, i);
    lemma_unshifted(p, bits[i], s[i].exponent);
    assert(bits[i] == field_mul(p, env(s[i].variable), pow2(s[i].exponent) as int));
    assert(may_wrap(p, s[i]) || bits[i] as int % (pow2(s[i].exponent) as int) == 0);
}

/// The candidate on the other side of the equation.
spec fn opposite<K>(c: Candidate<K>) -> Candidate<K> {
    Candidate {
        variable: c.variable,
        range: c.range,
        is_negative: !c.is_negative,
        exponent: c.exponent,
    }
}

spec fn opposites<K>(s: Seq<Candidate<K>>) -> Seq<Candidate<K>> {
    s.map_values(|c: Candidate<K>| opposite(c))
}

proof fn lemma_opposite_candidate<K>(p: int, k: K, c: Symbolic<K>, r: Range)
    requires
        field_order(p),
        c.wf(p),
        !c.is_zero(),
    ensures
        candidate(p, k, c.negated(p), r) == (match candidate(p, k, c, r) {
            None => None,
            Some(d) => Some(opposite(d)),
        }),
{
    lemma_negated(c, p, |k: K| 0int);
    if let Some(n) = c.number() {
        lemma_mod_add_multiples_vanish(-n, p);
        lemma_small(p, p - n);
        lemma_mod_add_multiples_vanish(-(p - n), p);
        lemma_small(p, n);
        assert(p % 2 != 0);
    }
}

proof fn lemma_opposite_masks<K>(p: int, s: Seq<Candidate<K>>)
    ensures
        covered(p, opposites(s)) == covered(p, s),
        separate(p, opposites(s)) == separate(p, s),
    decreases s.len(),
{
    if s.len() > 0 {
        lemma_opposite_masks(p, s.drop_last());
        assert(opposites(s).drop_last() =~= opposites(s.drop_last()));
        assert(opposites(s).last() == opposite(s.last()));
    }
}

proof fn lemma_opposite_total<K>(s: Seq<Candidate<K>>, bits: Seq<u64>)
    ensures
        signed_total(opposites(s), bits) == -signed_total(s, bits),
    decreases s.len(),
{
    if s.len() > 0 {
        lemma_opposite_total(s.drop_last(), bits.drop_last());
        assert(opposites(s).drop_last() =~= opposites(s.drop_last()));
        assert(opposites(s).last() == opposite(s.last()));
    }
}

proof fn lemma_opposite_decomposes<K>(p: int, s: Seq<Candidate<K>>, n: int, bits: Seq<u64>)
    requires
        0 < p,
        0 <= n < p,
        decomposes(p, s, n, bits),
    ensures
        decomposes(p, opposites(s), field_neg(p, n), bits),
{
    let o = opposites(s);
    let total = signed_total(s, bits);
    lemma_opposite_total(s, bits);
    lemma_congruent_mod(p, total);
    lemma_congruent_sub(p, 0, 0, n, total);
    assert forall|i: int| 0 <= i < o.len() implies submask(
        #[trigger] bits[i],
        mask_of(p, o[i]),
    ) by {
        assert(submask(bits[i], mask_of(p, s[i])));
        assert(o[i] == opposite(s[i]));
    }
    assert forall|i: int| 0 <= i < o.len() implies may_wrap(p, o[i]) || #[trigger] bits[i] as int
        % (pow2(o[i].exponent) as int) == 0 by {
        assert(may_wrap(p, s[i]) || bits[i] as int % (pow2(s[i].exponent) as int) == 0);
        assert(o[i] == opposite(s[i]));
    }
}

/// Reading the variables off the bits of a number gives the same result for an expression
/// and for its negation.
pub proof fn lemma_decomposition_negated<V: Variable>(
    p: int,
    q: Quadratic<V::V>,
    ranges: Seq<Range>,
)
    requires
        field_order(p),
        q.wf(p),
        ranges_match::<V>(p, q, ranges),
        q.constant.number() is Some,
    ensures
        decomposition(p, terms::<V>(q.negated(p)), ranges, q.negated(p).constant) == decomposition(
            p,
            terms::<V>(q),
            ranges,
            q.constant,
        ),
{
    let t = terms::<V>(q);
    let u = terms::<V>(q.negated(p));
    lemma_terms::<V>(p, q);
    lemma_listing_mapped::<V>(q.linear, |c: Symbolic<V::V>| c.negated(p));
    assert forall|i: int| 0 <= i < t.len() implies candidate(
        p,
        (#[trigger] u[i]).0,
        u[i].1,
        ranges[i],
    ) == (match candidate(p, t[i].0, t[i].1, ranges[i]) {
        None => None,
        Some(d) => Some(opposite(d)),
    }) by {
        assert(u[i] == (t[i].0, t[i].1.negated(p)));
        lemma_opposite_candidate(p, t[i].0, t[i].1, ranges[i]);
    }
    if candidates(p, t, ranges) is Some {
        let c = candidates(p, t, ranges).unwrap();
        assert forall|i: int| 0 <= i < u.len() implies candidate(
            p,
            (#[trigger] u[i]).0,
            u[i].1,
            ranges[i],
        ) is Some by {
            assert(candidate(p, t[i].0, t[i].1, ranges[i]) is Some);
        }
        let d = candidates(p, u, ranges).unwrap();
        assert forall|i: int| 0 <= i < c.len() implies #[trigger] d[i] == opposites(c)[i] by {
            assert(candidate(p, t[i].0, t[i].1, ranges[i]) is Some);
            assert(candidate(p, u[i].0, u[i].1, ranges[i]) is Some);
        }
        assert(d =~= opposites(c));
        let s = by_exponent(c);
        lemma_sorted_mapped(
            c,
            |c: Candidate<V::V>| c.exponent as int,
            |c: Candidate<V::V>| opposite(c),
            |c: Candidate<V::V>| c.exponent as int,
        );
        let o = by_exponent(d);
        assert(o == opposites(s));
        lemma_opposite_masks(p, s);
        if separate(p, s) && covered(p, s) < p {
            let n = q.constant.number().unwrap();
            let m = field_neg(p, n);
            lemma_field_congruent(p, n, 0);
            lemma_decomposition(p, s, n);
            lemma_decomposition(p, o, m);
            assert(opposites(o) =~= s);
            lemma_mod_add_multiples_vanish(-n, p);
            lemma_small(p, n);
            if n > 0 {
                lemma_small(p, p - n);
                lemma_mod_add_multiples_vanish(-(p - n), p);
            }
            assert(field_neg(p, m) == n);
            let a = choose|bits: Seq<u64>| decomposes(p, s, n, bits);
            let b = choose|bits: Seq<u64>| decomposes(p, o, m, bits);
            if decomposable(p, s, n) {
                lemma_opposite_decomposes(p, s, n, a);
                lemma_opposite_decomposes(p, o, m, b);
                assert(a == b);
                assert(assignments(p, o, b) =~= assignments(p, s, a));
            }
            if decomposable(p, o, m) {
                lemma_opposite_decomposes(p, o, m, b);
            }
        }
    } else {
        let i = choose|i: int|
            0 <= i < t.len() && candidate(
                p,
                (#[trigger] t[i]).0,
                t[i].1,
                ranges[i],
            ) is None;
        assert(candidate(p, u[i].0, u[i].1, ranges[i]) is None);
    }
}

} // verus!
