//! Which terms the results of operations on quadratic expressions have.
use vstd::prelude::*;

use crate::field::{field_add, field_mul, field_neg, field_sub, lemma_field_congruent};
use crate::form::{
    lemma_negated_form, lemma_operations_occur, lemma_plus_form, lemma_times_form,
    lemma_updated_form, lemma_updated_unmentioned, mentioned, occurs, simple,
};
use crate::modular::{is_prime, lemma_congruent_add, lemma_congruent_close, lemma_small};
use crate::quadratic::{collapsed, collapsed_sum, open_pairs, Quadratic};
use crate::range_constraint::Range;
use crate::symbolic_expression::{
    assigns, lemma_negated, lemma_of_symbol, lemma_plus, lemma_times, lemma_updated,
    lemma_value_bound, Symbolic,
};

verus! {

/// The coefficient of a variable, zero where it has no linear term.
pub open spec fn coefficient<K>(q: Quadratic<K>, k: K) -> Symbolic<K> {
    if q.linear.contains_key(k) {
        q.linear[k]
    } else {
        Symbolic::Concrete(0)
    }
}

/// The known symbol occurs in a coefficient or constant with this range constraint.
pub open spec fn has_symbol<K>(q: Quadratic<K>, k: K, r: Range) -> bool
    decreases q,
{
    ||| occurs(q.constant, k, r)
    ||| exists|j: K| #[trigger] q.linear.contains_key(j) && occurs(q.linear[j], k, r)
    ||| exists|i: int|
        #![trigger q.quadratic[i]]
        0 <= i < q.quadratic.len() && (has_symbol(q.quadratic[i].0, k, r) || has_symbol(
            q.quadratic[i].1,
            k,
            r,
        ))
}

/// The known symbol occurs in a coefficient or constant.
pub open spec fn refers_to<K>(q: Quadratic<K>, k: K) -> bool {
    exists|r: Range| #[trigger] has_symbol(q, k, r)
}

/// All coefficients and constants are simplified.
pub open spec fn simplified<K>(p: int, q: Quadratic<K>) -> bool
    decreases q,
{
    &&& simple(p, q.constant)
    &&& forall|j: K| #[trigger] q.linear.contains_key(j) ==> simple(p, q.linear[j])
    &&& forall|i: int|
        #![trigger q.quadratic[i]]
        0 <= i < q.quadratic.len() ==> simplified(p, q.quadratic[i].0) && simplified(
            p,
            q.quadratic[i].1,
        )
}

/// A sum has the products of both summands in their order, and all linear and constant terms
/// added. A variable of both summands is lost exactly if its coefficients are numbers that add
/// up to zero.
pub proof fn lemma_plus_terms<K>(
    a: Quadratic<K>,
    b: Quadratic<K>,
    p: int,
    env: spec_fn(K) -> int,
    k: K,
)
    requires
        2 < p,
        a.wf(p),
        b.wf(p),
        assigns(p, env),
    ensures
        ({
            let s = a.plus(p, b);
            &&& s.quadratic == a.quadratic + b.quadratic
            &&& s.constant.value(p, env) == field_add(
                p,
                a.constant.value(p, env),
                b.constant.value(p, env),
            )
            &&& coefficient(s, k).value(p, env) == field_add(
                p,
                coefficient(a, k).value(p, env),
                coefficient(b, k).value(p, env),
            )
            &&& a.linear.contains_key(k) && !b.linear.contains_key(k) ==> s.linear.contains_key(k)
                && s.linear[k] == a.linear[k]
            &&& b.linear.contains_key(k) && !a.linear.contains_key(k) ==> s.linear.contains_key(k)
                && s.linear[k] == b.linear[k]
            &&& a.linear.contains_key(k) && b.linear.contains_key(k) ==> (s.linear.contains_key(k)
                <==> !(a.linear[k] is Concrete && b.linear[k] is Concrete && (
            a.linear[k]->Concrete_0 + b.linear[k]->Concrete_0) % p == 0))
            &&& s.linear.contains_key(k) ==> a.linear.contains_key(k) || b.linear.contains_key(k)
            &&& s.linear.contains_key(k) ==> s.linear[k] == coefficient(a, k).plus(
                p,
                coefficient(b, k),
            )
            &&& s.constant == a.constant.plus(p, b.constant)
        }),
{
    let x = coefficient(a, k);
    let y = coefficient(b, k);
    lemma_plus(a.constant, b.constant, p, env);
    assert(x.wf(p));
    assert(y.wf(p));
    lemma_value_bound(x, p, env);
    lemma_value_bound(y, p, env);
    lemma_plus(x, y, p, env);
    lemma_small(p, x.value(p, env));
    lemma_small(p, y.value(p, env));
}

/// A negation has the negated terms. Of a product the first factor is negated.
pub proof fn lemma_negated_terms<K>(q: Quadratic<K>, p: int, env: spec_fn(K) -> int, k: K)
    requires
        2 < p,
        q.wf(p),
        assigns(p, env),
    ensures
        ({
            let n = q.negated(p);
            &&& n.quadratic.len() == q.quadratic.len()
            &&& forall|i: int|
                #![trigger n.quadratic[i]]
                #![trigger q.quadratic[i]]
                0 <= i < q.quadratic.len() ==> n.quadratic[i] == (
                    q.quadratic[i].0.negated(p),
                    q.quadratic[i].1,
                )
            &&& n.constant.value(p, env) == field_neg(p, q.constant.value(p, env))
            &&& n.linear.contains_key(k) <==> q.linear.contains_key(k)
            &&& coefficient(n, k).value(p, env) == field_neg(p, coefficient(q, k).value(p, env))
            &&& n.linear.contains_key(k) ==> n.linear[k] == q.linear[k].negated(p)
            &&& n.constant == q.constant.negated(p)
        }),
{
    lemma_negated(q.constant, p, env);
    if q.linear.contains_key(k) {
        lemma_negated(q.linear[k], p, env);
    }
    lemma_small(p, 0);
}

/// A difference has the terms of the first and the negated terms of the second expression.
pub proof fn lemma_minus_terms<K>(
    a: Quadratic<K>,
    b: Quadratic<K>,
    p: int,
    env: spec_fn(K) -> int,
    k: K,
)
    requires
        2 < p,
        a.wf(p),
        b.wf(p),
        assigns(p, env),
    ensures
        ({
            let s = a.minus(p, b);
            &&& s == a.plus(p, b.negated(p))
            &&& s.quadratic.len() == a.quadratic.len() + b.quadratic.len()
            &&& s.quadratic.take(a.quadratic.len() as int) == a.quadratic
            &&& s.quadratic.skip(a.quadratic.len() as int) == b.negated(p).quadratic
            &&& s.constant.value(p, env) == field_sub(
                p,
                a.constant.value(p, env),
                b.constant.value(p, env),
            )
            &&& coefficient(s, k).value(p, env) == field_sub(
                p,
                coefficient(a, k).value(p, env),
                coefficient(b, k).value(p, env),
            )
            &&& a.linear.contains_key(k) != b.linear.contains_key(k) ==> s.linear.contains_key(k)
            &&& s.linear.contains_key(k) ==> a.linear.contains_key(k) || b.linear.contains_key(k)
        }),
{
    let s = a.minus(p, b);
    let n = b.negated(p);
    crate::quadratic::lemma_quadratic_negated(b, p, env);
    lemma_negated_terms(b, p, env, k);
    lemma_plus_terms(a, n, p, env, k);
    assert(s.quadratic.take(a.quadratic.len() as int) =~= a.quadratic);
    assert(s.quadratic.skip(a.quadratic.len() as int) =~= n.quadratic);
    let x = coefficient(a, k);
    let y = coefficient(b, k);
    assert(x.wf(p));
    assert(y.wf(p));
    lemma_value_bound(x, p, env);
    lemma_value_bound(y, p, env);
    lemma_sub_by_neg(p, x.value(p, env), y.value(p, env));
    lemma_value_bound(a.constant, p, env);
    lemma_value_bound(b.constant, p, env);
    lemma_sub_by_neg(p, a.constant.value(p, env), b.constant.value(p, env));
}

proof fn lemma_sub_by_neg(p: int, x: int, y: int)
    requires
        2 < p,
    ensures
        field_add(p, x, field_neg(p, y)) == field_sub(p, x, y),
{
    lemma_field_congruent(p, x, y);
    lemma_field_congruent(p, y, 0);
    lemma_field_congruent(p, x, field_neg(p, y));
    lemma_congruent_add(p, x, x, field_neg(p, y), -y);
    lemma_congruent_close(p, field_add(p, x, field_neg(p, y)), field_sub(p, x, y));
}

/// A product with a known expression other than the number zero has all terms multiplied. Of
/// a product the first factor is multiplied. The number zero leaves nothing.
pub proof fn lemma_scaled_terms<K>(
    q: Quadratic<K>,
    s: Symbolic<K>,
    p: int,
    env: spec_fn(K) -> int,
    k: K,
)
    requires
        2 < p,
        is_prime(p),
        q.wf(p),
        s.wf(p),
        assigns(p, env),
    ensures
        ({
            let n = q.scaled(p, s);
            &&& s == Symbolic::<K>::Concrete(0) ==> n == Quadratic::of_known(
                Symbolic::<K>::Concrete(0),
            )
            &&& s != Symbolic::<K>::Concrete(0) ==> {
                &&& n.quadratic.len() == q.quadratic.len()
                &&& forall|i: int|
                    #![trigger n.quadratic[i]]
                    #![trigger q.quadratic[i]]
                    0 <= i < q.quadratic.len() ==> n.quadratic[i] == (
                        q.quadratic[i].0.scaled(p, s),
                        q.quadratic[i].1,
                    )
                &&& n.constant.value(p, env) == field_mul(
                    p,
                    q.constant.value(p, env),
                    s.value(p, env),
                )
                &&& n.linear.contains_key(k) <==> q.linear.contains_key(k)
                &&& coefficient(n, k).value(p, env) == field_mul(
                    p,
                    coefficient(q, k).value(p, env),
                    s.value(p, env),
                )
                &&& n.linear.contains_key(k) ==> n.linear[k] == q.linear[k].times(p, s)
                &&& n.constant == q.constant.times(p, s)
            }
        }),
{
    lemma_times(q.constant, s, p, env);
    if q.linear.contains_key(k) {
        lemma_times(q.linear[k], s, p, env);
    }
    assert(0 * s.value(p, env) == 0);
    lemma_small(p, 0);
}

/// The product of two expressions with unknown variables is just that. A product with a known
/// expression is the multiple by it, on either side.
pub proof fn lemma_times_terms<K>(a: Quadratic<K>, b: Quadratic<K>, s: Symbolic<K>, p: int)
    requires
        2 < p,
        a.wf(p),
        b.wf(p),
    ensures
        !a.is_known() && !b.is_known() ==> {
            &&& a.times(p, b).quadratic == seq![(a, b)]
            &&& a.times(p, b).linear == Map::<K, Symbolic<K>>::empty()
            &&& a.times(p, b).constant == Symbolic::<K>::Concrete(0)
        },
        a.times(p, Quadratic::of_known(s)) == a.scaled(p, s),
        !a.is_known() ==> Quadratic::of_known(s).times(p, a) == a.scaled(p, s),
{
    assert(Quadratic::of_known(s).is_known());
}

/// What single unknown variables and known expressions are.
pub proof fn lemma_atoms<K>(k: K, s: Symbolic<K>)
    ensures
        Quadratic::of_unknown(k).quadratic.len() == 0,
        Quadratic::of_unknown(k).linear == Map::<K, Symbolic<K>>::empty().insert(
            k,
            Symbolic::Concrete(1),
        ),
        Quadratic::of_unknown(k).constant == Symbolic::<K>::Concrete(0),
        Quadratic::of_known(s).known() == Some(s),
        Quadratic::of_unknown(k).known() is None,
        forall|j: K| #[trigger] Quadratic::of_unknown(k).has_unknown(j) <==> j == k,
{
    assert(Quadratic::of_unknown(k).linear.contains_key(k));
}

/// Every factor of a product has an unknown variable, and no coefficient is the number zero.
pub proof fn lemma_factors<K>(q: Quadratic<K>, p: int, i: int)
    requires
        q.wf(p),
        0 <= i < q.quadratic.len(),
    ensures
        exists|k: K| #[trigger] q.quadratic[i].0.has_unknown(k),
        exists|k: K| #[trigger] q.quadratic[i].1.has_unknown(k),
        forall|k: K| #[trigger] q.linear.contains_key(k) ==> q.linear[k] != Symbolic::<K>::Concrete(
            0,
        ),
{
    crate::references::lemma_known_without_unknowns(q.quadratic[i].0, p);
    crate::references::lemma_known_without_unknowns(q.quadratic[i].1, p);
}

/// The known expression that an expression is: its constant, exactly if there are no unknown
/// variables.
pub proof fn lemma_known_exact<K>(q: Quadratic<K>, p: int)
    requires
        q.wf(p),
    ensures
        q.known() is Some <==> forall|k: K| !#[trigger] q.has_unknown(k),
        q.known() matches Some(s) ==> s == q.constant,
{
    crate::references::lemma_known_without_unknowns(q, p);
}

/// A sum has the known symbols of the summands only, and is simplified if both are.
pub proof fn lemma_plus_symbols<K>(a: Quadratic<K>, b: Quadratic<K>, p: int, k: K, r: Range)
    requires
        2 < p,
        is_prime(p),
    ensures
        has_symbol(a.plus(p, b), k, r) ==> has_symbol(a, k, r) || has_symbol(b, k, r),
        simplified(p, a) && simplified(p, b) ==> simplified(p, a.plus(p, b)),
{
    let s = a.plus(p, b);
    assert forall|i: int|
        #![trigger s.quadratic[i]]
        0 <= i < s.quadratic.len() implies s.quadratic[i] == (if i < a.quadratic.len() {
        a.quadratic[i]
    } else {
        b.quadratic[i - a.quadratic.len()]
    }) by {
    }
    lemma_operations_occur(a.constant, b.constant, p, k, r);
    lemma_plus_form(a.constant, b.constant, p);
    if has_symbol(s, k, r) && !occurs(s.constant, k, r) {
        if exists|j: K| #[trigger] s.linear.contains_key(j) && occurs(s.linear[j], k, r) {
            let j = choose|j: K| #[trigger] s.linear.contains_key(j) && occurs(s.linear[j], k, r);
            assert(a.linear.contains_key(j) || b.linear.contains_key(j));
            if a.linear.contains_key(j) && b.linear.contains_key(j) {
                lemma_operations_occur(a.linear[j], b.linear[j], p, k, r);
            }
        } else {
            let i = choose|i: int|
                #![trigger s.quadratic[i]]
                0 <= i < s.quadratic.len() && (has_symbol(s.quadratic[i].0, k, r) || has_symbol(
                    s.quadratic[i].1,
                    k,
                    r,
                ));
            if i < a.quadratic.len() {
                assert(a.quadratic[i] == s.quadratic[i]);
            } else {
                assert(b.quadratic[i - a.quadratic.len()] == s.quadratic[i]);
            }
        }
    }
    if simplified(p, a) && simplified(p, b) {
        assert forall|j: K| #[trigger] s.linear.contains_key(j) implies simple(
            p,
            s.linear[j],
        ) by {
            assert(a.linear.contains_key(j) || b.linear.contains_key(j));
            if a.linear.contains_key(j) && b.linear.contains_key(j) {
                lemma_plus_form(a.linear[j], b.linear[j], p);
            }
        }
    }
}

/// A negation has the known symbols of the expression, and is simplified if that is.
pub proof fn lemma_negated_symbols<K>(q: Quadratic<K>, p: int, k: K, r: Range)
    requires
        2 < p,
        is_prime(p),
    ensures
        has_symbol(q.negated(p), k, r) <==> has_symbol(q, k, r),
        simplified(p, q) ==> simplified(p, q.negated(p)),
    decreases q,
{
    let n = q.negated(p);
    lemma_negated_form(q.constant, p);
    assert forall|j: K| #[trigger] q.linear.contains_key(j) implies (occurs(n.linear[j], k, r)
        <==> occurs(q.linear[j], k, r)) && n.linear.contains_key(j) && (simple(p, q.linear[j])
        ==> simple(p, n.linear[j])) by {
        lemma_negated_form(q.linear[j], p);
    }
    assert forall|i: int|
        #![trigger n.quadratic[i]]
        #![trigger q.quadratic[i]]
        0 <= i < q.quadratic.len() implies n.quadratic[i].1 == q.quadratic[i].1 && (has_symbol(
        n.quadratic[i].0,
        k,
        r,
    ) <==> has_symbol(q.quadratic[i].0, k, r)) && (simplified(p, q.quadratic[i].0) ==> simplified(
        p,
        n.quadratic[i].0,
    )) by {
        lemma_negated_symbols(q.quadratic[i].0, p, k, r);
    }
    assert(forall|j: K| #[trigger] n.linear.contains_key(j) ==> q.linear.contains_key(j));
    if has_symbol(n, k, r) && !occurs(n.constant, k, r) {
        if exists|j: K| #[trigger] n.linear.contains_key(j) && occurs(n.linear[j], k, r) {
            let j = choose|j: K| #[trigger] n.linear.contains_key(j) && occurs(n.linear[j], k, r);
            assert(q.linear.contains_key(j));
        } else {
            let i = choose|i: int|
                #![trigger n.quadratic[i]]
                0 <= i < n.quadratic.len() && (has_symbol(n.quadratic[i].0, k, r) || has_symbol(
                    n.quadratic[i].1,
                    k,
                    r,
                ));
            assert(n.quadratic[i].1 == q.quadratic[i].1);
        }
    }
    if has_symbol(q, k, r) && !occurs(q.constant, k, r) {
        if exists|j: K| #[trigger] q.linear.contains_key(j) && occurs(q.linear[j], k, r) {
            let j = choose|j: K| #[trigger] q.linear.contains_key(j) && occurs(q.linear[j], k, r);
            assert(n.linear.contains_key(j));
        } else {
            let i = choose|i: int|
                #![trigger q.quadratic[i]]
                0 <= i < q.quadratic.len() && (has_symbol(q.quadratic[i].0, k, r) || has_symbol(
                    q.quadratic[i].1,
                    k,
                    r,
                ));
            assert(n.quadratic[i].1 == q.quadratic[i].1);
        }
    }
}

/// A multiple by a known expression has the known symbols of both only, and is simplified if
/// both are.
pub proof fn lemma_scaled_symbols<K>(q: Quadratic<K>, s: Symbolic<K>, p: int, k: K, r: Range)
    requires
        2 < p,
        is_prime(p),
    ensures
        has_symbol(q.scaled(p, s), k, r) ==> has_symbol(q, k, r) || occurs(s, k, r),
        simplified(p, q) && simple(p, s) ==> simplified(p, q.scaled(p, s)),
    decreases q,
{
    let n = q.scaled(p, s);
    let zero = Symbolic::<K>::Concrete(0);
    if s.is_zero() {
        assert(crate::form::occurrences(zero) == Seq::<(K, Range)>::empty());
        assert(!occurs(zero, k, r));
    } else {
        lemma_operations_occur(q.constant, s, p, k, r);
        lemma_times_form(q.constant, s, p);
        assert forall|j: K| #[trigger] n.linear.contains_key(j) implies q.linear.contains_key(j)
            && (occurs(n.linear[j], k, r) ==> occurs(q.linear[j], k, r) || occurs(s, k, r)) && (
        simple(p, q.linear[j]) && simple(p, s) ==> simple(p, n.linear[j])) by {
            lemma_operations_occur(q.linear[j], s, p, k, r);
            lemma_times_form(q.linear[j], s, p);
        }
        assert forall|i: int|
            #![trigger n.quadratic[i]]
            0 <= i < n.quadratic.len() implies n.quadratic[i].1 == q.quadratic[i].1 && (has_symbol(
            n.quadratic[i].0,
            k,
            r,
        ) ==> has_symbol(q.quadratic[i].0, k, r) || occurs(s, k, r)) && (simplified(
            p,
            q.quadratic[i].0,
        ) && simple(p, s) ==> simplified(p, n.quadratic[i].0)) by {
            lemma_scaled_symbols(q.quadratic[i].0, s, p, k, r);
        }
        if has_symbol(n, k, r) && !occurs(n.constant, k, r) {
            if exists|j: K| #[trigger] n.linear.contains_key(j) && occurs(n.linear[j], k, r) {
                let j = choose|j: K| #[trigger]
                    n.linear.contains_key(j) && occurs(n.linear[j], k, r);
                assert(q.linear.contains_key(j));
            } else {
                let i = choose|i: int|
                    #![trigger n.quadratic[i]]
                    0 <= i < n.quadratic.len() && (has_symbol(n.quadratic[i].0, k, r)
                        || has_symbol(n.quadratic[i].1, k, r));
                assert(n.quadratic[i].1 == q.quadratic[i].1);
            }
        }
    }
}

/// The symbol occurs in a factor of a product.
spec fn pairs_symbol<K>(
    pairs: Seq<(Quadratic<K>, Quadratic<K>)>,
    k: K,
    r: Range,
) -> bool {
    exists|i: int|
        #![trigger pairs[i]]
        0 <= i < pairs.len() && (has_symbol(pairs[i].0, k, r) || has_symbol(pairs[i].1, k, r))
}

spec fn pairs_simplified<K>(p: int, pairs: Seq<(Quadratic<K>, Quadratic<K>)>) -> bool {
    forall|i: int|
        #![trigger pairs[i]]
        0 <= i < pairs.len() ==> simplified(p, pairs[i].0) && simplified(p, pairs[i].1)
}

proof fn lemma_collapsed_symbols<K>(
    p: int,
    pairs: Seq<(Quadratic<K>, Quadratic<K>)>,
    k: K,
    r: Range,
)
    requires
        2 < p,
        is_prime(p),
    ensures
        has_symbol(collapsed_sum(p, pairs), k, r) ==> pairs_symbol(pairs, k, r),
        pairs_symbol(open_pairs(pairs), k, r) ==> pairs_symbol(pairs, k, r),
        pairs_simplified(p, pairs) ==> simplified(p, collapsed_sum(p, pairs)) && pairs_simplified(
            p,
            open_pairs(pairs),
        ),
    decreases pairs.len(),
{
    let zero = Symbolic::<K>::Concrete(0);
    assert(crate::form::occurrences(zero) == Seq::<(K, Range)>::empty());
    assert(!occurs(zero, k, r));
    if pairs.len() > 0 {
        let d = pairs.drop_last();
        let n = pairs.len() - 1;
        let (x, y) = pairs.last();
        assert(pairs[n] == (x, y));
        lemma_collapsed_symbols(p, d, k, r);
        if pairs_symbol(d, k, r) {
            let i = choose|i: int|
                #![trigger d[i]]
                0 <= i < d.len() && (has_symbol(d[i].0, k, r) || has_symbol(d[i].1, k, r));
            assert(pairs[i] == d[i]);
        }
        if pairs_simplified(p, pairs) {
            assert forall|i: int| #![trigger d[i]] 0 <= i < d.len() implies simplified(p, d[i].0)
                && simplified(p, d[i].1) by {
                assert(pairs[i] == d[i]);
            }
        }
        if x.is_known() || y.is_known() {
            let c = collapsed(p, x, y);
            lemma_plus_symbols(collapsed_sum(p, d), c, p, k, r);
            if x.is_known() && y.is_known() {
                lemma_operations_occur(x.constant, y.constant, p, k, r);
                lemma_times_form(x.constant, y.constant, p);
            } else if x.is_known() {
                lemma_scaled_symbols(y, x.constant, p, k, r);
            } else {
                lemma_scaled_symbols(x, y.constant, p, k, r);
            }
        } else {
            let rest = open_pairs(d);
            let all = open_pairs(pairs);
            assert(all == rest.push((x, y)));
            if pairs_symbol(all, k, r) {
                let i = choose|i: int|
                    #![trigger all[i]]
                    0 <= i < all.len() && (has_symbol(all[i].0, k, r) || has_symbol(
                        all[i].1,
                        k,
                        r,
                    ));
                if i < rest.len() {
                    assert(rest[i] == all[i]);
                }
            }
            if pairs_simplified(p, pairs) {
                assert forall|i: int|
                    #![trigger all[i]]
                    0 <= i < all.len() implies simplified(p, all[i].0) && simplified(
                    p,
                    all[i].1,
                ) by {
                    if i < rest.len() {
                        assert(rest[i] == all[i]);
                    }
                }
            }
        }
    }
}

/// What a known symbol of an updated expression may be.
spec fn explained<K>(q: Quadratic<K>, k: K, known: bool, r: Range, j: K, x: Range) -> bool {
    if j == k {
        &&& refers_to(q, k) || (known && q.has_unknown(k))
        &&& !(refers_to(q, k) && q.has_unknown(k)) ==> x == r && r.min != r.max
    } else {
        has_symbol(q, j, x)
    }
}

proof fn lemma_coefficient_symbol<K>(q: Quadratic<K>, i: K, k: K, x: Range)
    requires
        q.linear.contains_key(i),
        occurs(q.linear[i], k, x),
    ensures
        has_symbol(q, k, x),
        refers_to(q, k),
{
    assert(has_symbol(q, k, x));
}

proof fn lemma_mentioned_symbols<K>(q: Quadratic<K>, k: K)
    ensures
        mentioned(q.constant, k) ==> refers_to(q, k),
        forall|i: K| #[trigger] q.linear.contains_key(i) && mentioned(q.linear[i], k) ==> refers_to(
            q,
            k,
        ),
{
    if mentioned(q.constant, k) {
        let y = choose|y: Range| #[trigger] occurs(q.constant, k, y);
        assert(has_symbol(q, k, y));
    }
    assert forall|i: K| #[trigger]
        q.linear.contains_key(i) && mentioned(q.linear[i], k) implies refers_to(q, k) by {
        let y = choose|y: Range| #[trigger] occurs(q.linear[i], k, y);
        lemma_coefficient_symbol(q, i, k, y);
    }
}

proof fn lemma_factor_symbols<K>(q: Quadratic<K>, i: int, k: K)
    requires
        0 <= i < q.quadratic.len(),
    ensures
        refers_to(q.quadratic[i].0, k) || refers_to(q.quadratic[i].1, k) ==> refers_to(q, k),
        q.quadratic[i].0.has_unknown(k) || q.quadratic[i].1.has_unknown(k) ==> q.has_unknown(k),
{
    if refers_to(q.quadratic[i].0, k) {
        let y = choose|y: Range| #[trigger] has_symbol(q.quadratic[i].0, k, y);
        assert(has_symbol(q, k, y));
    }
    if refers_to(q.quadratic[i].1, k) {
        let y = choose|y: Range| #[trigger] has_symbol(q.quadratic[i].1, k, y);
        assert(has_symbol(q, k, y));
    }
}

proof fn lemma_affine_symbols<K>(
    q: Quadratic<K>,
    p: int,
    k: K,
    known: bool,
    r: Range,
    j: K,
    x: Range,
)
    requires
        2 < p,
        is_prime(p),
        ({
            let a = q.affine_updated(p, k, known, r);
            ||| occurs(a.constant, j, x)
            ||| exists|i: K| #[trigger] a.linear.contains_key(i) && occurs(a.linear[i], j, x)
        }),
    ensures
        explained(q, k, known, r, j, x),
{
    let a = q.affine_updated(p, k, known, r);
    let constant = q.constant.updated(p, k, r);
    lemma_updated_form(q.constant, p, k, r, j, x);
    lemma_mentioned_symbols(q, k);
    if q.linear.contains_key(k) && known {
        let symbol = Symbolic::of_symbol(k, r);
        let c = q.linear[k];
        lemma_operations_occur(constant, symbol.times(p, c), p, j, x);
        lemma_operations_occur(symbol, c, p, j, x);
        if occurs(c, j, x) {
            lemma_coefficient_symbol(q, k, j, x);
        }
        if r.min == r.max {
            assert(crate::form::occurrences(symbol) == Seq::<(K, Range)>::empty());
        } else {
            assert(crate::form::occurrences(symbol) == seq![(k, r)]);
        }
    }
    if exists|i: K| #[trigger] a.linear.contains_key(i) && occurs(a.linear[i], j, x) {
        let i = choose|i: K| #[trigger] a.linear.contains_key(i) && occurs(a.linear[i], j, x);
        assert(q.linear.contains_key(i));
        if q.linear.contains_key(k) {
            lemma_coefficient_symbol(q, i, j, x);
            assert(q.has_unknown(k));
        } else {
            lemma_updated_form(q.linear[i], p, k, r, j, x);
            if j != k {
                lemma_coefficient_symbol(q, i, j, x);
            }
        }
    }
}

/// A variable that is a known symbol after an update was one before, or was unknown and became
/// known. It has the new range constraint, and is gone if that leaves one value, unless it was
/// both known and unknown before. All other known symbols are those of before with the
/// constraints that they had.
pub proof fn lemma_updated_symbols<K>(
    q: Quadratic<K>,
    p: int,
    k: K,
    known: bool,
    r: Range,
    j: K,
    x: Range,
)
    requires
        2 < p,
        is_prime(p),
        has_symbol(q.updated(p, k, known, r), j, x),
    ensures
        j == k ==> refers_to(q, k) || (known && q.has_unknown(k)),
        j == k && !(refers_to(q, k) && q.has_unknown(k)) ==> x == r && r.min != r.max,
        j != k ==> has_symbol(q, j, x),
    decreases q,
{
    let a = q.affine_updated(p, k, known, r);
    let pairs = q.updated_pairs(p, k, known, r);
    let base = q.updated_base(p, k, known, r);
    let extra = collapsed_sum(p, pairs);
    if q.updated(p, k, known, r) != base {
        lemma_plus_symbols(base, extra, p, j, x);
    }
    lemma_collapsed_symbols(p, pairs, j, x);
    if occurs(a.constant, j, x) || exists|i: K| #[trigger]
        a.linear.contains_key(i) && occurs(a.linear[i], j, x) {
        lemma_affine_symbols(q, p, k, known, r, j, x);
    } else {
        assert(pairs_symbol(pairs, j, x)) by {
            if has_symbol(base, j, x) {
                let i = choose|i: int|
                    #![trigger base.quadratic[i]]
                    0 <= i < base.quadratic.len() && (has_symbol(base.quadratic[i].0, j, x)
                        || has_symbol(base.quadratic[i].1, j, x));
                assert(open_pairs(pairs)[i] == base.quadratic[i]);
            }
        }
        let i = choose|i: int|
            #![trigger pairs[i]]
            0 <= i < pairs.len() && (has_symbol(pairs[i].0, j, x) || has_symbol(pairs[i].1, j, x));
        let (u, v) = q.quadratic[i];
        lemma_factor_symbols(q, i, k);
        if has_symbol(pairs[i].0, j, x) {
            lemma_updated_symbols(u, p, k, known, r, j, x);
        } else {
            lemma_updated_symbols(v, p, k, known, r, j, x);
        }
        if j != k {
            assert(has_symbol(q, j, x));
        }
    }
}

/// A simplified expression is simplified again after an update.
pub proof fn lemma_updated_simplified<K>(q: Quadratic<K>, p: int, k: K, known: bool, r: Range)
    requires
        2 < p,
        is_prime(p),
        simplified(p, q),
    ensures
        simplified(p, q.updated(p, k, known, r)),
    decreases q,
{
    let pairs = q.updated_pairs(p, k, known, r);
    let base = q.updated_base(p, k, known, r);
    assert forall|i: int| #![trigger pairs[i]] 0 <= i < pairs.len() implies simplified(
        p,
        pairs[i].0,
    ) && simplified(p, pairs[i].1) by {
        lemma_updated_simplified(q.quadratic[i].0, p, k, known, r);
        lemma_updated_simplified(q.quadratic[i].1, p, k, known, r);
    }
    lemma_collapsed_symbols(p, pairs, k, r);
    lemma_updated_form(q.constant, p, k, r, k, r);
    if q.linear.contains_key(k) {
        let symbol = Symbolic::of_symbol(k, r);
        lemma_times_form(symbol, q.linear[k], p);
        lemma_plus_form(q.constant.updated(p, k, r), symbol.times(p, q.linear[k]), p);
    }
    assert forall|j: K| #[trigger] base.linear.contains_key(j) implies simple(
        p,
        base.linear[j],
    ) by {
        assert(q.linear.contains_key(j));
        lemma_updated_form(q.linear[j], p, k, r, k, r);
    }
    let kept = open_pairs(pairs);
    assert forall|i: int|
        #![trigger base.quadratic[i]]
        0 <= i < base.quadratic.len() implies simplified(p, base.quadratic[i].0) && simplified(
        p,
        base.quadratic[i].1,
    ) by {
        assert(kept[i] == base.quadratic[i]);
    }
    lemma_plus_symbols(base, collapsed_sum(p, pairs), p, k, r);
}

/// Where all products keep unknown variables in both factors, they all stay.
proof fn lemma_open_pairs<K>(p: int, pairs: Seq<(Quadratic<K>, Quadratic<K>)>)
    requires
        forall|i: int|
            #![trigger pairs[i]]
            0 <= i < pairs.len() ==> !pairs[i].0.is_known() && !pairs[i].1.is_known(),
    ensures
        open_pairs(pairs) == pairs,
        collapsed_sum(p, pairs) == Quadratic::of_known(Symbolic::<K>::Concrete(0)),
    decreases pairs.len(),
{
    if pairs.len() > 0 {
        let d = pairs.drop_last();
        assert forall|i: int| #![trigger d[i]] 0 <= i < d.len() implies !d[i].0.is_known()
            && !d[i].1.is_known() by {
            assert(d[i] == pairs[i]);
        }
        lemma_open_pairs(p, d);
        assert(pairs[pairs.len() - 1] == pairs.last());
        assert(open_pairs(pairs) =~= pairs);
    } else {
        assert(open_pairs(pairs) =~= pairs);
    }
}

/// An update that only brings a range constraint for a variable which is no known symbol of
/// the expression leaves a simplified expression as it is. So does one for a variable that
/// does not occur at all.
pub proof fn lemma_updated_unchanged<K>(q: Quadratic<K>, p: int, k: K, known: bool, r: Range)
    requires
        2 < p,
        is_prime(p),
        q.wf(p),
        simplified(p, q),
        !refers_to(q, k),
        !known || !q.has_unknown(k),
    ensures
        q.updated(p, k, known, r) == q,
    decreases q,
{
    let pairs = q.updated_pairs(p, k, known, r);
    let base = q.updated_base(p, k, known, r);
    assert forall|i: int| #![trigger pairs[i]] 0 <= i < pairs.len() implies pairs[i]
        == q.quadratic[i] && !pairs[i].0.is_known() && !pairs[i].1.is_known() by {
        lemma_factor_symbols(q, i, k);
        lemma_updated_unchanged(q.quadratic[i].0, p, k, known, r);
        lemma_updated_unchanged(q.quadratic[i].1, p, k, known, r);
    }
    assert(pairs =~= q.quadratic);
    lemma_open_pairs(p, pairs);
    lemma_mentioned_symbols(q, k);
    lemma_updated_unmentioned(q.constant, p, k, r);
    assert forall|j: K| #[trigger] q.linear.contains_key(j) implies q.linear[j].updated(p, k, r)
        == q.linear[j] && !q.linear[j].is_zero() by {
        lemma_updated_unmentioned(q.linear[j], p, k, r);
    }
    assert(base.linear =~= q.linear);
    assert(base =~= q);
    assert(q.updated(p, k, known, r) == base);
}

/// An update that only brings a range constraint keeps all unknown variables of a simplified
/// expression in which the variable is no known symbol.
pub proof fn lemma_updated_keeps_unknowns<K>(q: Quadratic<K>, p: int, k: K, r: Range, j: K)
    requires
        2 < p,
        is_prime(p),
        q.wf(p),
        simplified(p, q),
        !refers_to(q, k),
    ensures
        q.updated(p, k, false, r).has_unknown(j) <==> q.has_unknown(j),
{
    lemma_updated_unchanged(q, p, k, false, r);
}

/// Without products, an update of an unknown variable keeps all linear terms, but for the
/// variable itself if it becomes known. That term moves to the constant. In an update of any
/// other variable a linear term is lost exactly if its coefficient becomes the number zero.
pub proof fn lemma_updated_terms<K>(
    q: Quadratic<K>,
    p: int,
    k: K,
    known: bool,
    r: Range,
    j: K,
)
    requires
        q.quadratic.len() == 0,
    ensures
        ({
            let u = q.updated(p, k, known, r);
            &&& u.quadratic.len() == 0
            &&& q.linear.contains_key(k) && !known ==> u.linear == q.linear
            &&& q.linear.contains_key(k) && known ==> u.linear == q.linear.remove(k)
            &&& !q.linear.contains_key(k) ==> (u.linear.contains_key(j) <==> q.linear.contains_key(
                j,
            ) && q.linear[j].updated(p, k, r) != Symbolic::<K>::Concrete(0))
            &&& !q.linear.contains_key(k) && u.linear.contains_key(j) ==> u.linear[j]
                == q.linear[j].updated(p, k, r)
            &&& u.constant == (if known && q.linear.contains_key(k) {
                q.constant.updated(p, k, r).plus(p, Symbolic::of_symbol(k, r).times(p, q.linear[k]))
            } else {
                q.constant.updated(p, k, r)
            })
        }),
{
    let pairs = q.updated_pairs(p, k, known, r);
    assert(pairs =~= Seq::empty());
    lemma_open_pairs(p, pairs);
}

/// Without products, an update keeps the values of all coefficients under values that satisfy
/// the new constraint. If the variable becomes known, its term is added to the constant.
pub proof fn lemma_updated_values<K>(
    q: Quadratic<K>,
    p: int,
    k: K,
    known: bool,
    r: Range,
    env: spec_fn(K) -> int,
    j: K,
)
    requires
        2 < p,
        is_prime(p),
        q.wf(p),
        q.quadratic.len() == 0,
        r.within(p),
        assigns(p, env),
        r.allows(env(k)),
    ensures
        ({
            let u = q.updated(p, k, known, r);
            &&& coefficient(u, j).value(p, env) == (if known && j == k {
                0
            } else {
                coefficient(q, j).value(p, env)
            })
            &&& u.constant.value(p, env) == (if known {
                field_add(
                    p,
                    q.constant.value(p, env),
                    field_mul(p, env(k), coefficient(q, k).value(p, env)),
                )
            } else {
                q.constant.value(p, env)
            })
        }),
{
    let pairs = q.updated_pairs(p, k, known, r);
    let base = q.updated_base(p, k, known, r);
    assert(pairs =~= Seq::empty());
    lemma_open_pairs(p, pairs);
    assert(q.updated(p, k, known, r) == base);
    lemma_updated(q.constant, p, k, r, env);
    lemma_value_bound(q.constant, p, env);
    lemma_small(p, q.constant.value(p, env));
    lemma_small(p, 0);
    assert(env(k) * 0 == 0);
    if q.linear.contains_key(k) {
        let symbol = Symbolic::of_symbol(k, r);
        lemma_of_symbol(k, r, p, env);
        lemma_times(symbol, q.linear[k], p, env);
        lemma_plus(q.constant.updated(p, k, r), symbol.times(p, q.linear[k]), p, env);
    }
    if q.linear.contains_key(j) {
        lemma_updated(q.linear[j], p, k, r, env);
    }
}

/// Where no factor becomes known in an update, the products are those of the updated factors
/// in their places, and the other terms are updated as they are without products.
pub proof fn lemma_updated_products<K>(q: Quadratic<K>, p: int, k: K, known: bool, r: Range)
    requires
        forall|i: int|
            #![trigger q.quadratic[i]]
            0 <= i < q.quadratic.len() ==> {
                &&& !q.quadratic[i].0.updated(p, k, known, r).is_known()
                &&& !q.quadratic[i].1.updated(p, k, known, r).is_known()
            },
    ensures
        ({
            let u = q.updated(p, k, known, r);
            let affine = (Quadratic {
                quadratic: Seq::<(Quadratic<K>, Quadratic<K>)>::empty(),
                linear: q.linear,
                constant: q.constant,
            }).updated(p, k, known, r);
            &&& u.quadratic.len() == q.quadratic.len()
            &&& forall|i: int|
                #![trigger u.quadratic[i]]
                0 <= i < q.quadratic.len() ==> u.quadratic[i] == (
                    q.quadratic[i].0.updated(p, k, known, r),
                    q.quadratic[i].1.updated(p, k, known, r),
                )
            &&& u.linear == affine.linear
            &&& u.constant == affine.constant
        }),
{
    let pairs = q.updated_pairs(p, k, known, r);
    assert forall|i: int| #![trigger pairs[i]] 0 <= i < pairs.len() implies !pairs[i].0.is_known()
        && !pairs[i].1.is_known() by {
        assert(q.quadratic[i].0.updated(p, k, known, r) == pairs[i].0);
    }
    lemma_open_pairs(p, pairs);
    let a = Quadratic {
        quadratic: Seq::<(Quadratic<K>, Quadratic<K>)>::empty(),
        linear: q.linear,
        constant: q.constant,
    };
    let none = a.updated_pairs(p, k, known, r);
    assert(none =~= Seq::empty());
    lemma_open_pairs(p, none);
}

/// Adding zero changes nothing.
pub proof fn lemma_zero_plus<K>(q: Quadratic<K>, p: int)
    requires
        q.wf(p),
    ensures
        Quadratic::of_known(Symbolic::<K>::Concrete(0)).plus(p, q) == q,
        q.plus(p, Quadratic::of_known(Symbolic::<K>::Concrete(0))) == q,
{
    let zero = Quadratic::of_known(Symbolic::<K>::Concrete(0));
    let a = zero.plus(p, q);
    let b = q.plus(p, zero);
    assert(forall|k: K| #[trigger] q.linear.contains_key(k) ==> !q.linear[k].is_zero());
    assert(a.linear =~= q.linear);
    assert(b.linear =~= q.linear);
    assert(a.quadratic =~= q.quadratic);
    assert(b.quadratic =~= q.quadratic);
}

/// A product one of whose factors becomes known in an update joins the other terms, as the
/// multiple of the other factor. It vanishes if the known factor is the number zero.
pub proof fn lemma_updated_collapse<K>(q: Quadratic<K>, p: int, k: K, known: bool, r: Range)
    requires
        2 < p,
        is_prime(p),
        q.wf(p),
        r.within(p),
        q.quadratic.len() == 1,
    ensures
        ({
            let u = q.updated(p, k, known, r);
            let left = q.quadratic[0].0.updated(p, k, known, r);
            let right = q.quadratic[0].1.updated(p, k, known, r);
            let zero = Symbolic::<K>::Concrete(0);
            let affine = (Quadratic {
                quadratic: Seq::<(Quadratic<K>, Quadratic<K>)>::empty(),
                linear: q.linear,
                constant: q.constant,
            }).updated(p, k, known, r);
            &&& left.is_known() && !right.is_known() ==> u == (if left.constant == zero {
                affine
            } else {
                affine.plus(p, right.scaled(p, left.constant))
            })
            &&& right.is_known() && !left.is_known() ==> u == (if right.constant == zero {
                affine
            } else {
                affine.plus(p, left.scaled(p, right.constant))
            })
            &&& left.is_known() && right.is_known() ==> u == affine || u == affine.plus(
                p,
                Quadratic::of_known(left.constant.times(p, right.constant)),
            )
        }),
{
    let env = |j: K| 0int;
    let pairs = q.updated_pairs(p, k, known, r);
    let base = q.updated_base(p, k, known, r);
    let left = q.quadratic[0].0.updated(p, k, known, r);
    let right = q.quadratic[0].1.updated(p, k, known, r);
    assert(pairs.drop_last() =~= Seq::empty());
    assert(pairs.last() == pairs[0]);
    assert(open_pairs(pairs.drop_last()) =~= Seq::empty());
    let a = Quadratic {
        quadratic: Seq::<(Quadratic<K>, Quadratic<K>)>::empty(),
        linear: q.linear,
        constant: q.constant,
    };
    let none = a.updated_pairs(p, k, known, r);
    assert(none =~= Seq::empty());
    lemma_open_pairs(p, none);
    if left.is_known() || right.is_known() {
        assert(open_pairs(pairs) =~= Seq::empty());
        assert(base =~= a.updated(p, k, known, r));
        crate::quadratic::lemma_quadratic_updated(q.quadratic[0].0, p, k, known, r, env);
        crate::quadratic::lemma_quadratic_updated(q.quadratic[0].1, p, k, known, r, env);
        crate::quadratic::lemma_quadratic_scaled(right, left.constant, p, env);
        crate::quadratic::lemma_quadratic_scaled(left, right.constant, p, env);
        lemma_times(left.constant, right.constant, p, env);
        crate::quadratic::lemma_quadratic_known(
            left.constant.times(p, right.constant),
            p,
            env,
        );
        lemma_zero_plus(collapsed(p, left, right), p);
        assert(collapsed_sum(p, pairs.drop_last()) == Quadratic::of_known(
            Symbolic::<K>::Concrete(0),
        ));
        assert(collapsed_sum(p, pairs) == collapsed(p, left, right));
    }
}

proof fn lemma_open_filter<K>(pairs: Seq<(Quadratic<K>, Quadratic<K>)>)
    ensures
        open_pairs(pairs) == pairs.filter(
            |x: (Quadratic<K>, Quadratic<K>)| !x.0.is_known() && !x.1.is_known(),
        ),
    decreases pairs.len(),
{
    reveal(Seq::filter);
    if pairs.len() > 0 {
        lemma_open_filter(pairs.drop_last());
    } else {
        assert(open_pairs(pairs) =~= pairs);
    }
}

/// After an update the products whose factors both have unknown variables come first, in their
/// order. All other products have become linear and constant terms, or products of unknown
/// expressions that come after.
pub proof fn lemma_updated_kept<K>(q: Quadratic<K>, p: int, k: K, known: bool, r: Range)
    ensures
        ({
            let updated = Seq::new(
                q.quadratic.len(),
                |i: int|
                    (
                        q.quadratic[i].0.updated(p, k, known, r),
                        q.quadratic[i].1.updated(p, k, known, r),
                    ),
            );
            let kept = updated.filter(
                |x: (Quadratic<K>, Quadratic<K>)| !x.0.is_known() && !x.1.is_known(),
            );
            &&& kept.len() <= q.updated(p, k, known, r).quadratic.len()
            &&& q.updated(p, k, known, r).quadratic.take(kept.len() as int) == kept
        }),
{
    let updated = Seq::new(
        q.quadratic.len(),
        |i: int|
            (
                q.quadratic[i].0.updated(p, k, known, r),
                q.quadratic[i].1.updated(p, k, known, r),
            ),
    );
    let pairs = q.updated_pairs(p, k, known, r);
    assert(pairs =~= updated);
    lemma_open_filter(pairs);
    let kept = open_pairs(pairs);
    assert(q.updated(p, k, known, r).quadratic.take(kept.len() as int) =~= kept);
}

/// The products that have a known factor, multiplied out and added up in their order.
pub open spec fn multiplied_out<K>(
    p: int,
    pairs: Seq<(Quadratic<K>, Quadratic<K>)>,
) -> Quadratic<K>
    decreases pairs.len(),
{
    if pairs.len() == 0 {
        Quadratic::of_known(Symbolic::Concrete(0))
    } else if pairs.last().0.is_known() || pairs.last().1.is_known() {
        multiplied_out(p, pairs.drop_last()).plus(p, pairs.last().0.times(p, pairs.last().1))
    } else {
        multiplied_out(p, pairs.drop_last())
    }
}

proof fn lemma_multiplied_out<K>(p: int, pairs: Seq<(Quadratic<K>, Quadratic<K>)>)
    requires
        2 < p,
    ensures
        collapsed_sum(p, pairs) == multiplied_out(p, pairs),
    decreases pairs.len(),
{
    if pairs.len() > 0 {
        lemma_multiplied_out(p, pairs.drop_last());
        let (l, r) = pairs.last();
        if l.is_known() && r.is_known() {
            let a = collapsed(p, l, r);
            let b = l.times(p, r);
            lemma_times_form(l.constant, r.constant, p);
            assert(a.linear =~= b.linear);
            assert(a.quadratic =~= b.quadratic);
        }
    }
}

/// An update updates all terms. A product one of whose factors is known then is multiplied out
/// and added to the other terms, unless all of these products together are the number zero.
pub proof fn lemma_updated_all<K>(q: Quadratic<K>, p: int, k: K, known: bool, r: Range)
    requires
        2 < p,
    ensures
        ({
            let updated = Seq::new(
                q.quadratic.len(),
                |i: int|
                    (
                        q.quadratic[i].0.updated(p, k, known, r),
                        q.quadratic[i].1.updated(p, k, known, r),
                    ),
            );
            let affine = (Quadratic {
                quadratic: Seq::<(Quadratic<K>, Quadratic<K>)>::empty(),
                linear: q.linear,
                constant: q.constant,
            }).updated(p, k, known, r);
            let rest = Quadratic {
                quadratic: updated.filter(
                    |x: (Quadratic<K>, Quadratic<K>)| !x.0.is_known() && !x.1.is_known(),
                ),
                linear: affine.linear,
                constant: affine.constant,
            };
            let sum = multiplied_out(p, updated);
            q.updated(p, k, known, r) == (if sum == Quadratic::of_known(
                Symbolic::<K>::Concrete(0),
            ) {
                rest
            } else {
                rest.plus(p, sum)
            })
        }),
{
    let updated = Seq::new(
        q.quadratic.len(),
        |i: int|
            (
                q.quadratic[i].0.updated(p, k, known, r),
                q.quadratic[i].1.updated(p, k, known, r),
            ),
    );
    let pairs = q.updated_pairs(p, k, known, r);
    assert(pairs =~= updated);
    lemma_open_filter(pairs);
    lemma_multiplied_out(p, pairs);
    let a = Quadratic {
        quadratic: Seq::<(Quadratic<K>, Quadratic<K>)>::empty(),
        linear: q.linear,
        constant: q.constant,
    };
    let none = a.updated_pairs(p, k, known, r);
    assert(none =~= Seq::empty());
    lemma_open_pairs(p, none);
    let sum = multiplied_out(p, updated);
    let zero = Quadratic::of_known(Symbolic::<K>::Concrete(0));
    if sum.is_known() && sum.constant.is_zero() {
        assert(sum.quadratic =~= zero.quadratic);
        assert(sum == zero);
    }
}

} // verus!
