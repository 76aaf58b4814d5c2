//! The variables that an expression refers to, and how an expression is printed.
use vstd::prelude::*;

use crate::linear::{
    has_key, lemma_ascending_distinct, lemma_listing_exists, listing, pairs_map, position, sum_over,
};
use crate::quadratic::{collapsed, collapsed_sum, open_pairs, pairs_value, term_value, Quadratic};
use crate::range_constraint::Range;
use crate::symbolic_expression::{lemma_value_local, symbolic_text, Symbolic};
use crate::text::joined;
use crate::variable::Variable;

verus! {

/// The unknown variables of products, factor by factor.
pub open spec fn pairs_unknowns<V: Variable>(
    pairs: Seq<(Quadratic<V::V>, Quadratic<V::V>)>,
) -> Seq<V::V>
    decreases pairs,
{
    if pairs.len() == 0 {
        Seq::empty()
    } else {
        pairs_unknowns::<V>(pairs.drop_last()) + unknowns::<V>(pairs.last().0) + unknowns::<V>(
            pairs.last().1,
        )
    }
}

/// The variables of linear terms, in order.
pub open spec fn keys<K>(entries: Seq<(K, Symbolic<K>)>) -> Seq<K> {
    entries.map_values(|e: (K, Symbolic<K>)| e.0)
}

/// The unknown variables in the order in which they occur: those of the products, and
/// those of the linear terms in their order.
pub open spec fn unknowns<V: Variable>(q: Quadratic<V::V>) -> Seq<V::V>
    decreases q,
{
    pairs_unknowns::<V>(q.quadratic) + keys(listing::<V, Symbolic<V::V>>(q.linear))
}

/// The variables of products, factor by factor.
pub open spec fn pairs_references<V: Variable>(
    pairs: Seq<(Quadratic<V::V>, Quadratic<V::V>)>,
) -> Seq<V::V>
    decreases pairs,
{
    if pairs.len() == 0 {
        Seq::empty()
    } else {
        pairs_references::<V>(pairs.drop_last()) + references::<V>(pairs.last().0)
            + references::<V>(pairs.last().1)
    }
}

/// The variables of linear terms, each followed by the symbols of its coefficient.
pub open spec fn entries_references<K>(entries: Seq<(K, Symbolic<K>)>) -> Seq<K>
    decreases entries.len(),
{
    if entries.len() == 0 {
        Seq::empty()
    } else {
        entries_references(entries.drop_last()) + seq![entries.last().0]
            + entries.last().1.symbols()
    }
}

/// All variables, known and unknown, in the order in which they occur: those of the
/// products, those of the linear terms with the symbols of their coefficients, and the
/// symbols of the constant.
pub open spec fn references<V: Variable>(q: Quadratic<V::V>) -> Seq<V::V>
    decreases q,
{
    pairs_references::<V>(q.quadratic) + entries_references(
        listing::<V, Symbolic<V::V>>(q.linear),
    ) + q.constant.symbols()
}

/// The printed products.
pub open spec fn pair_texts<V: Variable>(
    p: int,
    pairs: Seq<(Quadratic<V::V>, Quadratic<V::V>)>,
) -> Seq<Seq<char>>
    decreases pairs,
{
    if pairs.len() == 0 {
        Seq::empty()
    } else {
        pair_texts::<V>(p, pairs.drop_last()).push(
            "("@ + quadratic_text::<V>(p, pairs.last().0) + ") * ("@ + quadratic_text::<V>(
                p,
                pairs.last().1,
            ) + ")"@,
        )
    }
}

/// A printed linear term.
pub open spec fn term_text<V: Variable>(p: int, k: V::V, c: Symbolic<V::V>) -> Seq<char> {
    if c.is_one() {
        V::name(k)
    } else if c.is_minus_one(p) {
        "-"@ + V::name(k)
    } else {
        symbolic_text::<V>(p, c) + " * "@ + V::name(k)
    }
}

/// The printed constant, if it is not zero.
pub open spec fn constant_texts<V: Variable>(p: int, c: Symbolic<V::V>) -> Seq<Seq<char>> {
    if c.is_zero() {
        Seq::empty()
    } else {
        seq![symbolic_text::<V>(p, c)]
    }
}

/// How an expression is printed: its terms joined by plus signs, or zero if that is empty.
pub open spec fn quadratic_text<V: Variable>(p: int, q: Quadratic<V::V>) -> Seq<char>
    decreases q,
{
    let text = joined(
        pair_texts::<V>(p, q.quadratic) + listing::<V, Symbolic<V::V>>(q.linear).map_values(
            |e: (V::V, Symbolic<V::V>)| term_text::<V>(p, e.0, e.1),
        ) + constant_texts::<V>(p, q.constant),
        " + "@,
    );
    if text.len() == 0 {
        "0"@
    } else {
        text
    }
}

/// What a concatenation contains.
pub proof fn lemma_contains_concat<K>(s: Seq<K>, t: Seq<K>, k: K)
    ensures
        (s + t).contains(k) <==> s.contains(k) || t.contains(k),
{
    if s.contains(k) {
        let i = choose|i: int| 0 <= i < s.len() && s[i] == k;
        assert((s + t)[i] == k);
    }
    if t.contains(k) {
        let i = choose|i: int| 0 <= i < t.len() && t[i] == k;
        assert((s + t)[s.len() + i] == k);
    }
    if (s + t).contains(k) {
        let i = choose|i: int| 0 <= i < (s + t).len() && (s + t)[i] == k;
        if i < s.len() {
            assert(s[i] == k);
        } else {
            assert(t[i - s.len()] == k);
        }
    }
}

/// The keys of the listing are the keys of the map.
proof fn lemma_listing_keys<V: Variable>(linear: Map<V::V, Symbolic<V::V>>, k: V::V)
    requires
        linear.dom().finite(),
    ensures
        keys(listing::<V, Symbolic<V::V>>(linear)).contains(k) <==> linear.contains_key(k),
{
    let s = listing::<V, Symbolic<V::V>>(linear);
    lemma_listing_exists::<V, Symbolic<V::V>>(linear);
    if linear.contains_key(k) {
        assert(has_key(s, k));
        let i = position(s, k);
        assert(keys(s)[i] == k);
    }
    if keys(s).contains(k) {
        let i = choose|i: int| 0 <= i < keys(s).len() && keys(s)[i] == k;
        assert(s[i].0 == k);
        assert(has_key(s, k));
        assert(pairs_map(s).contains_key(k));
    }
}

proof fn lemma_pairs_unknowns<V: Variable>(
    pairs: Seq<(Quadratic<V::V>, Quadratic<V::V>)>,
    k: V::V,
)
    requires
        forall|i: int|
            #![trigger pairs[i]]
            0 <= i < pairs.len() ==> {
                &&& unknowns::<V>(pairs[i].0).contains(k) <==> pairs[i].0.has_unknown(k)
                &&& unknowns::<V>(pairs[i].1).contains(k) <==> pairs[i].1.has_unknown(k)
            },
    ensures
        pairs_unknowns::<V>(pairs).contains(k) <==> exists|i: int|
            #![trigger pairs[i]]
            0 <= i < pairs.len() && (pairs[i].0.has_unknown(k) || pairs[i].1.has_unknown(k)),
    decreases pairs.len(),
{
    if pairs.len() > 0 {
        let d = pairs.drop_last();
        let n = pairs.len() - 1;
        assert forall|i: int| #![trigger d[i]] 0 <= i < d.len() implies d[i] == pairs[i] by {
        }
        lemma_pairs_unknowns::<V>(d, k);
        lemma_contains_concat(pairs_unknowns::<V>(d), unknowns::<V>(pairs[n].0), k);
        lemma_contains_concat(
            pairs_unknowns::<V>(d) + unknowns::<V>(pairs[n].0),
            unknowns::<V>(pairs[n].1),
            k,
        );
        if exists|i: int|
            #![trigger d[i]]
            0 <= i < d.len() && (d[i].0.has_unknown(k) || d[i].1.has_unknown(k)) {
            let i = choose|i: int|
                #![trigger d[i]]
                0 <= i < d.len() && (d[i].0.has_unknown(k) || d[i].1.has_unknown(k));
            assert(pairs[i] == d[i]);
        }
        if exists|i: int|
            #![trigger pairs[i]]
            0 <= i < pairs.len() && (pairs[i].0.has_unknown(k) || pairs[i].1.has_unknown(k)) {
            let i = choose|i: int|
                #![trigger pairs[i]]
                0 <= i < pairs.len() && (pairs[i].0.has_unknown(k) || pairs[i].1.has_unknown(k));
            if i < n {
                assert(pairs[i] == d[i]);
            }
        }
    }
}

/// The list of unknown variables holds exactly the unknown variables.
pub proof fn lemma_unknowns<V: Variable>(q: Quadratic<V::V>, p: int, k: V::V)
    requires
        q.wf(p),
    ensures
        unknowns::<V>(q).contains(k) <==> q.has_unknown(k),
    decreases q,
{
    assert forall|i: int| #![trigger q.quadratic[i]] 0 <= i < q.quadratic.len() implies ({
        &&& unknowns::<V>(q.quadratic[i].0).contains(k) <==> q.quadratic[i].0.has_unknown(k)
        &&& unknowns::<V>(q.quadratic[i].1).contains(k) <==> q.quadratic[i].1.has_unknown(k)
    }) by {
        lemma_unknowns::<V>(q.quadratic[i].0, p, k);
        lemma_unknowns::<V>(q.quadratic[i].1, p, k);
    }
    lemma_pairs_unknowns::<V>(q.quadratic, k);
    lemma_listing_keys::<V>(q.linear, k);
    lemma_contains_concat(
        pairs_unknowns::<V>(q.quadratic),
        keys(listing::<V, Symbolic<V::V>>(q.linear)),
        k,
    );
}

proof fn lemma_key_referenced<K>(entries: Seq<(K, Symbolic<K>)>, i: int)
    requires
        0 <= i < entries.len(),
    ensures
        entries_references(entries).contains(entries[i].0),
    decreases entries.len(),
{
    let k = entries[i].0;
    let front = entries_references(entries.drop_last());
    let last = seq![entries.last().0];
    if i == entries.len() - 1 {
        assert(last[0] == k);
    } else {
        lemma_key_referenced(entries.drop_last(), i);
        assert(entries.drop_last()[i] == entries[i]);
    }
    lemma_contains_concat(front, last, k);
    lemma_contains_concat(front + last, entries.last().1.symbols(), k);
}

proof fn lemma_pair_referenced<V: Variable>(
    pairs: Seq<(Quadratic<V::V>, Quadratic<V::V>)>,
    i: int,
    k: V::V,
)
    requires
        0 <= i < pairs.len(),
        references::<V>(pairs[i].0).contains(k) || references::<V>(pairs[i].1).contains(k),
    ensures
        pairs_references::<V>(pairs).contains(k),
    decreases pairs.len(),
{
    let front = pairs_references::<V>(pairs.drop_last());
    let l = references::<V>(pairs.last().0);
    let r = references::<V>(pairs.last().1);
    if i < pairs.len() - 1 {
        assert(pairs.drop_last()[i] == pairs[i]);
        lemma_pair_referenced::<V>(pairs.drop_last(), i, k);
    }
    lemma_contains_concat(front, l, k);
    lemma_contains_concat(front + l, r, k);
}

/// Unknown variables are among the variables that an expression refers to.
pub proof fn lemma_unknowns_referenced<V: Variable>(q: Quadratic<V::V>, p: int, k: V::V)
    requires
        q.wf(p),
        q.has_unknown(k),
    ensures
        references::<V>(q).contains(k),
    decreases q,
{
    let s = listing::<V, Symbolic<V::V>>(q.linear);
    let a = pairs_references::<V>(q.quadratic);
    let b = entries_references(s);
    if q.linear.contains_key(k) {
        lemma_listing_exists::<V, Symbolic<V::V>>(q.linear);
        assert(has_key(s, k));
        lemma_key_referenced(s, position(s, k));
    } else {
        let i = choose|i: int|
            #![trigger q.quadratic[i]]
            0 <= i < q.quadratic.len() && (q.quadratic[i].0.has_unknown(k)
                || q.quadratic[i].1.has_unknown(k));
        if q.quadratic[i].0.has_unknown(k) {
            lemma_unknowns_referenced::<V>(q.quadratic[i].0, p, k);
        } else {
            lemma_unknowns_referenced::<V>(q.quadratic[i].1, p, k);
        }
        lemma_pair_referenced::<V>(q.quadratic, i, k);
    }
    lemma_contains_concat(a, b, k);
    lemma_contains_concat(a + b, q.constant.symbols(), k);
}

/// An expression is known exactly if it has no unknown variables.
pub proof fn lemma_known_without_unknowns<K>(q: Quadratic<K>, p: int)
    requires
        q.wf(p),
    ensures
        q.is_known() <==> forall|k: K| !#[trigger] q.has_unknown(k),
    decreases q,
{
    if q.is_known() {
        assert forall|k: K| !#[trigger] q.has_unknown(k) by {
        }
    } else if q.quadratic.len() > 0 {
        let l = q.quadratic[0].0;
        lemma_known_without_unknowns(l, p);
        let k = choose|k: K| #[trigger] l.has_unknown(k);
        assert(q.has_unknown(k));
    } else if forall|k: K| !#[trigger] q.has_unknown(k) {
        assert forall|k: K| !#[trigger] q.linear.contains_key(k) by {
            assert(!q.has_unknown(k));
        }
        assert(q.linear =~= Map::empty());
    }
}

/// Every variable that a sum has as an unknown is one of a summand.
pub proof fn lemma_plus_unknowns<K>(a: Quadratic<K>, b: Quadratic<K>, p: int, k: K)
    requires
        a.plus(p, b).has_unknown(k),
    ensures
        a.has_unknown(k) || b.has_unknown(k),
{
    let q = a.plus(p, b);
    if !q.linear.contains_key(k) {
        let i = choose|i: int|
            #![trigger q.quadratic[i]]
            0 <= i < q.quadratic.len() && (q.quadratic[i].0.has_unknown(k)
                || q.quadratic[i].1.has_unknown(k));
        if i < a.quadratic.len() {
            assert(a.quadratic[i] == q.quadratic[i]);
        } else {
            assert(b.quadratic[i - a.quadratic.len()] == q.quadratic[i]);
        }
    }
}

/// A product with a known expression has no further unknown variables.
pub proof fn lemma_scaled_unknowns<K>(q: Quadratic<K>, s: Symbolic<K>, p: int, k: K)
    requires
        q.scaled(p, s).has_unknown(k),
    ensures
        q.has_unknown(k),
    decreases q,
{
    let n = q.scaled(p, s);
    if s.is_zero() {
    } else if !n.linear.contains_key(k) {
        let i = choose|i: int|
            #![trigger n.quadratic[i]]
            0 <= i < n.quadratic.len() && (n.quadratic[i].0.has_unknown(k)
                || n.quadratic[i].1.has_unknown(k));
        if n.quadratic[i].0.has_unknown(k) {
            lemma_scaled_unknowns(q.quadratic[i].0, s, p, k);
        }
        assert(q.quadratic[i].0.has_unknown(k) || q.quadratic[i].1.has_unknown(k));
    }
}

proof fn lemma_collapsed_unknowns<K>(
    pairs: Seq<(Quadratic<K>, Quadratic<K>)>,
    p: int,
    k: K,
)
    requires
        forall|i: int|
            #![trigger pairs[i]]
            0 <= i < pairs.len() ==> !pairs[i].0.has_unknown(k) && !pairs[i].1.has_unknown(k),
    ensures
        !collapsed_sum(p, pairs).has_unknown(k),
        forall|i: int|
            #![trigger open_pairs(pairs)[i]]
            0 <= i < open_pairs(pairs).len() ==> !open_pairs(pairs)[i].0.has_unknown(k)
                && !open_pairs(pairs)[i].1.has_unknown(k),
    decreases pairs.len(),
{
    if pairs.len() > 0 {
        let d = pairs.drop_last();
        assert forall|i: int| #![trigger d[i]] 0 <= i < d.len() implies !d[i].0.has_unknown(k)
            && !d[i].1.has_unknown(k) by {
            assert(d[i] == pairs[i]);
        }
        lemma_collapsed_unknowns(d, p, k);
        let (l, r) = pairs.last();
        assert(pairs[pairs.len() - 1] == (l, r));
        if l.is_known() || r.is_known() {
            let c = collapsed(p, l, r);
            if c.has_unknown(k) {
                if l.is_known() && r.is_known() {
                } else if l.is_known() {
                    lemma_scaled_unknowns(r, l.constant, p, k);
                } else {
                    lemma_scaled_unknowns(l, r.constant, p, k);
                }
            }
            if collapsed_sum(p, pairs).has_unknown(k) {
                lemma_plus_unknowns(collapsed_sum(p, d), c, p, k);
            }
        } else {
            let rest = open_pairs(d);
            let all = open_pairs(pairs);
            assert(all == rest.push(pairs.last()));
            assert forall|i: int|
                #![trigger all[i]]
                0 <= i < all.len() implies !all[i].0.has_unknown(k) && !all[i].1.has_unknown(k) by {
                if i < rest.len() {
                    assert(all[i] == rest[i]);
                }
            }
        }
    }
}

/// An update brings in no unknown variable, and a variable that becomes known is no
/// longer an unknown one.
pub proof fn lemma_updated_unknowns<K>(
    q: Quadratic<K>,
    p: int,
    k: K,
    known: bool,
    r: Range,
    other: K,
)
    requires
        q.updated(p, k, known, r).has_unknown(other),
    ensures
        q.has_unknown(other),
        known ==> other != k,
    decreases q,
{
    if !q.has_unknown(other) || (known && other == k) {
        let affine = q.affine_updated(p, k, known, r);
        let pairs = q.updated_pairs(p, k, known, r);
        let base = q.updated_base(p, k, known, r);
        assert forall|i: int|
            #![trigger pairs[i]]
            0 <= i < pairs.len() implies !pairs[i].0.has_unknown(other) && !pairs[i].1.has_unknown(
            other,
        ) by {
            if pairs[i].0.has_unknown(other) {
                lemma_updated_unknowns(q.quadratic[i].0, p, k, known, r, other);
            }
            if pairs[i].1.has_unknown(other) {
                lemma_updated_unknowns(q.quadratic[i].1, p, k, known, r, other);
            }
        }
        lemma_collapsed_unknowns(pairs, p, other);
        assert(!base.has_unknown(other)) by {
            assert(!base.linear.contains_key(other));
        }
        if q.updated(p, k, known, r) != base {
            lemma_plus_unknowns(base, collapsed_sum(p, pairs), p, other);
        }
    }
}

/// Two assignments agree on a list of variables.
pub open spec fn agree<K>(
    vars: Seq<K>,
    env: spec_fn(K) -> int,
    other: spec_fn(K) -> int,
) -> bool {
    forall|k: K| vars.contains(k) ==> #[trigger] env(k) == other(k)
}

proof fn lemma_agree_parts<K>(
    s: Seq<K>,
    t: Seq<K>,
    env: spec_fn(K) -> int,
    other: spec_fn(K) -> int,
)
    requires
        agree(s + t, env, other),
    ensures
        agree(s, env, other),
        agree(t, env, other),
{
    assert forall|k: K| s.contains(k) implies #[trigger] env(k) == other(k) by {
        lemma_contains_concat(s, t, k);
    }
    assert forall|k: K| t.contains(k) implies #[trigger] env(k) == other(k) by {
        lemma_contains_concat(s, t, k);
    }
}

proof fn lemma_entries_agree<K>(
    entries: Seq<(K, Symbolic<K>)>,
    i: int,
    env: spec_fn(K) -> int,
    other: spec_fn(K) -> int,
)
    requires
        agree(entries_references(entries), env, other),
        0 <= i < entries.len(),
    ensures
        env(entries[i].0) == other(entries[i].0),
        agree(entries[i].1.symbols(), env, other),
    decreases entries.len(),
{
    let front = entries_references(entries.drop_last());
    lemma_agree_parts(front + seq![entries.last().0], entries.last().1.symbols(), env, other);
    lemma_agree_parts(front, seq![entries.last().0], env, other);
    if i == entries.len() - 1 {
        assert(seq![entries.last().0][0] == entries[i].0);
        assert(seq![entries.last().0].contains(entries[i].0));
    } else {
        lemma_entries_agree(entries.drop_last(), i, env, other);
        assert(entries.drop_last()[i] == entries[i]);
    }
}

proof fn lemma_pairs_local<V: Variable>(
    pairs: Seq<(Quadratic<V::V>, Quadratic<V::V>)>,
    p: int,
    env: spec_fn(V::V) -> int,
    other: spec_fn(V::V) -> int,
)
    requires
        2 < p,
        forall|i: int|
            #![trigger pairs[i]]
            0 <= i < pairs.len() ==> pairs[i].0.wf(p) && pairs[i].1.wf(p),
        agree(pairs_references::<V>(pairs), env, other),
    ensures
        pairs_value(p, pairs, env) == pairs_value(p, pairs, other),
    decreases pairs,
{
    if pairs.len() > 0 {
        let d = pairs.drop_last();
        let (l, r) = pairs.last();
        assert(pairs[pairs.len() - 1] == (l, r));
        assert forall|i: int| #![trigger d[i]] 0 <= i < d.len() implies d[i].0.wf(p) && d[i].1.wf(
            p,
        ) by {
            assert(d[i] == pairs[i]);
        }
        lemma_agree_parts(
            pairs_references::<V>(d) + references::<V>(l),
            references::<V>(r),
            env,
            other,
        );
        lemma_agree_parts(pairs_references::<V>(d), references::<V>(l), env, other);
        lemma_pairs_local::<V>(d, p, env, other);
        lemma_quadratic_local::<V>(l, p, env, other);
        lemma_quadratic_local::<V>(r, p, env, other);
    }
}

/// The value depends only on the variables that the expression refers to.
pub proof fn lemma_quadratic_local<V: Variable>(
    q: Quadratic<V::V>,
    p: int,
    env: spec_fn(V::V) -> int,
    other: spec_fn(V::V) -> int,
)
    requires
        2 < p,
        q.wf(p),
        agree(references::<V>(q), env, other),
    ensures
        q.value(p, env) == q.value(p, other),
    decreases q,
{
    let s = listing::<V, Symbolic<V::V>>(q.linear);
    lemma_listing_exists::<V, Symbolic<V::V>>(q.linear);
    lemma_agree_parts(
        pairs_references::<V>(q.quadratic) + entries_references(s),
        q.constant.symbols(),
        env,
        other,
    );
    lemma_agree_parts(pairs_references::<V>(q.quadratic), entries_references(s), env, other);
    lemma_pairs_local::<V>(q.quadratic, p, env, other);
    lemma_value_local(q.constant, p, env, other);
    let f = |k: V::V| term_value(p, q.linear, env, k);
    let g = |k: V::V| term_value(p, q.linear, other, k);
    assert forall|k: V::V| q.linear.dom().contains(k) implies #[trigger] f(k) == g(k) by {
        assert(has_key(s, k));
        let i = position(s, k);
        lemma_ascending_distinct::<V, Symbolic<V::V>>(s, i);
        lemma_entries_agree(s, i, env, other);
        lemma_value_local(q.linear[k], p, env, other);
    }
    lemma_sum_equal(q.linear.dom(), f, g);
}

proof fn lemma_sum_equal<K>(s: Set<K>, f: spec_fn(K) -> int, g: spec_fn(K) -> int)
    requires
        s.finite(),
        forall|k: K| s.contains(k) ==> #[trigger] f(k) == g(k),
    ensures
        sum_over(s, f) == sum_over(s, g),
    decreases s.len(),
{
    if s.len() > 0 {
        let k = s.choose();
        assert(f(k) == g(k));
        lemma_sum_equal(s.remove(k), f, g);
    }
}

} // verus!
