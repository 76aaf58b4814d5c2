//! Which variables expressions are said to refer to.
use vstd::prelude::*;

use crate::form::{lemma_symbols, mentioned, occurrences, occurs};
use crate::linear::{
    has_key, lemma_ascending_distinct, lemma_empty_listing, lemma_listing, lemma_listing_exists,
    lemma_push_greatest, listing, pairs_map, position,
};
use crate::quadratic::Quadratic;
use crate::range_constraint::Range;
use crate::references::{
    entries_references, keys, lemma_contains_concat, pairs_references, pairs_unknowns, references,
    unknowns,
};
use crate::structure::{has_symbol, refers_to};
use crate::symbolic_expression::{views, Symbolic};
use crate::variable::Variable;

verus! {

/// The symbols of an expression are those that occur in it.
pub proof fn lemma_symbols_mentioned<K>(s: Symbolic<K>, k: K)
    ensures
        s.symbols().contains(k) <==> mentioned(s, k),
{
    lemma_symbols(s);
    let o = occurrences(s);
    if s.symbols().contains(k) {
        let i = choose|i: int| 0 <= i < s.symbols().len() && s.symbols()[i] == k;
        assert(o[i] == (k, o[i].1));
        assert(occurs(s, k, o[i].1));
    }
    if mentioned(s, k) {
        let r = choose|r: Range| #[trigger] occurs(s, k, r);
        let i = choose|i: int| 0 <= i < o.len() && o[i] == (k, r);
        assert(s.symbols()[i] == k);
    }
}

/// A list of references to variables has the variables in their places.
pub proof fn lemma_views<V: Variable>(s: Seq<&V>, i: int)
    ensures
        views(s).len() == s.len(),
        0 <= i < s.len() ==> views(s)[i] == s[i]@,
{
}

proof fn lemma_entries_mention<K>(entries: Seq<(K, Symbolic<K>)>, k: K)
    ensures
        entries_references(entries).contains(k) <==> exists|i: int|
            0 <= i < entries.len() && ((#[trigger] entries[i]).0 == k || mentioned(
                entries[i].1,
                k,
            )),
    decreases entries.len(),
{
    if entries.len() > 0 {
        let d = entries.drop_last();
        let n = entries.len() - 1;
        let front = entries_references(d);
        let last = seq![entries.last().0];
        lemma_entries_mention(d, k);
        lemma_contains_concat(front, last, k);
        lemma_contains_concat(front + last, entries.last().1.symbols(), k);
        lemma_symbols_mentioned(entries.last().1, k);
        assert(last[0] == entries[n].0);
        assert(last.contains(k) <==> entries[n].0 == k);
        if exists|i: int|
            0 <= i < d.len() && ((#[trigger] d[i]).0 == k || mentioned(d[i].1, k)) {
            let i = choose|i: int|
                0 <= i < d.len() && ((#[trigger] d[i]).0 == k || mentioned(d[i].1, k));
            assert(entries[i] == d[i]);
        }
        if exists|i: int|
            0 <= i < entries.len() && ((#[trigger] entries[i]).0 == k || mentioned(
                entries[i].1,
                k,
            )) {
            let i = choose|i: int|
                0 <= i < entries.len() && ((#[trigger] entries[i]).0 == k || mentioned(
                    entries[i].1,
                    k,
                ));
            if i < n {
                assert(d[i] == entries[i]);
            }
        }
    }
}

proof fn lemma_pairs_mention<V: Variable>(
    pairs: Seq<(Quadratic<V::V>, Quadratic<V::V>)>,
    k: V::V,
)
    ensures
        pairs_references::<V>(pairs).contains(k) <==> exists|i: int|
            #![trigger pairs[i]]
            0 <= i < pairs.len() && (references::<V>(pairs[i].0).contains(k) || references::<V>(
                pairs[i].1,
            ).contains(k)),
    decreases pairs.len(),
{
    if pairs.len() > 0 {
        let d = pairs.drop_last();
        let n = pairs.len() - 1;
        let front = pairs_references::<V>(d);
        lemma_pairs_mention::<V>(d, k);
        lemma_contains_concat(front, references::<V>(pairs.last().0), k);
        lemma_contains_concat(
            front + references::<V>(pairs.last().0),
            references::<V>(pairs.last().1),
            k,
        );
        assert(pairs[n] == pairs.last());
        if front.contains(k) {
            let i = choose|i: int|
                #![trigger d[i]]
                0 <= i < d.len() && (references::<V>(d[i].0).contains(k) || references::<V>(
                    d[i].1,
                ).contains(k));
            assert(pairs[i] == d[i]);
        }
        if exists|i: int|
            #![trigger pairs[i]]
            0 <= i < pairs.len() && (references::<V>(pairs[i].0).contains(k) || references::<V>(
                pairs[i].1,
            ).contains(k)) {
            let i = choose|i: int|
                #![trigger pairs[i]]
                0 <= i < pairs.len() && (references::<V>(pairs[i].0).contains(k) || references::<
                    V,
                >(pairs[i].1).contains(k));
            if i < n {
                assert(d[i] == pairs[i]);
            }
        }
    }
}

/// The variables that an expression refers to are its unknown variables and its known symbols.
pub proof fn lemma_references_exact<V: Variable>(q: Quadratic<V::V>, p: int, k: V::V)
    requires
        q.wf(p),
    ensures
        references::<V>(q).contains(k) <==> q.has_unknown(k) || refers_to(q, k),
    decreases q,
{
    let s = listing::<V, Symbolic<V::V>>(q.linear);
    let a = pairs_references::<V>(q.quadratic);
    let b = entries_references(s);
    lemma_listing_exists::<V, Symbolic<V::V>>(q.linear);
    lemma_contains_concat(a, b, k);
    lemma_contains_concat(a + b, q.constant.symbols(), k);
    lemma_symbols_mentioned(q.constant, k);
    lemma_entries_mention(s, k);
    lemma_pairs_mention::<V>(q.quadratic, k);
    assert forall|i: int| #![trigger q.quadratic[i]] 0 <= i < q.quadratic.len() implies ({
        &&& references::<V>(q.quadratic[i].0).contains(k) <==> q.quadratic[i].0.has_unknown(k)
            || refers_to(q.quadratic[i].0, k)
        &&& references::<V>(q.quadratic[i].1).contains(k) <==> q.quadratic[i].1.has_unknown(k)
            || refers_to(q.quadratic[i].1, k)
    }) by {
        lemma_references_exact::<V>(q.quadratic[i].0, p, k);
        lemma_references_exact::<V>(q.quadratic[i].1, p, k);
    }
    if references::<V>(q).contains(k) {
        if mentioned(q.constant, k) {
            let r = choose|r: Range| #[trigger] occurs(q.constant, k, r);
            assert(has_symbol(q, k, r));
        } else if b.contains(k) {
            let i = choose|i: int|
                0 <= i < s.len() && ((#[trigger] s[i]).0 == k || mentioned(s[i].1, k));
            lemma_ascending_distinct::<V, Symbolic<V::V>>(s, i);
            assert(q.linear.contains_key(s[i].0));
            if s[i].0 != k {
                let r = choose|r: Range| #[trigger] occurs(s[i].1, k, r);
                assert(has_symbol(q, k, r));
            }
        } else {
            let i = choose|i: int|
                #![trigger q.quadratic[i]]
                0 <= i < q.quadratic.len() && (references::<V>(q.quadratic[i].0).contains(k)
                    || references::<V>(q.quadratic[i].1).contains(k));
            if refers_to(q.quadratic[i].0, k) {
                let r = choose|r: Range| #[trigger] has_symbol(q.quadratic[i].0, k, r);
                assert(has_symbol(q, k, r));
            }
            if refers_to(q.quadratic[i].1, k) {
                let r = choose|r: Range| #[trigger] has_symbol(q.quadratic[i].1, k, r);
                assert(has_symbol(q, k, r));
            }
        }
    }
    if q.has_unknown(k) {
        crate::references::lemma_unknowns_referenced::<V>(q, p, k);
    }
    if refers_to(q, k) {
        let r = choose|r: Range| #[trigger] has_symbol(q, k, r);
        if !occurs(q.constant, k, r) {
            if exists|j: V::V| #[trigger]
                q.linear.contains_key(j) && occurs(q.linear[j], k, r) {
                let j = choose|j: V::V| #[trigger]
                    q.linear.contains_key(j) && occurs(q.linear[j], k, r);
                assert(has_key(s, j));
                let i = position(s, j);
                lemma_ascending_distinct::<V, Symbolic<V::V>>(s, i);
                assert(s[i].1 == q.linear[j]);
                assert(mentioned(s[i].1, k));
            } else {
                let i = choose|i: int|
                    #![trigger q.quadratic[i]]
                    0 <= i < q.quadratic.len() && (has_symbol(q.quadratic[i].0, k, r)
                        || has_symbol(q.quadratic[i].1, k, r));
                assert(references::<V>(q.quadratic[i].0).contains(k) || references::<V>(
                    q.quadratic[i].1,
                ).contains(k));
            }
        }
    }
}

/// A known expression refers to its symbols, an unknown variable to itself, and a product of
/// expressions with unknown variables to what the first refers to and then to what the second
/// refers to.
pub proof fn lemma_references_built<V: Variable>(
    a: Quadratic<V::V>,
    b: Quadratic<V::V>,
    s: Symbolic<V::V>,
    k: V::V,
    p: int,
)
    requires
        !a.is_known(),
        !b.is_known(),
    ensures
        references::<V>(Quadratic::of_known(s)) == s.symbols(),
        unknowns::<V>(Quadratic::of_known(s)) == Seq::<V::V>::empty(),
        references::<V>(Quadratic::of_unknown(k)) == seq![k],
        unknowns::<V>(Quadratic::of_unknown(k)) == seq![k],
        references::<V>(a.times(p, b)) == references::<V>(a) + references::<V>(b),
        unknowns::<V>(a.times(p, b)) == unknowns::<V>(a) + unknowns::<V>(b),
{
    lemma_empty_listing::<V>();
    let none = Seq::<(Quadratic<V::V>, Quadratic<V::V>)>::empty();
    assert(pairs_references::<V>(none) == Seq::<V::V>::empty());
    assert(pairs_unknowns::<V>(none) == Seq::<V::V>::empty());
    assert(references::<V>(Quadratic::of_known(s)) =~= s.symbols());
    assert(unknowns::<V>(Quadratic::of_known(s)) =~= Seq::empty());
    let one = Symbolic::<V::V>::Concrete(1);
    let t = seq![(k, one)];
    assert(t.drop_last() =~= Seq::empty());
    lemma_listing::<V, Symbolic<V::V>>(t);
    let m = Quadratic::of_unknown(k).linear;
    assert(pairs_map(t) =~= m) by {
        assert(t[0].0 == k);
        assert(has_key(t, k));
    }
    assert(entries_references(t) =~= seq![k]) by {
        assert(entries_references(t.drop_last()) == Seq::<V::V>::empty());
        assert(one.symbols() == Seq::<V::V>::empty());
        assert(t.last() == (k, one));
    }
    assert(references::<V>(Quadratic::of_unknown(k)) =~= seq![k]);
    assert(keys(t) =~= seq![k]);
    assert(unknowns::<V>(Quadratic::of_unknown(k)) =~= seq![k]);
    let q = a.times(p, b);
    assert(q.quadratic.drop_last() =~= none);
    assert(q.quadratic.last() == (a, b));
    assert(references::<V>(q) =~= references::<V>(a) + references::<V>(b));
    assert(unknowns::<V>(q) =~= unknowns::<V>(a) + unknowns::<V>(b));
}

/// What an expression refers to comes in the order of its terms: the products in their order,
/// then each linear term with its variable and the symbols of its coefficient, by ascending
/// variable, then the constant.
pub proof fn lemma_references_grow<V: Variable>(
    q: Quadratic<V::V>,
    l: Quadratic<V::V>,
    r: Quadratic<V::V>,
    k: V::V,
    c: Symbolic<V::V>,
    s: Symbolic<V::V>,
)
    requires
        q.linear.dom().finite(),
        q.constant == Symbolic::<V::V>::Concrete(0),
        forall|j: V::V| #[trigger] q.linear.contains_key(j) ==> V::precedes(j, k),
    ensures
        q.linear == Map::<V::V, Symbolic<V::V>>::empty() ==> {
            let more = Quadratic {
                quadratic: q.quadratic.push((l, r)),
                linear: q.linear,
                constant: q.constant,
            };
            &&& references::<V>(more) == references::<V>(q) + references::<V>(l) + references::<V>(
                r,
            )
            &&& unknowns::<V>(more) == unknowns::<V>(q) + unknowns::<V>(l) + unknowns::<V>(r)
        },
        ({
            let more = Quadratic {
                quadratic: q.quadratic,
                linear: q.linear.insert(k, c),
                constant: q.constant,
            };
            &&& references::<V>(more) == references::<V>(q) + seq![k] + c.symbols()
            &&& unknowns::<V>(more) == unknowns::<V>(q) + seq![k]
        }),
        ({
            let more = Quadratic { quadratic: q.quadratic, linear: q.linear, constant: s };
            &&& references::<V>(more) == references::<V>(q) + s.symbols()
            &&& unknowns::<V>(more) == unknowns::<V>(q)
        }),
{
    lemma_empty_listing::<V>();
    let t = listing::<V, Symbolic<V::V>>(q.linear);
    lemma_listing_exists::<V, Symbolic<V::V>>(q.linear);
    assert forall|j: V::V| pairs_map(t).contains_key(j) implies #[trigger] V::precedes(j, k) by {
        assert(q.linear.contains_key(j));
    }
    lemma_push_greatest::<V, Symbolic<V::V>>(t, k, c);
    lemma_listing::<V, Symbolic<V::V>>(t.push((k, c)));
    assert(t.push((k, c)).drop_last() =~= t);
    assert(keys(t.push((k, c))) =~= keys(t) + seq![k]);
    assert(q.constant.symbols() == Seq::<V::V>::empty());
    let pairs = q.quadratic.push((l, r));
    assert(pairs.drop_last() =~= q.quadratic);
    let a = Quadratic { quadratic: pairs, linear: q.linear, constant: q.constant };
    if q.linear == Map::<V::V, Symbolic<V::V>>::empty() {
        assert(references::<V>(a) =~= references::<V>(q) + references::<V>(l) + references::<V>(r));
        assert(unknowns::<V>(a) =~= unknowns::<V>(q) + unknowns::<V>(l) + unknowns::<V>(r));
    }
    let b = Quadratic {
        quadratic: q.quadratic,
        linear: q.linear.insert(k, c),
        constant: q.constant,
    };
    assert(references::<V>(b) =~= references::<V>(q) + seq![k] + c.symbols());
    assert(unknowns::<V>(b) =~= unknowns::<V>(q) + seq![k]);
    let d = Quadratic { quadratic: q.quadratic, linear: q.linear, constant: s };
    assert(references::<V>(d) =~= references::<V>(q) + s.symbols());
    assert(unknowns::<V>(d) =~= unknowns::<V>(q));
}

} // verus!
