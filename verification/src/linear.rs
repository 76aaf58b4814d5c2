//! Linear combinations of variables with symbolic coefficients, in the order of the
//! variables.
use vstd::prelude::*;

use crate::field::FieldElement;
use crate::modular::{congruent, lemma_congruent_add};
use crate::symbolic_expression::{Symbolic, SymbolicExpression};
use crate::variable::{Comparison, Variable};
use crate::variable_update::VariableUpdate;

verus! {

/// The sum of `f` over a finite set.
pub open spec fn sum_over<K>(s: Set<K>, f: spec_fn(K) -> int) -> int
    decreases s.len(),
    when s.finite()
{
    if s.len() == 0 {
        0
    } else {
        let k = s.choose();
        f(k) + sum_over(s.remove(k), f)
    }
}

pub proof fn lemma_sum_remove<K>(s: Set<K>, f: spec_fn(K) -> int, k: K)
    requires
        s.finite(),
        s.contains(k),
    ensures
        sum_over(s, f) == f(k) + sum_over(s.remove(k), f),
    decreases s.len(),
{
    let c = s.choose();
    if c != k {
        lemma_sum_remove(s.remove(c), f, k);
        lemma_sum_remove(s.remove(k), f, c);
        assert(s.remove(c).remove(k) =~= s.remove(k).remove(c));
    }
}

pub proof fn lemma_sum_insert<K>(s: Set<K>, f: spec_fn(K) -> int, k: K)
    requires
        s.finite(),
        !s.contains(k),
    ensures
        sum_over(s.insert(k), f) == f(k) + sum_over(s, f),
{
    lemma_sum_remove(s.insert(k), f, k);
    assert(s.insert(k).remove(k) =~= s);
}

/// Congruent terms give congruent sums.
pub proof fn lemma_sum_congruent<K>(p: int, s: Set<K>, f: spec_fn(K) -> int, g: spec_fn(K) -> int)
    requires
        p > 0,
        s.finite(),
        forall|k: K| s.contains(k) ==> congruent(p, #[trigger] f(k), g(k)),
    ensures
        congruent(p, sum_over(s, f), sum_over(s, g)),
    decreases s.len(),
{
    if s.len() > 0 {
        let k = s.choose();
        assert(congruent(p, f(k), g(k)));
        lemma_sum_congruent(p, s.remove(k), f, g);
        lemma_congruent_add(
            p,
            f(k),
            g(k),
            sum_over(s.remove(k), f),
            sum_over(s.remove(k), g),
        );
    }
}

/// Terms that vanish can be left out of a sum.
pub proof fn lemma_sum_subset<K>(p: int, s: Set<K>, t: Set<K>, f: spec_fn(K) -> int)
    requires
        p > 0,
        s.finite(),
        t.subset_of(s),
        forall|k: K| s.contains(k) && !t.contains(k) ==> congruent(p, #[trigger] f(k), 0),
    ensures
        t.finite(),
        congruent(p, sum_over(s, f), sum_over(t, f)),
    decreases s.len(),
{
    if s.len() > 0 {
        let k = s.choose();
        lemma_sum_subset(p, s.remove(k), t.remove(k), f);
        if t.contains(k) {
            assert(t =~= t.remove(k).insert(k));
            lemma_sum_insert(t.remove(k), f, k);
            lemma_congruent_add(
                p,
                f(k),
                f(k),
                sum_over(s.remove(k), f),
                sum_over(t.remove(k), f),
            );
        } else {
            assert(t.remove(k) =~= t);
            assert(congruent(p, f(k), 0));
            lemma_congruent_add(p, f(k), 0, sum_over(s.remove(k), f), sum_over(t, f));
        }
    } else {
        assert(s =~= Set::empty());
        assert(t =~= Set::empty());
    }
}

pub proof fn lemma_sum_add<K>(
    s: Set<K>,
    f: spec_fn(K) -> int,
    g: spec_fn(K) -> int,
    h: spec_fn(K) -> int,
)
    requires
        s.finite(),
        forall|k: K| s.contains(k) ==> #[trigger] h(k) == f(k) + g(k),
    ensures
        sum_over(s, h) == sum_over(s, f) + sum_over(s, g),
    decreases s.len(),
{
    if s.len() > 0 {
        let k = s.choose();
        assert(h(k) == f(k) + g(k));
        lemma_sum_add(s.remove(k), f, g, h);
    }
}

pub proof fn lemma_sum_scale<K>(s: Set<K>, f: spec_fn(K) -> int, c: int, h: spec_fn(K) -> int)
    requires
        s.finite(),
        forall|k: K| s.contains(k) ==> #[trigger] h(k) == c * f(k),
    ensures
        sum_over(s, h) == c * sum_over(s, f),
    decreases s.len(),
{
    if s.len() > 0 {
        let k = s.choose();
        assert(h(k) == c * f(k));
        lemma_sum_scale(s.remove(k), f, c, h);
        vstd::arithmetic::mul::lemma_mul_is_distributive_add(c, f(k), sum_over(s.remove(k), f));
    }
}

/// Some pair of the list has the key.
pub open spec fn has_key<K, S>(s: Seq<(K, S)>, k: K) -> bool {
    exists|i: int| 0 <= i < s.len() && (#[trigger] s[i]).0 == k
}

/// Where a key stands in a list.
pub open spec fn position<K, S>(s: Seq<(K, S)>, k: K) -> int {
    choose|i: int| 0 <= i < s.len() && (#[trigger] s[i]).0 == k
}

/// The map that a list of pairs describes.
pub open spec fn pairs_map<K, S>(s: Seq<(K, S)>) -> Map<K, S> {
    Map::new(|k: K| has_key(s, k), |k: K| s[position(s, k)].1)
}

/// The keys are in strictly ascending order.
pub open spec fn ascending<V: Variable, S>(s: Seq<(V::V, S)>) -> bool {
    forall|i: int, j: int|
        0 <= i < j < s.len() ==> V::precedes((#[trigger] s[i]).0, (#[trigger] s[j]).0)
}

/// The entries of a map in ascending order of the keys.
pub open spec fn listing<V: Variable, S>(m: Map<V::V, S>) -> Seq<(V::V, S)> {
    choose|s: Seq<(V::V, S)>| #[trigger] ascending::<V, S>(s) && pairs_map(s) == m
}

/// In ascending order every key stands in one place.
pub proof fn lemma_ascending_distinct<V: Variable, S>(s: Seq<(V::V, S)>, i: int)
    requires
        ascending::<V, S>(s),
        0 <= i < s.len(),
    ensures
        has_key(s, s[i].0),
        position(s, s[i].0) == i,
        pairs_map(s).contains_key(s[i].0),
        pairs_map(s)[s[i].0] == s[i].1,
{
    let j = position(s, s[i].0);
    assert(s[i].0 == s[i].0);
    assert(0 <= j < s.len() && s[j].0 == s[i].0);
    V::lemma_irreflexive(s[i].0);
    if i < j {
        assert(V::precedes(s[i].0, s[j].0));
    } else if j < i {
        assert(V::precedes(s[j].0, s[i].0));
    }
}

/// The last key of an ascending list is above all keys of the map.
proof fn lemma_last_key<V: Variable, S>(s: Seq<(V::V, S)>, t: Seq<(V::V, S)>)
    requires
        ascending::<V, S>(s),
        ascending::<V, S>(t),
        pairs_map(s) == pairs_map(t),
        s.len() > 0,
    ensures
        t.len() > 0,
        s.last() == t.last(),
{
    let n = s.len() - 1;
    lemma_ascending_distinct::<V, S>(s, n);
    let k = s[n].0;
    assert(pairs_map(t).contains_key(k));
    let j = position(t, k);
    assert(0 <= j < t.len() && t[j].0 == k);
    lemma_ascending_distinct::<V, S>(t, j);
    let m = t.len() - 1;
    if j < m {
        lemma_ascending_distinct::<V, S>(t, m);
        let c = t[m].0;
        assert(V::precedes(k, c));
        assert(pairs_map(s).contains_key(c));
        let i = position(s, c);
        assert(0 <= i < s.len() && s[i].0 == c);
        V::lemma_irreflexive(k);
        if i < n {
            assert(V::precedes(s[i].0, s[n].0));
            V::lemma_transitive(k, c, k);
        }
    }
}

/// Leaving out the last entry of an ascending list removes its key from the map.
pub proof fn lemma_drop_last<V: Variable, S>(s: Seq<(V::V, S)>)
    requires
        ascending::<V, S>(s),
        s.len() > 0,
    ensures
        ascending::<V, S>(s.drop_last()),
        pairs_map(s.drop_last()) == pairs_map(s).remove(s.last().0),
{
    let d = s.drop_last();
    let n = s.len() - 1;
    lemma_ascending_distinct::<V, S>(s, n);
    assert forall|i: int, j: int| 0 <= i < j < d.len() implies V::precedes(
        (#[trigger] d[i]).0,
        (#[trigger] d[j]).0,
    ) by {
        assert(V::precedes(s[i].0, s[j].0));
    }
    assert forall|k: V::V| pairs_map(d).contains_key(k) <==> pairs_map(s).remove(
        s[n].0,
    ).contains_key(k) by {
        if has_key(d, k) {
            let i = position(d, k);
            assert(s[i].0 == k);
            V::lemma_irreflexive(k);
            assert(V::precedes(s[i].0, s[n].0));
        }
        if has_key(s, k) && k != s[n].0 {
            let i = position(s, k);
            assert(d[i].0 == k);
        }
    }
    assert forall|k: V::V| pairs_map(d).contains_key(k) implies #[trigger] pairs_map(d)[k]
        == pairs_map(s)[k] by {
        let i = position(d, k);
        lemma_ascending_distinct::<V, S>(d, i);
        assert(s[i] == d[i]);
        lemma_ascending_distinct::<V, S>(s, i);
    }
    assert(pairs_map(d) =~= pairs_map(s).remove(s[n].0));
}

/// Ascending lists are equal if they describe the same map.
pub proof fn lemma_ascending_unique<V: Variable, S>(s: Seq<(V::V, S)>, t: Seq<(V::V, S)>)
    requires
        ascending::<V, S>(s),
        ascending::<V, S>(t),
        pairs_map(s) == pairs_map(t),
    ensures
        s == t,
    decreases s.len(),
{
    if s.len() == 0 {
        if t.len() > 0 {
            lemma_last_key::<V, S>(t, s);
        }
        assert(s =~= t);
    } else {
        lemma_last_key::<V, S>(s, t);
        lemma_drop_last::<V, S>(s);
        lemma_drop_last::<V, S>(t);
        lemma_ascending_unique::<V, S>(s.drop_last(), t.drop_last());
        assert(s =~= s.drop_last().push(s.last()));
        assert(t =~= t.drop_last().push(t.last()));
    }
}

/// An ascending list is the listing of its map.
pub proof fn lemma_listing<V: Variable, S>(s: Seq<(V::V, S)>)
    requires
        ascending::<V, S>(s),
    ensures
        listing::<V, S>(pairs_map(s)) == s,
        pairs_map(s).dom().finite(),
        pairs_map(s).dom().len() == s.len(),
{
    let m = pairs_map(s);
    assert(ascending::<V, S>(s) && pairs_map(s) == m);
    let t = listing::<V, S>(m);
    assert(ascending::<V, S>(t) && pairs_map(t) == m);
    lemma_ascending_unique::<V, S>(s, t);
    lemma_pairs_finite::<V, S>(s);
}

pub proof fn lemma_pairs_finite<V: Variable, S>(s: Seq<(V::V, S)>)
    requires
        ascending::<V, S>(s),
    ensures
        pairs_map(s).dom().finite(),
        pairs_map(s).dom().len() == s.len(),
    decreases s.len(),
{
    if s.len() == 0 {
        assert(pairs_map(s).dom() =~= Set::empty());
    } else {
        lemma_drop_last::<V, S>(s);
        lemma_pairs_finite::<V, S>(s.drop_last());
        lemma_ascending_distinct::<V, S>(s, s.len() - 1);
        assert(pairs_map(s).dom() =~= pairs_map(s.drop_last()).dom().insert(s.last().0));
    }
}

/// The listing of a finite map: it exists.
pub proof fn lemma_listing_exists<V: Variable, S>(m: Map<V::V, S>)
    requires
        m.dom().finite(),
    ensures
        ascending::<V, S>(listing::<V, S>(m)),
        pairs_map(listing::<V, S>(m)) == m,
        listing::<V, S>(m).len() == m.dom().len(),
{
    let s = lemma_make_listing::<V, S>(m);
    lemma_listing::<V, S>(s);
}

/// The listing of the empty map is empty.
pub proof fn lemma_empty_listing<V: Variable>()
    ensures
        listing::<V, Symbolic<V::V>>(Map::<V::V, Symbolic<V::V>>::empty()) == Seq::<
            (V::V, Symbolic<V::V>),
        >::empty(),
{
    let s = Seq::<(V::V, Symbolic<V::V>)>::empty();
    lemma_listing::<V, Symbolic<V::V>>(s);
    assert(pairs_map(s) =~= Map::empty());
}

/// The largest key of a finite nonempty set.
proof fn lemma_greatest<V: Variable>(s: Set<V::V>) -> (k: V::V)
    requires
        s.finite(),
        s.len() > 0,
    ensures
        s.contains(k),
        forall|c: V::V| s.contains(c) && c != k ==> #[trigger] V::precedes(c, k),
    decreases s.len(),
{
    let a = s.choose();
    let rest = s.remove(a);
    if rest.len() == 0 {
        assert(rest =~= Set::empty());
        assert forall|c: V::V| s.contains(c) && c != a implies #[trigger] V::precedes(c, a) by {
            assert(rest.contains(c));
        }
        a
    } else {
        let b = lemma_greatest::<V>(rest);
        V::lemma_total(a, b);
        if V::precedes(a, b) {
            assert forall|c: V::V| s.contains(c) && c != b implies #[trigger] V::precedes(c, b) by {
                if c != a {
                    assert(rest.contains(c));
                }
            }
            b
        } else {
            assert forall|c: V::V| s.contains(c) && c != a implies #[trigger] V::precedes(c, a) by {
                assert(rest.contains(c));
                if c != b {
                    assert(V::precedes(c, b));
                    V::lemma_transitive(c, b, a);
                }
            }
            a
        }
    }
}

proof fn lemma_make_listing<V: Variable, S>(m: Map<V::V, S>) -> (s: Seq<(V::V, S)>)
    requires
        m.dom().finite(),
    ensures
        ascending::<V, S>(s),
        pairs_map(s) == m,
    decreases m.dom().len(),
{
    if m.dom().len() == 0 {
        let s: Seq<(V::V, S)> = Seq::empty();
        assert(m.dom() =~= Set::empty());
        assert(pairs_map(s) =~= m);
        s
    } else {
        let k = lemma_greatest::<V>(m.dom());
        let rest = m.remove(k);
        assert(rest.dom() =~= m.dom().remove(k));
        let d = lemma_make_listing::<V, S>(rest);
        let s = d.push((k, m[k]));
        lemma_push_greatest::<V, S>(d, k, m[k]);
        assert(pairs_map(s) =~= m);
        s
    }
}

/// Appending a pair with a key above all others inserts it into the map.
pub proof fn lemma_push_greatest<V: Variable, S>(d: Seq<(V::V, S)>, k: V::V, v: S)
    requires
        ascending::<V, S>(d),
        forall|c: V::V| pairs_map(d).contains_key(c) ==> #[trigger] V::precedes(c, k),
    ensures
        ascending::<V, S>(d.push((k, v))),
        pairs_map(d.push((k, v))) == pairs_map(d).insert(k, v),
        !pairs_map(d).contains_key(k),
{
    let s = d.push((k, v));
    V::lemma_irreflexive(k);
    assert forall|i: int, j: int| 0 <= i < j < s.len() implies V::precedes(
        (#[trigger] s[i]).0,
        (#[trigger] s[j]).0,
    ) by {
        assert(s[i] == d[i]);
        if j < d.len() {
            assert(V::precedes(d[i].0, d[j].0));
        } else {
            lemma_ascending_distinct::<V, S>(d, i);
            assert(V::precedes(d[i].0, k));
        }
    }
    lemma_drop_last::<V, S>(s);
    assert(s.drop_last() =~= d);
    lemma_ascending_distinct::<V, S>(s, d.len() as int);
    assert(pairs_map(s) =~= pairs_map(d).insert(k, v));
}

/// The sum of two linear combinations, term by term.
pub open spec fn combined<K>(
    p: int,
    a: Map<K, Symbolic<K>>,
    b: Map<K, Symbolic<K>>,
) -> Map<K, Symbolic<K>> {
    Map::new(
        |k: K| a.contains_key(k) || b.contains_key(k),
        |k: K|
            if a.contains_key(k) && b.contains_key(k) {
                a[k].plus(p, b[k])
            } else if a.contains_key(k) {
                a[k]
            } else {
                b[k]
            },
    )
}

/// A linear combination without the terms whose coefficient is known to be zero.
pub open spec fn nonzero<K>(m: Map<K, Symbolic<K>>) -> Map<K, Symbolic<K>> {
    Map::new(|k: K| m.contains_key(k) && !m[k].is_zero(), |k: K| m[k])
}

/// A coefficient at an optional place.
spec fn extended<K>(m: Map<K, Symbolic<K>>, k: K, c: Option<Symbolic<K>>) -> Map<K, Symbolic<K>> {
    match c {
        Some(c) => m.insert(k, c),
        None => m,
    }
}

/// One more key in one or both of two linear combinations gives one more in their sum.
proof fn lemma_combined_step<K>(
    p: int,
    a: Map<K, Symbolic<K>>,
    b: Map<K, Symbolic<K>>,
    k: K,
    x: Option<Symbolic<K>>,
    y: Option<Symbolic<K>>,
    c: Symbolic<K>,
)
    requires
        !a.contains_key(k),
        !b.contains_key(k),
        match (x, y) {
            (Some(u), Some(v)) => c == u.plus(p, v),
            (Some(u), None) => c == u,
            (None, Some(v)) => c == v,
            (None, None) => false,
        },
    ensures
        nonzero(combined(p, extended(a, k, x), extended(b, k, y))) == (if c.is_zero() {
            nonzero(combined(p, a, b))
        } else {
            nonzero(combined(p, a, b)).insert(k, c)
        }),
{
    let before = nonzero(combined(p, a, b));
    let after = nonzero(combined(p, extended(a, k, x), extended(b, k, y)));
    if c.is_zero() {
        assert(after =~= before);
    } else {
        assert(after =~= before.insert(k, c));
    }
}

/// Changing every coefficient of a list changes every coefficient of the map.
proof fn lemma_map_values<V: Variable>(
    s: Seq<(V::V, Symbolic<V::V>)>,
    t: Seq<(V::V, Symbolic<V::V>)>,
    f: spec_fn(Symbolic<V::V>) -> Symbolic<V::V>,
)
    requires
        ascending::<V, Symbolic<V::V>>(s),
        s.len() == t.len(),
        forall|i: int| 0 <= i < s.len() ==> #[trigger] t[i] == (s[i].0, f(s[i].1)),
    ensures
        ascending::<V, Symbolic<V::V>>(t),
        pairs_map(t) == pairs_map(s).map_values(f),
{
    assert forall|i: int, j: int| 0 <= i < j < t.len() implies V::precedes(
        (#[trigger] t[i]).0,
        (#[trigger] t[j]).0,
    ) by {
        assert(V::precedes(s[i].0, s[j].0));
    }
    assert forall|k: V::V| pairs_map(t).contains_key(k) <==> pairs_map(s).contains_key(k) by {
        if has_key(s, k) {
            let i = position(s, k);
            assert(t[i].0 == k);
        }
        if has_key(t, k) {
            let i = position(t, k);
            assert(s[i].0 == k);
        }
    }
    assert forall|k: V::V| pairs_map(t).contains_key(k) implies #[trigger] pairs_map(t)[k] == f(
        pairs_map(s)[k],
    ) by {
        let i = position(t, k);
        lemma_ascending_distinct::<V, Symbolic<V::V>>(t, i);
        lemma_ascending_distinct::<V, Symbolic<V::V>>(s, i);
    }
    assert(pairs_map(t) =~= pairs_map(s).map_values(f));
}

/// Changing every coefficient of a map changes every coefficient of its listing.
pub proof fn lemma_listing_mapped<V: Variable>(
    m: Map<V::V, Symbolic<V::V>>,
    f: spec_fn(Symbolic<V::V>) -> Symbolic<V::V>,
)
    requires
        m.dom().finite(),
    ensures
        listing::<V, Symbolic<V::V>>(m.map_values(f)) == listing::<V, Symbolic<V::V>>(
            m,
        ).map_values(|e: (V::V, Symbolic<V::V>)| (e.0, f(e.1))),
{
    let s = listing::<V, Symbolic<V::V>>(m);
    let t = s.map_values(|e: (V::V, Symbolic<V::V>)| (e.0, f(e.1)));
    lemma_listing_exists::<V, Symbolic<V::V>>(m);
    lemma_map_values::<V>(s, t, f);
    lemma_listing::<V, Symbolic<V::V>>(t);
}

/// Terms `coefficient * variable` with different variables, in the order of the variables.
#[derive(Debug)]
pub struct LinearTerms<T: FieldElement, V: Variable> {
    terms: Vec<(V, SymbolicExpression<T, V>)>,
}

impl<T: FieldElement, V: Variable> View for LinearTerms<T, V> {
    type V = Map<V::V, Symbolic<V::V>>;

    closed spec fn view(&self) -> Map<V::V, Symbolic<V::V>> {
        pairs_map(self.pairs())
    }
}

/// What a list of terms holds.
spec fn term_views<T: FieldElement, V: Variable>(terms: Seq<(V, SymbolicExpression<T, V>)>) -> Seq<
    (V::V, Symbolic<V::V>),
> {
    terms.map_values(|e: (V, SymbolicExpression<T, V>)| (e.0@, e.1@))
}

impl<T: FieldElement, V: Variable> LinearTerms<T, V> {
    spec fn pairs(self) -> Seq<(V::V, Symbolic<V::V>)> {
        term_views(self.terms@)
    }

    #[verifier::type_invariant]
    spec fn in_order(self) -> bool {
        ascending::<V, Symbolic<V::V>>(self.pairs())
    }

    /// The number of terms and the term at each place, in order.
    pub closed spec fn entries(self) -> Seq<(V::V, Symbolic<V::V>)> {
        self.pairs()
    }

    /// No terms.
    pub fn new() -> (r: Self)
        ensures
            r@ == Map::<V::V, Symbolic<V::V>>::empty(),
    {
        let terms: Vec<(V, SymbolicExpression<T, V>)> = Vec::new();
        let r = LinearTerms { terms };
        assert(r@ =~= Map::empty());
        r
    }

    /// One term.
    pub fn single(variable: V, coefficient: SymbolicExpression<T, V>) -> (r: Self)
        ensures
            r@ == Map::<V::V, Symbolic<V::V>>::empty().insert(variable@, coefficient@),
    {
        let ghost k = variable@;
        let ghost c = coefficient@;
        let mut terms: Vec<(V, SymbolicExpression<T, V>)> = Vec::new();
        terms.push((variable, coefficient));
        let r = LinearTerms { terms };
        proof {
            assert(r.pairs()[0] == (k, c));
            lemma_ascending_distinct::<V, Symbolic<V::V>>(r.pairs(), 0);
            assert(r@ =~= Map::empty().insert(k, c));
        }
        r
    }

    /// The number of terms.
    pub fn len(&self) -> (r: usize)
        ensures
            r == self.entries().len(),
            self.entries() == listing::<V, Symbolic<V::V>>(self@),
            self@.dom().finite(),
            r == self@.dom().len(),
            (r == 0) == (self@ == Map::<V::V, Symbolic<V::V>>::empty()),
    {
        proof {
            use_type_invariant(self);
            lemma_listing::<V, Symbolic<V::V>>(self.pairs());
            if self.terms@.len() == 0 {
                assert(self@ =~= Map::empty());
            } else {
                lemma_ascending_distinct::<V, Symbolic<V::V>>(self.pairs(), 0);
            }
        }
        self.terms.len()
    }

    /// The variable of a term.
    pub fn variable(&self, i: usize) -> (r: &V)
        requires
            i < self.entries().len(),
        ensures
            r@ == self.entries()[i as int].0,
    {
        &self.terms[i].0
    }

    /// The coefficient of a term.
    pub fn coefficient(&self, i: usize) -> (r: &SymbolicExpression<T, V>)
        requires
            i < self.entries().len(),
        ensures
            r@ == self.entries()[i as int].1,
    {
        &self.terms[i].1
    }

    /// Where a variable stands.
    pub fn find(&self, variable: &V) -> (r: Option<usize>)
        ensures
            match r {
                Some(i) => {
                    &&& i < self.entries().len()
                    &&& self.entries()[i as int].0 == variable@
                    &&& self@.contains_key(variable@)
                    &&& self.entries()[i as int].1 == self@[variable@]
                },
                None => !self@.contains_key(variable@),
            },
    {
        proof {
            use_type_invariant(self);
        }
        let n: usize = self.terms.len();
        let mut i: usize = 0;
        while i < n
            invariant
                n == self.terms@.len(),
                i <= n,
                ascending::<V, Symbolic<V::V>>(self.pairs()),
                forall|j: int| 0 <= j < i ==> (#[trigger] self.pairs()[j]).0 != variable@,
            decreases n - i,
        {
            assert(self.pairs()[i as int].0 == self.terms@[i as int].0@);
            match self.terms[i].0.compare(variable) {
                Comparison::Equal => {
                    proof {
                        lemma_ascending_distinct::<V, Symbolic<V::V>>(self.pairs(), i as int);
                    }
                    return Some(i);
                },
                _ => {},
            }
            i += 1;
        }
        None
    }

    /// The same variables with other coefficients.
    fn with_coefficients(
        &self,
        coefficients: Vec<SymbolicExpression<T, V>>,
        f: Ghost<spec_fn(Symbolic<V::V>) -> Symbolic<V::V>>,
    ) -> (r: Self)
        requires
            coefficients@.len() == self.entries().len(),
            forall|i: int|
                0 <= i < coefficients@.len() ==> (#[trigger] coefficients@[i])@ == f@(
                    self.entries()[i].1,
                ),
        ensures
            r@ == self@.map_values(f@),
    {
        proof {
            use_type_invariant(self);
        }
        let mut terms: Vec<(V, SymbolicExpression<T, V>)> = Vec::new();
        let n: usize = coefficients.len();
        let mut i: usize = 0;
        while i < n
            invariant
                n == self.terms@.len(),
                n == coefficients@.len(),
                i <= n,
                terms@.len() == i,
                forall|j: int|
                    0 <= j < i ==> (#[trigger] terms@[j]).0@ == self.terms@[j].0@ && terms@[j].1@
                        == coefficients@[j]@,
            decreases n - i,
        {
            terms.push((self.terms[i].0.duplicate(), coefficients[i].clone()));
            i += 1;
        }
        proof {
            let s = self.pairs();
            let t = term_views(terms@);
            assert forall|j: int| 0 <= j < s.len() implies #[trigger] t[j] == (
                s[j].0,
                f@(s[j].1),
            ) by {
                assert(terms@[j].0@ == self.terms@[j].0@);
                assert(coefficients@[j]@ == f@(self.entries()[j].1));
            }
            lemma_map_values::<V>(s, t, f@);
        }
        LinearTerms { terms }
    }

    /// The negated combination.
    pub fn negated(&self) -> (r: Self)
        ensures
            r@ == self@.map_values(|c: Symbolic<V::V>| c.negated(T::order())),
    {
        let mut coefficients: Vec<SymbolicExpression<T, V>> = Vec::new();
        let n: usize = self.terms.len();
        let mut i: usize = 0;
        while i < n
            invariant
                n == self.terms@.len(),
                i <= n,
                coefficients@.len() == i,
                forall|j: int|
                    0 <= j < i ==> (#[trigger] coefficients@[j])@ == self.terms@[j].1@.negated(
                        T::order(),
                    ),
            decreases n - i,
        {
            coefficients.push(self.terms[i].1.neg());
            i += 1;
        }
        self.with_coefficients(
            coefficients,
            Ghost(|c: Symbolic<V::V>| c.negated(T::order())),
        )
    }

    /// The combination times a known expression.
    pub fn scaled(&self, factor: &SymbolicExpression<T, V>) -> (r: Self)
        ensures
            r@ == self@.map_values(|c: Symbolic<V::V>| c.times(T::order(), factor@)),
    {
        let mut coefficients: Vec<SymbolicExpression<T, V>> = Vec::new();
        let n: usize = self.terms.len();
        let mut i: usize = 0;
        while i < n
            invariant
                n == self.terms@.len(),
                i <= n,
                coefficients@.len() == i,
                forall|j: int|
                    0 <= j < i ==> (#[trigger] coefficients@[j])@ == self.terms@[j].1@.times(
                        T::order(),
                        factor@,
                    ),
            decreases n - i,
        {
            coefficients.push(self.terms[i].1.mul(factor));
            i += 1;
        }
        self.with_coefficients(
            coefficients,
            Ghost(|c: Symbolic<V::V>| c.times(T::order(), factor@)),
        )
    }

    /// The combination with an update applied to all coefficients.
    pub fn updated(&self, update: &VariableUpdate<T, V>) -> (r: Self)
        ensures
            r@ == self@.map_values(
                |c: Symbolic<V::V>|
                    c.updated(T::order(), update.variable@, update.range_constraint@),
            ),
    {
        let mut coefficients: Vec<SymbolicExpression<T, V>> = Vec::new();
        let n: usize = self.terms.len();
        let mut i: usize = 0;
        while i < n
            invariant
                n == self.terms@.len(),
                i <= n,
                coefficients@.len() == i,
                forall|j: int|
                    0 <= j < i ==> (#[trigger] coefficients@[j])@ == self.terms@[j].1@.updated(
                        T::order(),
                        update.variable@,
                        update.range_constraint@,
                    ),
            decreases n - i,
        {
            let mut coefficient = self.terms[i].1.clone();
            coefficient.apply_update(update);
            coefficients.push(coefficient);
            i += 1;
        }
        self.with_coefficients(
            coefficients,
            Ghost(
                |c: Symbolic<V::V>|
                    c.updated(T::order(), update.variable@, update.range_constraint@),
            ),
        )
    }

    /// The sum of two combinations, without the terms that cancel.
    pub fn plus(&self, other: &Self) -> (r: Self)
        ensures
            r@ == nonzero(combined(T::order(), self@, other@)),
    {
        proof {
            use_type_invariant(self);
            use_type_invariant(other);
        }
        let ghost p = T::order();
        let ghost s = self.pairs();
        let ghost t = other.pairs();
        let mut terms: Vec<(V, SymbolicExpression<T, V>)> = Vec::new();
        let n: usize = self.terms.len();
        let m: usize = other.terms.len();
        let mut i: usize = 0;
        let mut j: usize = 0;
        proof {
            assert(s.take(0) =~= Seq::empty());
            assert(t.take(0) =~= Seq::empty());
            assert(pairs_map(term_views(terms@)) =~= nonzero(
                combined(p, pairs_map(s.take(0)), pairs_map(t.take(0))),
            ));
        }
        while i < n || j < m
            invariant
                p == T::order(),
                s == self.pairs(),
                t == other.pairs(),
                n == self.terms@.len(),
                m == other.terms@.len(),
                i <= n,
                j <= m,
                ascending::<V, Symbolic<V::V>>(s),
                ascending::<V, Symbolic<V::V>>(t),
                ascending::<V, Symbolic<V::V>>(term_views(terms@)),
                pairs_map(term_views(terms@)) == nonzero(
                    combined(p, pairs_map(s.take(i as int)), pairs_map(t.take(j as int))),
                ),
                forall|x: int, y: int|
                    0 <= x < i && j <= y < m ==> V::precedes(
                        (#[trigger] s[x]).0,
                        (#[trigger] t[y]).0,
                    ),
                forall|x: int, y: int|
                    i <= x < n && 0 <= y < j ==> V::precedes(
                        (#[trigger] t[y]).0,
                        (#[trigger] s[x]).0,
                    ),
            decreases n - i + m - j,
        {
            let ghost before = term_views(terms@);
            let ghost a = pairs_map(s.take(i as int));
            let ghost b = pairs_map(t.take(j as int));
            let order: Comparison = if i == n {
                Comparison::Greater
            } else if j == m {
                Comparison::Less
            } else {
                self.terms[i].0.compare(&other.terms[j].0)
            };
            let ghost i0 = i as int;
            let ghost j0 = j as int;
            let (variable, coefficient): (V, SymbolicExpression<T, V>) = match order {
                Comparison::Less => {
                    i += 1;
                    (self.terms[i - 1].0.duplicate(), self.terms[i - 1].1.clone())
                },
                Comparison::Greater => {
                    j += 1;
                    (other.terms[j - 1].0.duplicate(), other.terms[j - 1].1.clone())
                },
                Comparison::Equal => {
                    i += 1;
                    j += 1;
                    (
                        self.terms[i - 1].0.duplicate(),
                        self.terms[i - 1].1.add(&other.terms[j - 1].1),
                    )
                },
            };
            let ghost k = variable@;
            let ghost c = coefficient@;
            let zero: bool = coefficient.is_known_zero();
            proof {
                assert(i0 < n ==> s[i0] == (self.terms@[i0].0@, self.terms@[i0].1@));
                assert(j0 < m ==> t[j0] == (other.terms@[j0].0@, other.terms@[j0].1@));
                let x = if i > i0 {
                    Some(s[i0].1)
                } else {
                    None
                };
                let y = if j > j0 {
                    Some(t[j0].1)
                } else {
                    None
                };
                assert(i0 < n && i == i0 ==> V::precedes(k, s[i0].0));
                assert(j0 < m && j == j0 ==> V::precedes(k, t[j0].0));
                if i0 < n {
                    lemma_take_step::<V>(s, i0);
                }
                if j0 < m {
                    lemma_take_step::<V>(t, j0);
                }
                V::lemma_irreflexive(k);
                assert forall|d: V::V| a.contains_key(d) implies #[trigger] V::precedes(d, k) by {
                    let x = position(s.take(i0), d);
                    assert(s.take(i0)[x] == s[x]);
                    if i > i0 {
                        assert(V::precedes(s[x].0, s[i0].0));
                    } else {
                        assert(V::precedes(s[x].0, t[j0].0));
                    }
                }
                assert forall|d: V::V| b.contains_key(d) implies #[trigger] V::precedes(d, k) by {
                    let y = position(t.take(j0), d);
                    assert(t.take(j0)[y] == t[y]);
                    if j > j0 {
                        assert(V::precedes(t[y].0, t[j0].0));
                    } else {
                        assert(V::precedes(t[y].0, s[i0].0));
                    }
                }
                assert(pairs_map(s.take(i as int)) == extended(a, k, x));
                assert(pairs_map(t.take(j as int)) == extended(b, k, y));
                lemma_combined_step(p, a, b, k, x, y, c);
                assert forall|d: V::V|
                    pairs_map(before).contains_key(d) implies #[trigger] V::precedes(d, k) by {
                    assert(a.contains_key(d) || b.contains_key(d));
                }
                lemma_push_greatest::<V, Symbolic<V::V>>(before, k, c);
                assert forall|x: int, y: int| 0 <= x < i && j <= y < m implies V::precedes(
                    (#[trigger] s[x]).0,
                    (#[trigger] t[y]).0,
                ) by {
                    if x == i0 && y > j0 {
                        assert(V::precedes(t[j0].0, t[y].0));
                        if j == j0 {
                            V::lemma_transitive(k, t[j0].0, t[y].0);
                        }
                    }
                }
                assert forall|x: int, y: int| i <= x < n && 0 <= y < j implies V::precedes(
                    (#[trigger] t[y]).0,
                    (#[trigger] s[x]).0,
                ) by {
                    if y == j0 && x > i0 {
                        assert(V::precedes(s[i0].0, s[x].0));
                        if i == i0 {
                            V::lemma_transitive(k, s[i0].0, s[x].0);
                        }
                    }
                }
            }
            if !zero {
                terms.push((variable, coefficient));
                assert(term_views(terms@) =~= before.push((k, c)));
            }
        }
        proof {
            assert(s.take(n as int) =~= s);
            assert(t.take(m as int) =~= t);
        }
        LinearTerms { terms }
    }

    /// The combination without one of its terms.
    pub fn without(&self, place: usize) -> (r: Self)
        requires
            place < self.entries().len(),
        ensures
            r@ == self@.remove(self.entries()[place as int].0),
    {
        proof {
            use_type_invariant(self);
        }
        let ghost s = self.pairs();
        let mut terms: Vec<(V, SymbolicExpression<T, V>)> = Vec::new();
        let n: usize = self.terms.len();
        let mut i: usize = 0;
        while i < n
            invariant
                n == self.terms@.len(),
                place < n,
                i <= n,
                s == self.pairs(),
                term_views(terms@) == (if i <= place {
                    s.take(i as int)
                } else {
                    s.take(place as int) + s.subrange(place + 1, i as int)
                }),
            decreases n - i,
        {
            let ghost before = term_views(terms@);
            assert(s[i as int] == (self.terms@[i as int].0@, self.terms@[i as int].1@));
            if i != place {
                terms.push((self.terms[i].0.duplicate(), self.terms[i].1.clone()));
                assert(term_views(terms@) =~= before.push(s[i as int]));
            }
            i += 1;
            assert(term_views(terms@) =~= (if i <= place {
                s.take(i as int)
            } else {
                s.take(place as int) + s.subrange(place + 1, i as int)
            }));
        }
        proof {
            let t = term_views(terms@);
            assert(t =~= s.remove(place as int));
            lemma_remove_pair::<V, Symbolic<V::V>>(s, place as int);
        }
        LinearTerms { terms }
    }

    /// The combination without the terms whose coefficient is known to be zero.
    pub fn without_zeros(&self) -> (r: Self)
        ensures
            r@ == nonzero(self@),
    {
        let r = self.plus(&LinearTerms::new());
        assert(combined(
            T::order(),
            self@,
            Map::<V::V, Symbolic<V::V>>::empty(),
        ) =~= self@);
        r
    }
}

impl<T: FieldElement, V: Variable> Clone for LinearTerms<T, V> {
    fn clone(&self) -> (r: Self)
        ensures
            r@ == self@,
    {
        let mut coefficients: Vec<SymbolicExpression<T, V>> = Vec::new();
        let n: usize = self.terms.len();
        let mut i: usize = 0;
        while i < n
            invariant
                n == self.terms@.len(),
                i <= n,
                coefficients@.len() == i,
                forall|j: int| 0 <= j < i ==> (#[trigger] coefficients@[j])@ == self.terms@[j].1@,
            decreases n - i,
        {
            coefficients.push(self.terms[i].1.clone());
            i += 1;
        }
        let r = self.with_coefficients(coefficients, Ghost(|c: Symbolic<V::V>| c));
        assert(self@.map_values(|c: Symbolic<V::V>| c) =~= self@);
        r
    }
}

/// Taking one more pair of an ascending list inserts it.
proof fn lemma_take_step<V: Variable>(s: Seq<(V::V, Symbolic<V::V>)>, i: int)
    requires
        ascending::<V, Symbolic<V::V>>(s),
        0 <= i < s.len(),
    ensures
        pairs_map(s.take(i + 1)) == pairs_map(s.take(i)).insert(s[i].0, s[i].1),
{
    let d = s.take(i);
    assert forall|x: int, y: int| 0 <= x < y < d.len() implies V::precedes(
        (#[trigger] d[x]).0,
        (#[trigger] d[y]).0,
    ) by {
        assert(V::precedes(s[x].0, s[y].0));
    }
    assert forall|c: V::V| pairs_map(d).contains_key(c) implies #[trigger] V::precedes(
        c,
        s[i].0,
    ) by {
        let x = position(d, c);
        assert(d[x].0 == c);
        assert(V::precedes(s[x].0, s[i].0));
    }
    lemma_push_greatest::<V, Symbolic<V::V>>(d, s[i].0, s[i].1);
    assert(s.take(i + 1) =~= d.push(s[i]));
}

/// Leaving a pair out of an ascending list removes its key from the map.
proof fn lemma_remove_pair<V: Variable, S>(s: Seq<(V::V, S)>, i: int)
    requires
        ascending::<V, S>(s),
        0 <= i < s.len(),
    ensures
        ascending::<V, S>(s.remove(i)),
        pairs_map(s.remove(i)) == pairs_map(s).remove(s[i].0),
{
    let t = s.remove(i);
    let k = s[i].0;
    assert forall|x: int, y: int| 0 <= x < y < t.len() implies V::precedes(
        (#[trigger] t[x]).0,
        (#[trigger] t[y]).0,
    ) by {
        let x1 = if x < i {
            x
        } else {
            x + 1
        };
        let y1 = if y < i {
            y
        } else {
            y + 1
        };
        assert(V::precedes(s[x1].0, s[y1].0));
    }
    assert forall|c: V::V| pairs_map(t).contains_key(c) <==> pairs_map(s).remove(k).contains_key(
        c,
    ) by {
        if has_key(t, c) {
            let x = position(t, c);
            let x1 = if x < i {
                x
            } else {
                x + 1
            };
            assert(t[x] == s[x1]);
            V::lemma_irreflexive(c);
            assert(V::precedes(s[x1].0, k) || V::precedes(k, s[x1].0));
        }
        if has_key(s, c) && c != k {
            let x = position(s, c);
            let x1 = if x < i {
                x
            } else {
                x - 1
            };
            assert(t[x1] == s[x]);
        }
    }
    assert forall|c: V::V| pairs_map(t).contains_key(c) implies #[trigger] pairs_map(t)[c]
        == pairs_map(s)[c] by {
        let x = position(t, c);
        let x1 = if x < i {
            x
        } else {
            x + 1
        };
        assert(t[x] == s[x1]);
        lemma_ascending_distinct::<V, S>(t, x);
        lemma_ascending_distinct::<V, S>(s, x1);
    }
    assert(pairs_map(t) =~= pairs_map(s).remove(k));
}

} // verus!
