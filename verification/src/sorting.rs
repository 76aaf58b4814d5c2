//! Stable sorting.
use vstd::prelude::*;

verus! {

/// The elements with a given key, in their order.
pub open spec fn with_key<A>(s: Seq<A>, key: spec_fn(A) -> int, k: int) -> Seq<A>
    decreases s.len(),
{
    if s.len() == 0 {
        Seq::empty()
    } else if key(s.last()) == k {
        with_key(s.drop_last(), key, k).push(s.last())
    } else {
        with_key(s.drop_last(), key, k)
    }
}

/// The keys do not descend.
pub open spec fn ordered<A>(s: Seq<A>, key: spec_fn(A) -> int) -> bool {
    forall|i: int, j: int| 0 <= i <= j < s.len() ==> key(#[trigger] s[i]) <= key(#[trigger] s[j])
}

/// A sequence with one more element, behind all elements whose key is not greater.
pub open spec fn inserted<A>(s: Seq<A>, a: A, key: spec_fn(A) -> int) -> Seq<A>
    decreases s.len(),
{
    if s.len() == 0 || key(s.last()) <= key(a) {
        s.push(a)
    } else {
        inserted(s.drop_last(), a, key).push(s.last())
    }
}

/// The elements by ascending key; those with the same key stay in their order.
pub open spec fn sorted_by<A>(s: Seq<A>, key: spec_fn(A) -> int) -> Seq<A>
    decreases s.len(),
{
    if s.len() == 0 {
        s
    } else {
        inserted(sorted_by(s.drop_last(), key), s.last(), key)
    }
}

/// What one sequence has for every key the other has as well, in the same order.
pub open spec fn same_by_key<A>(s: Seq<A>, t: Seq<A>, key: spec_fn(A) -> int) -> bool {
    forall|k: int| #[trigger] with_key(s, key, k) == with_key(t, key, k)
}

proof fn lemma_with_key_push<A>(s: Seq<A>, a: A, key: spec_fn(A) -> int, k: int)
    ensures
        with_key(s.push(a), key, k) == (if key(a) == k {
            with_key(s, key, k).push(a)
        } else {
            with_key(s, key, k)
        }),
{
    assert(s.push(a).drop_last() =~= s);
}

/// A key found among the elements is the key of one of them.
proof fn lemma_with_key_some<A>(s: Seq<A>, key: spec_fn(A) -> int, k: int)
    requires
        with_key(s, key, k).len() > 0,
    ensures
        exists|i: int| 0 <= i < s.len() && key(#[trigger] s[i]) == k,
    decreases s.len(),
{
    if key(s.last()) == k {
        assert(s[s.len() - 1] == s.last());
    } else {
        lemma_with_key_some(s.drop_last(), key, k);
        let i = choose|i: int|
            0 <= i < s.drop_last().len() && key(#[trigger] s.drop_last()[i]) == k;
        assert(s[i] == s.drop_last()[i]);
    }
}

/// There is only one way to order elements stably.
pub proof fn lemma_stable_unique<A>(s: Seq<A>, t: Seq<A>, key: spec_fn(A) -> int)
    requires
        ordered(s, key),
        ordered(t, key),
        same_by_key(s, t, key),
    ensures
        s == t,
    decreases s.len(),
{
    if s.len() == 0 {
        if t.len() > 0 {
            let k = key(t.last());
            assert(with_key(s, key, k) == with_key(t, key, k));
        }
        assert(s =~= t);
    } else {
        let k = key(s.last());
        assert(with_key(s, key, k) == with_key(t, key, k));
        lemma_with_key_some(t, key, k);
        let i = choose|i: int| 0 <= i < t.len() && key(#[trigger] t[i]) == k;
        let h = key(t.last());
        assert(t[t.len() - 1] == t.last());
        assert(key(t[i]) <= key(t[t.len() - 1]));
        assert(with_key(s, key, h) == with_key(t, key, h));
        lemma_with_key_some(s, key, h);
        let j = choose|j: int| 0 <= j < s.len() && key(#[trigger] s[j]) == h;
        assert(s[s.len() - 1] == s.last());
        assert(key(s[j]) <= key(s[s.len() - 1]));
        assert(k == h);
        assert(with_key(s, key, k).last() == s.last());
        assert(with_key(t, key, k).last() == t.last());
        let a = s.drop_last();
        let b = t.drop_last();
        assert forall|x: int| #[trigger] with_key(a, key, x) == with_key(b, key, x) by {
            assert(with_key(s, key, x) == with_key(t, key, x));
            if x == k {
                assert(with_key(s, key, x).drop_last() =~= with_key(a, key, x));
                assert(with_key(t, key, x).drop_last() =~= with_key(b, key, x));
            }
        }
        assert forall|x: int, y: int| 0 <= x <= y < a.len() implies key(#[trigger] a[x]) <= key(
            #[trigger] a[y],
        ) by {
            assert(key(s[x]) <= key(s[y]));
        }
        assert forall|x: int, y: int| 0 <= x <= y < b.len() implies key(#[trigger] b[x]) <= key(
            #[trigger] b[y],
        ) by {
            assert(key(t[x]) <= key(t[y]));
        }
        lemma_stable_unique(a, b, key);
        assert(s =~= a.push(s.last()));
        assert(t =~= b.push(t.last()));
    }
}

proof fn lemma_inserted<A>(s: Seq<A>, a: A, key: spec_fn(A) -> int)
    requires
        ordered(s, key),
    ensures
        ordered(inserted(s, a, key), key),
        same_by_key(inserted(s, a, key), s.push(a), key),
        inserted(s, a, key).len() == s.len() + 1,
        forall|i: int|
            0 <= i <= s.len() ==> key(#[trigger] inserted(s, a, key)[i]) <= (if s.len() > 0
                && key(s.last()) > key(a) {
                key(s.last())
            } else {
                key(a)
            }),
    decreases s.len(),
{
    let r = inserted(s, a, key);
    if s.len() == 0 || key(s.last()) <= key(a) {
        assert forall|i: int, j: int| 0 <= i <= j < r.len() implies key(#[trigger] r[i]) <= key(
            #[trigger] r[j],
        ) by {
            if i < s.len() {
                assert(r[i] == s[i]);
                if j < s.len() {
                    assert(r[j] == s[j]);
                } else {
                    assert(key(s[i]) <= key(s[s.len() - 1]));
                }
            }
        }
        assert forall|i: int| 0 <= i <= s.len() implies key(#[trigger] r[i]) <= key(a) by {
            assert(key(r[i]) <= key(r[s.len() as int]));
        }
    } else {
        let d = s.drop_last();
        let q = inserted(d, a, key);
        let b = s.last();
        assert forall|x: int, y: int| 0 <= x <= y < d.len() implies key(#[trigger] d[x]) <= key(
            #[trigger] d[y],
        ) by {
            assert(key(s[x]) <= key(s[y]));
        }
        lemma_inserted(d, a, key);
        if d.len() > 0 {
            assert(d.last() == s[d.len() - 1]);
            assert(key(s[d.len() - 1]) <= key(s[s.len() - 1]));
        }
        assert forall|i: int, j: int| 0 <= i <= j < r.len() implies key(#[trigger] r[i]) <= key(
            #[trigger] r[j],
        ) by {
            if i < q.len() {
                assert(r[i] == q[i]);
                if j < q.len() {
                    assert(r[j] == q[j]);
                }
            }
        }
        assert forall|i: int| 0 <= i <= s.len() implies key(#[trigger] r[i]) <= key(b) by {
            if i < q.len() {
                assert(r[i] == q[i]);
            }
        }
        assert forall|k: int| #[trigger] with_key(r, key, k) == with_key(s.push(a), key, k) by {
            lemma_with_key_push(q, b, key, k);
            lemma_with_key_push(s, a, key, k);
            lemma_with_key_push(d, b, key, k);
            lemma_with_key_push(d, a, key, k);
            assert(s =~= d.push(b));
            assert(with_key(q, key, k) == with_key(d.push(a), key, k));
        }
    }
}

/// Sorting orders the elements and is stable.
pub proof fn lemma_sorted_by<A>(s: Seq<A>, key: spec_fn(A) -> int)
    ensures
        ordered(sorted_by(s, key), key),
        same_by_key(sorted_by(s, key), s, key),
        sorted_by(s, key).len() == s.len(),
    decreases s.len(),
{
    if s.len() > 0 {
        let d = s.drop_last();
        let q = sorted_by(d, key);
        lemma_sorted_by(d, key);
        lemma_inserted(q, s.last(), key);
        assert forall|k: int| #[trigger]
            with_key(sorted_by(s, key), key, k) == with_key(s, key, k) by {
            lemma_with_key_push(q, s.last(), key, k);
            assert(with_key(q, key, k) == with_key(d, key, k));
            assert(with_key(inserted(q, s.last(), key), key, k) == with_key(
                q.push(s.last()),
                key,
                k,
            ));
        }
    }
}

/// What comes out ordered and stable is the sorted sequence.
pub proof fn lemma_is_sorted<A>(s: Seq<A>, t: Seq<A>, key: spec_fn(A) -> int)
    requires
        ordered(t, key),
        same_by_key(t, s, key),
    ensures
        t == sorted_by(s, key),
{
    lemma_sorted_by(s, key);
    let r = sorted_by(s, key);
    assert forall|k: int| #[trigger] with_key(t, key, k) == with_key(r, key, k) by {
        assert(with_key(r, key, k) == with_key(s, key, k));
    }
    lemma_stable_unique(t, r, key);
}

proof fn lemma_inserted_mapped<A, B>(
    s: Seq<A>,
    a: A,
    key: spec_fn(A) -> int,
    f: spec_fn(A) -> B,
    mapped_key: spec_fn(B) -> int,
)
    requires
        forall|x: A| mapped_key(#[trigger] f(x)) == key(x),
    ensures
        inserted(s.map_values(f), f(a), mapped_key) == inserted(s, a, key).map_values(f),
    decreases s.len(),
{
    let t = s.map_values(f);
    if s.len() == 0 || key(s.last()) <= key(a) {
        assert(s.len() > 0 ==> t.last() == f(s.last()));
        assert(t.push(f(a)) =~= s.push(a).map_values(f));
    } else {
        lemma_inserted_mapped(s.drop_last(), a, key, f, mapped_key);
        assert(t.drop_last() =~= s.drop_last().map_values(f));
        assert(t.last() == f(s.last()));
        let q = inserted(s.drop_last(), a, key);
        assert(q.push(s.last()).map_values(f) =~= q.map_values(f).push(f(s.last())));
    }
}

/// Sorting commutes with mapping that keeps the keys.
pub proof fn lemma_sorted_mapped<A, B>(
    s: Seq<A>,
    key: spec_fn(A) -> int,
    f: spec_fn(A) -> B,
    mapped_key: spec_fn(B) -> int,
)
    requires
        forall|x: A| mapped_key(#[trigger] f(x)) == key(x),
    ensures
        sorted_by(s.map_values(f), mapped_key) == sorted_by(s, key).map_values(f),
    decreases s.len(),
{
    let t = s.map_values(f);
    if s.len() == 0 {
        assert(t =~= sorted_by(s, key).map_values(f));
    } else {
        lemma_sorted_mapped(s.drop_last(), key, f, mapped_key);
        assert(t.drop_last() =~= s.drop_last().map_values(f));
        assert(t.last() == f(s.last()));
        lemma_inserted_mapped(sorted_by(s.drop_last(), key), s.last(), key, f, mapped_key);
    }
}

proof fn lemma_inserted_all<A>(
    s: Seq<A>,
    a: A,
    key: spec_fn(A) -> int,
    holds: spec_fn(A) -> bool,
)
    requires
        forall|i: int| 0 <= i < s.len() ==> holds(#[trigger] s[i]),
        holds(a),
    ensures
        forall|i: int|
            0 <= i < inserted(s, a, key).len() ==> holds(#[trigger] inserted(s, a, key)[i]),
    decreases s.len(),
{
    if s.len() > 0 && key(s.last()) > key(a) {
        let d = s.drop_last();
        let q = inserted(d, a, key);
        assert forall|i: int| 0 <= i < d.len() implies holds(#[trigger] d[i]) by {
            assert(d[i] == s[i]);
        }
        lemma_inserted_all(d, a, key, holds);
        let r = inserted(s, a, key);
        assert forall|i: int| 0 <= i < r.len() implies holds(#[trigger] r[i]) by {
            if i < q.len() {
                assert(r[i] == q[i]);
            } else {
                assert(r[i] == s[s.len() - 1]);
            }
        }
    }
}

/// What holds of all elements holds of all elements of the sorted sequence.
pub proof fn lemma_sorted_all<A>(s: Seq<A>, key: spec_fn(A) -> int, holds: spec_fn(A) -> bool)
    requires
        forall|i: int| 0 <= i < s.len() ==> holds(#[trigger] s[i]),
    ensures
        forall|i: int| 0 <= i < sorted_by(s, key).len() ==> holds(#[trigger] sorted_by(s, key)[i]),
    decreases s.len(),
{
    if s.len() > 0 {
        let d = s.drop_last();
        assert forall|i: int| 0 <= i < d.len() implies holds(#[trigger] d[i]) by {
            assert(d[i] == s[i]);
        }
        assert(holds(s[s.len() - 1]));
        lemma_sorted_all(d, key, holds);
        lemma_inserted_all(sorted_by(d, key), s.last(), key, holds);
    }
}

/// Elements are in order: by key, and for the same key as `before` says.
pub open spec fn arranged<A>(
    s: Seq<A>,
    key: spec_fn(A) -> int,
    before: spec_fn(A, A) -> bool,
) -> bool {
    forall|i: int, j: int|
        0 <= i < j < s.len() ==> key(#[trigger] s[i]) < key(#[trigger] s[j]) || (key(s[i]) == key(
            s[j],
        ) && before(s[i], s[j]))
}

proof fn lemma_inserted_arranged<A>(
    s: Seq<A>,
    a: A,
    key: spec_fn(A) -> int,
    before: spec_fn(A, A) -> bool,
)
    requires
        arranged(s, key, before),
        forall|i: int| 0 <= i < s.len() ==> before(#[trigger] s[i], a),
    ensures
        arranged(inserted(s, a, key), key, before),
    decreases s.len(),
{
    let r = inserted(s, a, key);
    if s.len() == 0 || key(s.last()) <= key(a) {
        assert forall|i: int, j: int| 0 <= i < j < r.len() implies key(#[trigger] r[i]) < key(
            #[trigger] r[j],
        ) || (key(r[i]) == key(r[j]) && before(r[i], r[j])) by {
            assert(r[i] == s[i]);
            if j < s.len() {
                assert(r[j] == s[j]);
            } else {
                assert(r[j] == a);
                assert(before(s[i], a));
                if i < s.len() - 1 {
                    assert(key(s[i]) <= key(s[s.len() - 1]));
                }
            }
        }
    } else {
        let d = s.drop_last();
        let last = s.last();
        assert forall|i: int| 0 <= i < d.len() implies before(#[trigger] d[i], a) by {
            assert(d[i] == s[i]);
        }
        assert forall|i: int, j: int| 0 <= i < j < d.len() implies key(#[trigger] d[i]) < key(
            #[trigger] d[j],
        ) || (key(d[i]) == key(d[j]) && before(d[i], d[j])) by {
            assert(d[i] == s[i] && d[j] == s[j]);
        }
        lemma_inserted_arranged(d, a, key, before);
        let q = inserted(d, a, key);
        let fine = |x: A| key(x) < key(last) || (key(x) == key(last) && before(x, last));
        assert forall|i: int| 0 <= i < d.len() implies fine(#[trigger] d[i]) by {
            assert(d[i] == s[i] && last == s[s.len() - 1]);
        }
        lemma_inserted_all(d, a, key, fine);
        assert forall|i: int, j: int| 0 <= i < j < r.len() implies key(#[trigger] r[i]) < key(
            #[trigger] r[j],
        ) || (key(r[i]) == key(r[j]) && before(r[i], r[j])) by {
            assert(r[i] == q[i]);
            if j < q.len() {
                assert(r[j] == q[j]);
            } else {
                assert(r[j] == last);
                assert(fine(q[i]));
            }
        }
    }
}

/// Sorting keeps elements with the same key in their order.
pub proof fn lemma_sorted_arranged<A>(
    s: Seq<A>,
    key: spec_fn(A) -> int,
    before: spec_fn(A, A) -> bool,
)
    requires
        forall|i: int, j: int| 0 <= i < j < s.len() ==> before(#[trigger] s[i], #[trigger] s[j]),
    ensures
        arranged(sorted_by(s, key), key, before),
    decreases s.len(),
{
    if s.len() > 0 {
        let d = s.drop_last();
        let last = s.last();
        assert forall|i: int, j: int| 0 <= i < j < d.len() implies before(
            #[trigger] d[i],
            #[trigger] d[j],
        ) by {
            assert(d[i] == s[i] && d[j] == s[j]);
        }
        lemma_sorted_arranged(d, key, before);
        assert forall|i: int| 0 <= i < d.len() implies before(#[trigger] d[i], last) by {
            assert(d[i] == s[i] && last == s[s.len() - 1]);
        }
        lemma_sorted_all(d, key, |x: A| before(x, last));
        let q = sorted_by(d, key);
        assert forall|i: int| 0 <= i < q.len() implies before(#[trigger] q[i], last) by {
            assert((|x: A| before(x, last))(q[i]));
        }
        lemma_inserted_arranged(q, last, key, before);
    }
}

/// The sum of `f` over a sequence.
pub open spec fn total<A>(s: Seq<A>, f: spec_fn(A) -> int) -> int
    decreases s.len(),
{
    if s.len() == 0 {
        0
    } else {
        total(s.drop_last(), f) + f(s.last())
    }
}

proof fn lemma_inserted_total<A>(s: Seq<A>, a: A, key: spec_fn(A) -> int, f: spec_fn(A) -> int)
    ensures
        total(inserted(s, a, key), f) == total(s, f) + f(a),
    decreases s.len(),
{
    if s.len() == 0 || key(s.last()) <= key(a) {
        assert(s.push(a).drop_last() =~= s);
    } else {
        lemma_inserted_total(s.drop_last(), a, key, f);
        let q = inserted(s.drop_last(), a, key);
        assert(q.push(s.last()).drop_last() =~= q);
    }
}

/// Sorting does not change sums.
pub proof fn lemma_sorted_total<A>(s: Seq<A>, key: spec_fn(A) -> int, f: spec_fn(A) -> int)
    ensures
        total(sorted_by(s, key), f) == total(s, f),
    decreases s.len(),
{
    if s.len() > 0 {
        lemma_sorted_total(s.drop_last(), key, f);
        lemma_inserted_total(sorted_by(s.drop_last(), key), s.last(), key, f);
    }
}

proof fn lemma_inserted_member<A>(s: Seq<A>, a: A, key: spec_fn(A) -> int, x: A)
    requires
        s.contains(x) || x == a,
    ensures
        inserted(s, a, key).contains(x),
    decreases s.len(),
{
    let r = inserted(s, a, key);
    if s.len() == 0 || key(s.last()) <= key(a) {
        if s.contains(x) {
            let i = choose|i: int| 0 <= i < s.len() && s[i] == x;
            assert(r[i] == x);
        } else {
            assert(r[s.len() as int] == x);
        }
    } else {
        let d = s.drop_last();
        let q = inserted(d, a, key);
        if x == s.last() {
            assert(r[q.len() as int] == x);
        } else {
            if s.contains(x) {
                let i = choose|i: int| 0 <= i < s.len() && s[i] == x;
                assert(d[i] == x);
            }
            lemma_inserted_member(d, a, key, x);
            let i = choose|i: int| 0 <= i < q.len() && q[i] == x;
            assert(r[i] == x);
        }
    }
}

/// Sorting keeps all elements.
pub proof fn lemma_sorted_member<A>(s: Seq<A>, key: spec_fn(A) -> int, x: A)
    requires
        s.contains(x),
    ensures
        sorted_by(s, key).contains(x),
    decreases s.len(),
{
    let i = choose|i: int| 0 <= i < s.len() && s[i] == x;
    if i < s.len() - 1 {
        assert(s.drop_last()[i] == x);
        lemma_sorted_member(s.drop_last(), key, x);
    }
    lemma_inserted_member(sorted_by(s.drop_last(), key), s.last(), key, x);
}

} // verus!
