//! The form of expressions: which symbols they have, and that they are simplified.
use vstd::prelude::*;

use crate::range_constraint::Range;
use crate::symbolic_expression::{BinaryOperator, Symbolic};

verus! {

/// The symbols with their range constraints, in the order in which they occur.
pub open spec fn occurrences<K>(s: Symbolic<K>) -> Seq<(K, Range)>
    decreases s,
{
    match s {
        Symbolic::Concrete(_) => Seq::empty(),
        Symbolic::Symbol(k, r) => seq![(k, r)],
        Symbolic::Binary(l, _, r) => occurrences(*l) + occurrences(*r),
        Symbolic::Negation(e) => occurrences(*e),
    }
}

/// The symbol occurs in the expression with this range constraint.
pub open spec fn occurs<K>(s: Symbolic<K>, k: K, r: Range) -> bool {
    occurrences(s).contains((k, r))
}

/// The symbol occurs in the expression.
pub open spec fn mentioned<K>(s: Symbolic<K>, k: K) -> bool {
    exists|r: Range| #[trigger] occurs(s, k, r)
}

/// The expression is one of the numbers 0, 1 and -1.
pub open spec fn trivial<K>(p: int, s: Symbolic<K>) -> bool {
    s == Symbolic::<K>::Concrete(0) || s == Symbolic::<K>::Concrete(1) || s
        == Symbolic::<K>::Concrete(p - 1)
}

/// No part of the expression can be simplified: there is no operation on numbers alone but a
/// division by zero, none with a neutral element, and no double negation.
pub open spec fn simple<K>(p: int, s: Symbolic<K>) -> bool
    decreases s,
{
    match s {
        Symbolic::Concrete(_) => true,
        Symbolic::Symbol(_, _) => true,
        Symbolic::Binary(l, op, r) => {
            &&& simple(p, *l)
            &&& simple(p, *r)
            &&& match op {
                BinaryOperator::Add => {
                    &&& !(*l is Concrete && *r is Concrete)
                    &&& *l != Symbolic::<K>::Concrete(0)
                    &&& *r != Symbolic::<K>::Concrete(0)
                },
                BinaryOperator::Mul => {
                    &&& !(*l is Concrete && *r is Concrete)
                    &&& !trivial(p, *l)
                    &&& !trivial(p, *r)
                },
                BinaryOperator::Div => *r == Symbolic::<K>::Concrete(0) || {
                    &&& !(*l is Concrete && *r is Concrete)
                    &&& *l != Symbolic::<K>::Concrete(0)
                    &&& !trivial(p, *r)
                },
            }
        },
        Symbolic::Negation(e) => simple(p, *e) && !(*e is Concrete) && !(*e is Negation),
    }
}

/// A sum has the symbols of both summands, is a number if both are, and is the other summand
/// if one is zero. Otherwise it is the operation on both in their order. It is simplified if
/// both are.
pub proof fn lemma_plus_form<K>(a: Symbolic<K>, b: Symbolic<K>, p: int)
    ensures
        occurrences(a.plus(p, b)) == occurrences(a) + occurrences(b),
        a is Concrete && b is Concrete ==> a.plus(p, b) is Concrete,
        a == Symbolic::<K>::Concrete(0) ==> a.plus(p, b) == b,
        b == Symbolic::<K>::Concrete(0) ==> a.plus(p, b) == a,
        !(a is Concrete && b is Concrete) && a != Symbolic::<K>::Concrete(0) && b
            != Symbolic::<K>::Concrete(0) ==> a.plus(p, b) == Symbolic::Binary(
            Box::new(a),
            BinaryOperator::Add,
            Box::new(b),
        ),
        simple(p, a) && simple(p, b) ==> simple(p, a.plus(p, b)),
{
    assert(occurrences(a.plus(p, b)) =~= occurrences(a) + occurrences(b));
}

/// A negation has the symbols of the expression and is a number if that is one. It is
/// simplified if that is.
pub proof fn lemma_negated_form<K>(a: Symbolic<K>, p: int)
    ensures
        occurrences(a.negated(p)) == occurrences(a),
        a is Concrete ==> a.negated(p) is Concrete,
        a is Symbol || a is Binary ==> a.negated(p) == Symbolic::Negation(Box::new(a)),
        simple(p, a) ==> simple(p, a.negated(p)),
        simple(p, a) && !(a is Concrete) ==> a.negated(p).negated(p) == a,
{
}

/// A product is the number zero if a factor is. Otherwise it has the symbols of both factors.
/// It is a number if both are, and the other factor if one is the number one. It is simplified
/// if both are.
pub proof fn lemma_times_form<K>(a: Symbolic<K>, b: Symbolic<K>, p: int)
    requires
        2 < p,
    ensures
        a == Symbolic::<K>::Concrete(0) || b == Symbolic::<K>::Concrete(0) ==> a.times(p, b)
            == Symbolic::<K>::Concrete(0),
        a != Symbolic::<K>::Concrete(0) && b != Symbolic::<K>::Concrete(0) ==> occurrences(
            a.times(p, b),
        ) == occurrences(a) + occurrences(b),
        a is Concrete && b is Concrete ==> a.times(p, b) is Concrete,
        a == Symbolic::<K>::Concrete(1) && b.wf(p) ==> a.times(p, b) == b,
        b == Symbolic::<K>::Concrete(1) && a.wf(p) ==> a.times(p, b) == a,
        a == Symbolic::<K>::Concrete(p - 1) && !(b is Concrete) ==> a.times(p, b) == b.negated(p),
        b == Symbolic::<K>::Concrete(p - 1) && !(a is Concrete) ==> a.times(p, b) == a.negated(p),
        !(a is Concrete && b is Concrete) && !trivial(p, a) && !trivial(p, b) ==> a.times(p, b)
            == Symbolic::Binary(Box::new(a), BinaryOperator::Mul, Box::new(b)),
        simple(p, a) && simple(p, b) ==> simple(p, a.times(p, b)),
{
    lemma_negated_form(a, p);
    lemma_negated_form(b, p);
    if a != Symbolic::<K>::Concrete(0) && b != Symbolic::<K>::Concrete(0) {
        assert(occurrences(a.times(p, b)) =~= occurrences(a) + occurrences(b));
    }
    if a is Concrete && b is Concrete {
        let x = a->Concrete_0;
        let y = b->Concrete_0;
        assert(x == 0 ==> x * y == 0);
        assert(y == 0 ==> x * y == 0);
        assert(x == 1 ==> x * y == y);
        assert(y == 1 ==> x * y == x);
        crate::modular::lemma_small(p, 0);
        if 0 <= x < p {
            crate::modular::lemma_small(p, x);
        }
        if 0 <= y < p {
            crate::modular::lemma_small(p, y);
        }
    }
}

/// A quotient is the number zero if the dividend is and the divisor is not. Otherwise it has
/// the symbols of both. It is a number if both are and the divisor is not zero, and the
/// dividend if the divisor is the number one. It is simplified if both are.
pub proof fn lemma_over_form<K>(a: Symbolic<K>, b: Symbolic<K>, p: int)
    requires
        2 < p,
        crate::modular::is_prime(p),
    ensures
        a == Symbolic::<K>::Concrete(0) && b != Symbolic::<K>::Concrete(0) ==> a.over(p, b)
            == Symbolic::<K>::Concrete(0),
        a != Symbolic::<K>::Concrete(0) || b == Symbolic::<K>::Concrete(0) ==> occurrences(
            a.over(p, b),
        ) == occurrences(a) + occurrences(b),
        a is Concrete && b is Concrete && b != Symbolic::<K>::Concrete(0) ==> a.over(
            p,
            b,
        ) is Concrete,
        b == Symbolic::<K>::Concrete(1) && a.wf(p) ==> a.over(p, b) == a,
        b == Symbolic::<K>::Concrete(p - 1) && !(a is Concrete) ==> a.over(p, b) == a.negated(p),
        !(a is Concrete && b is Concrete) && a != Symbolic::<K>::Concrete(0) && !trivial(p, b)
            ==> a.over(p, b) == Symbolic::Binary(Box::new(a), BinaryOperator::Div, Box::new(b)),
        simple(p, a) && simple(p, b) ==> simple(p, a.over(p, b)),
{
    lemma_negated_form(a, p);
    if a != Symbolic::<K>::Concrete(0) || b == Symbolic::<K>::Concrete(0) {
        assert(occurrences(a.over(p, b)) =~= occurrences(a) + occurrences(b));
    }
    if a is Concrete && b is Concrete {
        let x = a->Concrete_0;
        let y = b->Concrete_0;
        let z = crate::field::field_inverse(p, y);
        assert(x == 0 ==> x * z == 0);
        crate::modular::lemma_small(p, 0);
        crate::modular::lemma_small(p, 1);
        if y == 1 {
            crate::field::lemma_inverse_unique(p, 1, 1);
            if 0 <= x < p {
                crate::modular::lemma_small(p, x);
            }
        }
    }
}

/// A symbol stays a symbol with its constraint unless that leaves one value, which is taken.
pub proof fn lemma_symbol_form<K>(k: K, r: Range)
    ensures
        r.min == r.max ==> Symbolic::of_symbol(k, r) == Symbolic::<K>::Concrete(r.min),
        r.min != r.max ==> Symbolic::of_symbol(k, r) == Symbolic::Symbol(k, r),
{
}

/// The symbols of an expression are those that occur, in their order.
pub proof fn lemma_symbols<K>(s: Symbolic<K>)
    ensures
        s.symbols() == occurrences(s).map_values(|e: (K, Range)| e.0),
    decreases s,
{
    match s {
        Symbolic::Concrete(_) => {
            assert(s.symbols() =~= occurrences(s).map_values(|e: (K, Range)| e.0));
        },
        Symbolic::Symbol(_, _) => {
            assert(s.symbols() =~= occurrences(s).map_values(|e: (K, Range)| e.0));
        },
        Symbolic::Binary(l, _, r) => {
            lemma_symbols(*l);
            lemma_symbols(*r);
            assert(s.symbols() =~= occurrences(s).map_values(|e: (K, Range)| e.0));
        },
        Symbolic::Negation(e) => {
            lemma_symbols(*e);
        },
    }
}

/// What occurs in two lists together occurs in one of them.
pub proof fn lemma_occurs_in_parts<K>(s: Seq<(K, Range)>, t: Seq<(K, Range)>, k: K, r: Range)
    ensures
        (s + t).contains((k, r)) <==> s.contains((k, r)) || t.contains((k, r)),
{
    if s.contains((k, r)) {
        let i = choose|i: int| 0 <= i < s.len() && s[i] == (k, r);
        assert((s + t)[i] == (k, r));
    }
    if t.contains((k, r)) {
        let i = choose|i: int| 0 <= i < t.len() && t[i] == (k, r);
        assert((s + t)[s.len() + i] == (k, r));
    }
    if (s + t).contains((k, r)) {
        let i = choose|i: int| 0 <= i < (s + t).len() && (s + t)[i] == (k, r);
        if i < s.len() {
            assert(s[i] == (k, r));
        } else {
            assert(t[i - s.len()] == (k, r));
        }
    }
}

/// An operation brings in no symbols.
pub proof fn lemma_operations_occur<K>(a: Symbolic<K>, b: Symbolic<K>, p: int, k: K, r: Range)
    requires
        2 < p,
        crate::modular::is_prime(p),
    ensures
        occurs(a.plus(p, b), k, r) <==> occurs(a, k, r) || occurs(b, k, r),
        occurs(a.negated(p), k, r) <==> occurs(a, k, r),
        occurs(a.times(p, b), k, r) ==> occurs(a, k, r) || occurs(b, k, r),
        occurs(a.over(p, b), k, r) ==> occurs(a, k, r) || occurs(b, k, r),
{
    lemma_plus_form(a, b, p);
    lemma_negated_form(a, p);
    lemma_times_form(a, b, p);
    lemma_over_form(a, b, p);
    lemma_occurs_in_parts(occurrences(a), occurrences(b), k, r);
    assert(occurrences(Symbolic::<K>::Concrete(0)) == Seq::<(K, Range)>::empty());
}

/// After an update of a symbol, every occurrence of it has the new range constraint, and there
/// is none if that leaves one value. All other symbols have the constraints that they had. The
/// result is simplified.
pub proof fn lemma_updated_form<K>(s: Symbolic<K>, p: int, k: K, r: Range, j: K, x: Range)
    requires
        2 < p,
        crate::modular::is_prime(p),
    ensures
        simple(p, s.updated(p, k, r)),
        occurs(s.updated(p, k, r), j, x) ==> (if j == k {
            x == r && r.min != r.max && mentioned(s, k)
        } else {
            occurs(s, j, x)
        }),
    decreases s,
{
    match s {
        Symbolic::Concrete(_) => {},
        Symbolic::Symbol(i, y) => {
            assert(occurrences(s)[0] == (i, y));
            assert(occurs(s, i, y));
        },
        Symbolic::Binary(a, op, b) => {
            let u = a.updated(p, k, r);
            let v = b.updated(p, k, r);
            lemma_updated_form(*a, p, k, r, j, x);
            lemma_updated_form(*b, p, k, r, j, x);
            lemma_plus_form(u, v, p);
            lemma_times_form(u, v, p);
            lemma_over_form(u, v, p);
            lemma_operations_occur(u, v, p, j, x);
            lemma_occurs_in_parts(occurrences(*a), occurrences(*b), j, x);
            if j == k {
                if mentioned(*a, k) {
                    let y = choose|y: Range| #[trigger] occurs(*a, k, y);
                    lemma_occurs_in_parts(occurrences(*a), occurrences(*b), k, y);
                    assert(occurs(s, k, y));
                }
                if mentioned(*b, k) {
                    let y = choose|y: Range| #[trigger] occurs(*b, k, y);
                    lemma_occurs_in_parts(occurrences(*a), occurrences(*b), k, y);
                    assert(occurs(s, k, y));
                }
            }
        },
        Symbolic::Negation(e) => {
            lemma_updated_form(*e, p, k, r, j, x);
            lemma_negated_form(e.updated(p, k, r), p);
            if j == k && mentioned(*e, k) {
                let y = choose|y: Range| #[trigger] occurs(*e, k, y);
                assert(occurs(s, k, y));
            }
        },
    }
}

/// A simplified expression stays as it is in an update of a symbol that it does not have.
pub proof fn lemma_updated_unmentioned<K>(s: Symbolic<K>, p: int, k: K, r: Range)
    requires
        simple(p, s),
        !mentioned(s, k),
    ensures
        s.updated(p, k, r) == s,
    decreases s,
{
    match s {
        Symbolic::Concrete(_) => {},
        Symbolic::Symbol(i, y) => {
            assert(occurrences(s)[0] == (i, y));
            assert(occurs(s, i, y));
        },
        Symbolic::Binary(a, _, b) => {
            if mentioned(*a, k) {
                let y = choose|y: Range| #[trigger] occurs(*a, k, y);
                lemma_occurs_in_parts(occurrences(*a), occurrences(*b), k, y);
                assert(occurs(s, k, y));
            }
            if mentioned(*b, k) {
                let y = choose|y: Range| #[trigger] occurs(*b, k, y);
                lemma_occurs_in_parts(occurrences(*a), occurrences(*b), k, y);
                assert(occurs(s, k, y));
            }
            lemma_updated_unmentioned(*a, p, k, r);
            lemma_updated_unmentioned(*b, p, k, r);
        },
        Symbolic::Negation(e) => {
            if mentioned(*e, k) {
                let y = choose|y: Range| #[trigger] occurs(*e, k, y);
                assert(occurs(s, k, y));
            }
            lemma_updated_unmentioned(*e, p, k, r);
        },
    }
}

/// There is no division in the expression.
pub open spec fn undivided<K>(s: Symbolic<K>) -> bool
    decreases s,
{
    match s {
        Symbolic::Concrete(_) => true,
        Symbolic::Symbol(_, _) => true,
        Symbolic::Binary(l, op, r) => op != BinaryOperator::Div && undivided(*l) && undivided(*r),
        Symbolic::Negation(e) => undivided(*e),
    }
}

/// An expression becomes a number when the last symbol gets a single value.
pub proof fn lemma_updated_number<K>(s: Symbolic<K>, p: int, k: K, r: Range)
    requires
        2 < p,
        undivided(s),
        r.min == r.max,
        forall|j: K, x: Range| #[trigger] occurs(s, j, x) ==> j == k,
    ensures
        s.updated(p, k, r) is Concrete,
    decreases s,
{
    match s {
        Symbolic::Concrete(_) => {},
        Symbolic::Symbol(i, y) => {
            assert(occurrences(s)[0] == (i, y));
            assert(occurs(s, i, y));
        },
        Symbolic::Binary(a, _, b) => {
            assert forall|j: K, x: Range| #[trigger] occurs(*a, j, x) implies j == k by {
                lemma_occurs_in_parts(occurrences(*a), occurrences(*b), j, x);
                assert(occurs(s, j, x));
            }
            assert forall|j: K, x: Range| #[trigger] occurs(*b, j, x) implies j == k by {
                lemma_occurs_in_parts(occurrences(*a), occurrences(*b), j, x);
                assert(occurs(s, j, x));
            }
            lemma_updated_number(*a, p, k, r);
            lemma_updated_number(*b, p, k, r);
        },
        Symbolic::Negation(e) => {
            assert forall|j: K, x: Range| #[trigger] occurs(*e, j, x) implies j == k by {
                assert(occurs(s, j, x));
            }
            lemma_updated_number(*e, p, k, r);
        },
    }
}

} // verus!
