//! Which effects solving finds.
use vstd::prelude::*;

use crate::effect::Consequence;
use crate::form::{lemma_operations_occur, occurs};
use crate::laws::{field_order, lemma_one_solution, lemma_terms, ranges_match, terms};
use crate::linear::lemma_listing_mapped;
use crate::precision::{
    lemma_multiple_narrow, lemma_multiple_width, lemma_negation_exact, lemma_range_within,
    lemma_sum_narrow,
};
use crate::quadratic::Quadratic;
use crate::range_constraint::{lemma_width, lemma_wrap, Range};
use crate::sorting::total;
use crate::solution::{
    affine_solution, optional, other_numbers, solution, sum_of_others, sum_with_constant,
    transferred, widest, Error, Solution,
};
use crate::symbolic_expression::{assigns, lemma_negated, lemma_over, lemma_value_bound, Symbolic};
use crate::variable::Variable;

verus! {

/// Where nothing was found there are no effects and the result is not complete. Where all is
/// said it is.
pub proof fn lemma_results<K>(effects: Seq<Consequence<K>>)
    ensures
        Solution::<K>::nothing().effects.len() == 0,
        !Solution::<K>::nothing().complete,
        Solution::all(effects).effects == effects,
        Solution::all(effects).complete,
{
}

/// An equation with quadratic terms is left alone. One without unknown variables is an error
/// if zero is not allowed by its constraint, and says nothing more otherwise. All others are
/// solved as affine equations.
pub proof fn lemma_solution_cases<V: Variable>(p: int, q: Quadratic<V::V>, ranges: Seq<Range>)
    requires
        q.wf(p),
    ensures
        q.quadratic.len() > 0 ==> (solution::<V>(p, q, ranges) matches Ok(s) && !s.complete
            && s.effects.len() == 0),
        q.quadratic.len() == 0 && terms::<V>(q).len() == 0 && q.constant.range(p).allows(0)
            ==> (solution::<V>(p, q, ranges) matches Ok(s) && s.complete && s.effects.len() == 0),
        q.quadratic.len() == 0 && terms::<V>(q).len() == 0 && !q.constant.range(p).allows(0)
            ==> solution::<V>(p, q, ranges) == Err::<Solution<V::V>, Error>(
            Error::ConstraintUnsatisfiable,
        ),
        q.quadratic.len() == 0 && terms::<V>(q).len() > 0 ==> solution::<V>(p, q, ranges)
            == affine_solution::<V>(p, q, ranges),
{
    lemma_terms::<V>(p, q);
    if terms::<V>(q).len() == 0 {
        assert(q.linear =~= Map::empty());
    } else {
        assert(q.linear.contains_key(terms::<V>(q)[0].0));
    }
}

/// An equation in one unknown variable is solved completely exactly if the coefficient or the
/// constant is known to be nonzero, and nothing is found otherwise. The solution is one
/// assignment to the variable, of an expression in the known symbols of the equation. If the
/// coefficient may be zero, the assertion that it is not comes before it.
pub proof fn lemma_one_unknown<V: Variable>(
    p: int,
    q: Quadratic<V::V>,
    ranges: Seq<Range>,
    k: V::V,
    env: spec_fn(V::V) -> int,
    j: V::V,
    x: Range,
)
    requires
        field_order(p),
        q.wf(p),
        q.quadratic.len() == 0,
        q.linear.dom() == set![k],
        assigns(p, env),
    ensures
        ({
            let c = q.linear[k];
            let a = q.constant;
            let zero = Symbolic::<V::V>::Concrete(0);
            &&& solution::<V>(p, q, ranges) is Ok
            &&& solution::<V>(p, q, ranges) matches Ok(s) ==> {
                &&& s.complete <==> !c.range(p).allows(0) || !a.range(p).allows(0)
                &&& !s.complete ==> s.effects.len() == 0
                &&& s.complete ==> {
                    &&& s.effects.len() == (if c.range(p).allows(0) {
                        2int
                    } else {
                        1
                    })
                    &&& c.range(p).allows(0) ==> s.effects[0] == Consequence::Assertion(
                        c,
                        zero,
                        false,
                    )
                    &&& s.effects.last() matches Consequence::Assignment(v, e) && v == k && {
                        &&& c.value(p, env) != 0 ==> (c.value(p, env) * e.value(p, env) + a.value(
                            p,
                            env,
                        )) % p == 0
                        &&& 0 <= e.value(p, env) < p
                        &&& e == a.over(p, c.negated(p))
                        &&& occurs(e, j, x) ==> occurs(c, j, x) || occurs(a, j, x)
                    }
                }
            }
        }),
{
    let t = terms::<V>(q);
    let c = q.linear[k];
    let a = q.constant;
    lemma_terms::<V>(p, q);
    assert(q.linear.dom().len() == 1) by {
        assert(set![k].len() == 1);
    }
    assert(q.linear.contains_key(t[0].0));
    assert(t[0].0 == k);
    assert(q.linear.contains_key(k));
    let e = a.over(p, c.negated(p));
    lemma_negated(c, p, env);
    lemma_over(a, c.negated(p), p, env);
    lemma_value_bound(a, p, env);
    lemma_value_bound(c, p, env);
    lemma_value_bound(e, p, env);
    if c.value(p, env) != 0 {
        lemma_one_solution(p, c.value(p, env), e.value(p, env), a.value(p, env));
    }
    lemma_operations_occur(a, c.negated(p), p, j, x);
    lemma_operations_occur(c, c, p, j, x);
}

/// The coefficient is the number one or minus one.
pub open spec fn unit<K>(p: int, c: Symbolic<K>) -> bool {
    c == Symbolic::<K>::Concrete(1) || c == Symbolic::<K>::Concrete(p - 1)
}

/// All coefficients are numbers, and one of them is one or minus one.
pub open spec fn transferable<K>(p: int, t: Seq<(K, Symbolic<K>)>) -> bool {
    &&& forall|i: int| 0 <= i < t.len() ==> (#[trigger] t[i]).1 is Concrete
    &&& exists|i: int| 0 <= i < t.len() && unit(p, (#[trigger] t[i]).1)
}

/// The term has the coefficient one or minus one. No such term has a variable with a wider
/// range, and none that follows has one with an equally wide range.
pub open spec fn least_constrained<K>(
    p: int,
    t: Seq<(K, Symbolic<K>)>,
    ranges: Seq<Range>,
    j: int,
) -> bool {
    &&& 0 <= j < t.len()
    &&& unit(p, t[j].1)
    &&& forall|i: int|
        0 <= i < t.len() && unit(p, (#[trigger] t[i]).1) ==> {
            &&& ranges[i].width(p) <= ranges[j].width(p)
            &&& i > j ==> ranges[i].width(p) < ranges[j].width(p)
        }
}

proof fn lemma_widest_exact<K>(p: int, t: Seq<(K, Symbolic<K>)>, ranges: Seq<Range>)
    ensures
        widest(p, t, ranges) is Some <==> exists|i: int|
            0 <= i < t.len() && unit(p, (#[trigger] t[i]).1),
        widest(p, t, ranges) matches Some(j) ==> least_constrained(p, t, ranges, j),
    decreases t.len(),
{
    if t.len() > 0 {
        let d = t.drop_last();
        let n = t.len() - 1;
        lemma_widest_exact(p, d, ranges);
        assert(t[n] == t.last());
        assert(unit(p, t[n].1) <==> t.last().1.is_one() || t.last().1.is_minus_one(p));
        assert forall|i: int| 0 <= i < d.len() implies #[trigger] d[i] == t[i] by {
        }
        if exists|i: int| 0 <= i < d.len() && unit(p, (#[trigger] d[i]).1) {
            let i = choose|i: int| 0 <= i < d.len() && unit(p, (#[trigger] d[i]).1);
            assert(unit(p, t[i].1));
        }
        if exists|i: int| 0 <= i < t.len() && unit(p, (#[trigger] t[i]).1) {
            let i = choose|i: int| 0 <= i < t.len() && unit(p, (#[trigger] t[i]).1);
            if i < n {
                assert(unit(p, d[i].1));
            }
        }
        if let Some(j) = widest(p, t, ranges) {
            assert forall|i: int| 0 <= i < t.len() && unit(p, (#[trigger] t[i]).1) implies ({
                &&& ranges[i].width(p) <= ranges[j].width(p)
                &&& i > j ==> ranges[i].width(p) < ranges[j].width(p)
            }) by {
                if i < n {
                    assert(unit(p, d[i].1));
                }
                if j == n && widest(p, d, ranges) is Some {
                    let b = widest(p, d, ranges).unwrap();
                    assert(least_constrained(p, d, ranges, b));
                }
            }
            if j < n {
                assert(d[j] == t[j]);
            }
        }
    }
}

/// The sum of constraints from first to last.
pub open spec fn sum_all(p: int, rs: Seq<Range>) -> Range
    decreases rs.len(),
{
    if rs.len() <= 1 {
        rs[0]
    } else {
        sum_all(p, rs.drop_last()).sum(p, rs.last())
    }
}

/// The constraints on all terms but one in their order, and that on the constant.
pub open spec fn summands<K>(
    p: int,
    t: Seq<(K, Symbolic<K>)>,
    ranges: Seq<Range>,
    j: int,
    constant: Symbolic<K>,
) -> Seq<Range> {
    Seq::new(
        t.len(),
        |i: int|
            {
                let n = if i < j {
                    i
                } else {
                    i + 1
                };
                if n < t.len() {
                    ranges[n].multiple(p, t[n].1->Concrete_0)
                } else {
                    constant.range(p)
                }
            },
    )
}

proof fn lemma_sum_others<K>(
    p: int,
    t: Seq<(K, Symbolic<K>)>,
    ranges: Seq<Range>,
    j: int,
    constant: Symbolic<K>,
    n: int,
)
    requires
        forall|i: int| 0 <= i < t.len() ==> (#[trigger] t[i]).1 is Concrete,
        0 <= j < t.len(),
        0 <= n <= t.len(),
    ensures
        ({
            let all = summands(p, t, ranges, j, constant);
            let m = if n <= j {
                n
            } else {
                n - 1
            };
            match sum_of_others(p, t.take(n), ranges, j) {
                None => m == 0,
                Some(r) => m > 0 && r == sum_all(p, all.take(m)),
            }
        }),
    decreases n,
{
    if n > 0 {
        let all = summands(p, t, ranges, j, constant);
        lemma_sum_others(p, t, ranges, j, constant, n - 1);
        assert(t.take(n).drop_last() =~= t.take(n - 1));
        assert(t.take(n).last() == t[n - 1]);
        let m = if n <= j {
            n
        } else {
            n - 1
        };
        if n - 1 != j {
            assert(all.take(m).drop_last() =~= all.take(m - 1));
            assert(all.take(m).last() == all[m - 1]);
            assert(all[m - 1] == ranges[n - 1].multiple(p, t[n - 1].1->Concrete_0));
            assert(t[n - 1].1 is Concrete);
        }
    }
}

/// A range constraint is transferred exactly if all coefficients are numbers and one of them is
/// one or minus one. It is for the least constrained variable among those, and it is the
/// constraint on the sum of all other terms, negated if the coefficient is one.
pub proof fn lemma_transfer_exact<K>(
    p: int,
    t: Seq<(K, Symbolic<K>)>,
    ranges: Seq<Range>,
    constant: Symbolic<K>,
)
    requires
        2 < p,
    ensures
        transferred(p, t, ranges, constant) is Some <==> transferable(p, t),
        transferred(p, t, ranges, constant) matches Some(c) ==> (c matches
            Consequence::RangeConstraint(k, r) && exists|j: int|
            #![trigger t[j]]
            {
                &&& least_constrained(p, t, ranges, j)
                &&& t[j].0 == k
                &&& r == (if t[j].1 == Symbolic::<K>::Concrete(1) {
                    sum_all(p, summands(p, t, ranges, j, constant)).negation(p)
                } else {
                    sum_all(p, summands(p, t, ranges, j, constant))
                })
            }),
{
    lemma_widest_exact(p, t, ranges);
    if let Some(j) = widest(p, t, ranges) {
        assert(least_constrained(p, t, ranges, j));
        assert(unit(p, t[j].1));
        if other_numbers(t, j) {
            assert forall|i: int| 0 <= i < t.len() implies (#[trigger] t[i]).1 is Concrete by {
                if i != j {
                    assert(t[i].1.number() is Some);
                }
            }
            let all = summands(p, t, ranges, j, constant);
            let n = t.len() as int;
            lemma_sum_others(p, t, ranges, j, constant, n);
            assert(t.take(n) =~= t);
            assert(all.last() == constant.range(p));
            assert(all.drop_last() =~= all.take(n - 1));
            assert(sum_with_constant(p, t, ranges, j, constant) == sum_all(p, all));
            assert(t[j].1.is_one() <==> t[j].1 == Symbolic::<K>::Concrete(1));
        } else {
            let i = choose|i: int|
                0 <= i < t.len() && i != j && (#[trigger] t[i]).1.number() is None;
            assert(!(t[i].1 is Concrete));
        }
    }
}

/// The distance of an element from zero.
pub open spec fn absolute(p: int, n: int) -> int {
    if n < p - n {
        n
    } else {
        p - n
    }
}

/// The widths of the ranges of all variables but one, each less `minus`, multiplied by the
/// distances of the coefficients from zero and added up.
pub open spec fn weighted<K>(
    p: int,
    t: Seq<(K, Symbolic<K>)>,
    ranges: Seq<Range>,
    j: int,
    minus: int,
) -> int
    decreases t.len(),
{
    if t.len() == 0 {
        0
    } else {
        let n = t.len() - 1;
        weighted(p, t.drop_last(), ranges, j, minus) + (if n == j {
            0
        } else {
            (ranges[n].width(p) - minus) * absolute(p, t.last().1->Concrete_0)
        })
    }
}

proof fn lemma_sum_all_width(p: int, rs: Seq<Range>)
    requires
        2 < p,
        rs.len() > 0,
        forall|i: int| 0 <= i < rs.len() ==> (#[trigger] rs[i]).within(p),
        total(rs, |r: Range| r.width(p)) <= p,
    ensures
        sum_all(p, rs).within(p),
        sum_all(p, rs).width(p) == 1 + total(rs, |r: Range| r.width(p) - 1),
        total(rs, |r: Range| r.width(p)) == total(rs, |r: Range| r.width(p) - 1) + rs.len(),
    decreases rs.len(),
{
    let d = rs.drop_last();
    let last = rs.last();
    assert(rs[rs.len() - 1] == last);
    lemma_width(p, last.min, last.max);
    if rs.len() == 1 {
        assert(d =~= Seq::empty());
        assert(total(d, |r: Range| r.width(p)) == 0);
        assert(total(d, |r: Range| r.width(p) - 1) == 0);
    } else {
        assert forall|i: int| 0 <= i < d.len() implies (#[trigger] d[i]).within(p) by {
            assert(d[i] == rs[i]);
        }
        lemma_sum_all_width(p, d);
        lemma_sum_narrow(p, sum_all(p, d), last);
    }
}

/// The width of the multiple of a range.
proof fn lemma_term_width(p: int, r: Range, f: int)
    requires
        2 < p <= u64::MAX,
        0 < f < p,
        r.within(p),
        r.width(p) * absolute(p, f) <= p,
    ensures
        r.multiple(p, f).within(p),
        r.multiple(p, f).width(p) - 1 == (r.width(p) - 1) * absolute(p, f),
        r.multiple(p, f).width(p) <= r.width(p) * absolute(p, f),
{
    let w = r.width(p);
    let c = absolute(p, f);
    lemma_width(p, r.min, r.max);
    lemma_multiple_narrow(p, r, f);
    lemma_multiple_width(p, r, f);
    if c != f && w * f <= p {
        if w >= 2 {
            assert(w * f >= 2 * f) by (nonlinear_arith)
                requires
                    w >= 2,
                    f > 0,
            ;
        }
        assert((w - 1) * f == 0 && (w - 1) * c == 0) by (nonlinear_arith)
            requires
                w == 1,
        ;
    }
    assert((w - 1) * c + 1 <= w * c) by (nonlinear_arith)
        requires
            c >= 1,
    ;
}

proof fn lemma_summands_width<K>(
    p: int,
    t: Seq<(K, Symbolic<K>)>,
    ranges: Seq<Range>,
    j: int,
    constant: Symbolic<K>,
    n: int,
)
    requires
        2 < p <= u64::MAX,
        forall|i: int|
            0 <= i < t.len() ==> {
                &&& (#[trigger] t[i]).1 is Concrete
                &&& 0 < t[i].1->Concrete_0 < p
                &&& ranges[i].within(p)
            },
        0 <= j < t.len(),
        0 <= n <= t.len(),
        weighted(p, t.take(n), ranges, j, 0) <= p,
    ensures
        ({
            let m = if n <= j {
                n
            } else {
                n - 1
            };
            let some = summands(p, t, ranges, j, constant).take(m);
            &&& forall|i: int| 0 <= i < m ==> (#[trigger] some[i]).within(p)
            &&& total(some, |r: Range| r.width(p) - 1) == weighted(p, t.take(n), ranges, j, 1)
            &&& total(some, |r: Range| r.width(p)) <= weighted(p, t.take(n), ranges, j, 0)
        }),
    decreases n,
{
    let all = summands(p, t, ranges, j, constant);
    let m = if n <= j {
        n
    } else {
        n - 1
    };
    if n > 0 {
        let front = t.take(n - 1);
        assert(t.take(n).drop_last() =~= front);
        assert(t.take(n).last() == t[n - 1]);
        assert forall|i: int| 0 <= i < front.len() implies ({
            &&& (#[trigger] front[i]).1 is Concrete
            &&& 0 < front[i].1->Concrete_0 < p
            &&& ranges[i].within(p)
        }) by {
            assert(front[i] == t[i]);
        }
        lemma_weighted_bound(p, front, ranges, j);
        let f = t[n - 1].1->Concrete_0;
        let c = absolute(p, f);
        let w = ranges[n - 1].width(p);
        assert(t[n - 1].1 is Concrete);
        lemma_width(p, ranges[n - 1].min, ranges[n - 1].max);
        assert((w - 0) * c == w * c && w * c >= 0) by (nonlinear_arith)
            requires
                w >= 1,
                c >= 1,
        ;
        lemma_summands_width(p, t, ranges, j, constant, n - 1);
        if n - 1 != j {
            let some = all.take(m);
            let r = all[m - 1];
            assert(some.drop_last() =~= all.take(m - 1));
            assert(some.last() == r);
            assert(r == ranges[n - 1].multiple(p, f));
            lemma_term_width(p, ranges[n - 1], f);
            assert forall|i: int| 0 <= i < m implies (#[trigger] some[i]).within(p) by {
                if i < m - 1 {
                    assert(some[i] == all.take(m - 1)[i]);
                }
            }
        }
    } else {
        assert(all.take(0) =~= Seq::empty());
        assert(t.take(0) =~= Seq::empty());
    }
}

proof fn lemma_weighted_bound<K>(p: int, t: Seq<(K, Symbolic<K>)>, ranges: Seq<Range>, j: int)
    requires
        2 < p,
        forall|i: int|
            0 <= i < t.len() ==> {
                &&& (#[trigger] t[i]).1 is Concrete
                &&& 0 < t[i].1->Concrete_0 < p
                &&& ranges[i].within(p)
            },
    ensures
        weighted(p, t, ranges, j, 0) >= 0,
    decreases t.len(),
{
    if t.len() > 0 {
        let d = t.drop_last();
        let n = t.len() - 1;
        assert forall|i: int| 0 <= i < d.len() implies ({
            &&& (#[trigger] d[i]).1 is Concrete
            &&& 0 < d[i].1->Concrete_0 < p
            &&& ranges[i].within(p)
        }) by {
            assert(d[i] == t[i]);
        }
        lemma_weighted_bound(p, d, ranges, j);
        assert(t[n] == t.last());
        lemma_width(p, ranges[n].min, ranges[n].max);
        let w = ranges[n].width(p);
        let c = absolute(p, t.last().1->Concrete_0);
        assert(0 < t[n].1->Concrete_0 < p);
        assert((w - 0) * c >= 0) by (nonlinear_arith)
            requires
                w >= 1,
                c >= 1,
        ;
    }
}

/// There is one least constrained variable.
proof fn lemma_least_unique<K>(
    p: int,
    t: Seq<(K, Symbolic<K>)>,
    ranges: Seq<Range>,
    i: int,
    j: int,
)
    requires
        least_constrained(p, t, ranges, i),
        least_constrained(p, t, ranges, j),
    ensures
        i == j,
{
    assert(unit(p, t[i].1) && unit(p, t[j].1));
}

/// The constraint for the least constrained variable.
proof fn lemma_transfer_at<K>(
    p: int,
    t: Seq<(K, Symbolic<K>)>,
    ranges: Seq<Range>,
    constant: Symbolic<K>,
    j: int,
    k: K,
    r: Range,
)
    requires
        2 < p,
        least_constrained(p, t, ranges, j),
        transferred(p, t, ranges, constant) == Some(Consequence::RangeConstraint(k, r)),
    ensures
        t[j].0 == k,
        r == sum_all(p, summands(p, t, ranges, j, constant)).negation(p) || r == sum_all(
            p,
            summands(p, t, ranges, j, constant),
        ),
        forall|i: int| 0 <= i < t.len() ==> (#[trigger] t[i]).1 is Concrete,
{
    lemma_transfer_exact(p, t, ranges, constant);
    let i = choose|i: int|
        #![trigger t[i]]
        {
            &&& least_constrained(p, t, ranges, i)
            &&& t[i].0 == k
            &&& r == (if t[i].1 == Symbolic::<K>::Concrete(1) {
                sum_all(p, summands(p, t, ranges, i, constant)).negation(p)
            } else {
                sum_all(p, summands(p, t, ranges, i, constant))
            })
        };
    lemma_least_unique(p, t, ranges, i, j);
}

proof fn lemma_all_width<K>(
    p: int,
    t: Seq<(K, Symbolic<K>)>,
    ranges: Seq<Range>,
    j: int,
    constant: Symbolic<K>,
)
    requires
        2 < p <= u64::MAX,
        forall|i: int|
            0 <= i < t.len() ==> {
                &&& (#[trigger] t[i]).1 is Concrete
                &&& 0 < t[i].1->Concrete_0 < p
                &&& ranges[i].within(p)
            },
        0 <= j < t.len(),
        constant.range(p).within(p),
        weighted(p, t, ranges, j, 0) + constant.range(p).width(p) <= p,
    ensures
        sum_all(p, summands(p, t, ranges, j, constant)).within(p),
        sum_all(p, summands(p, t, ranges, j, constant)).width(p) == weighted(p, t, ranges, j, 1)
            + constant.range(p).width(p),
{
    let n = t.len() as int;
    let a = constant.range(p);
    let all = summands(p, t, ranges, j, constant);
    let some = all.take(n - 1);
    lemma_width(p, a.min, a.max);
    assert(t.take(n) =~= t);
    lemma_summands_width(p, t, ranges, j, constant, n);
    assert(all.drop_last() =~= some);
    assert(all.last() == a);
    assert forall|i: int| 0 <= i < all.len() implies (#[trigger] all[i]).within(p) by {
        if i < n - 1 {
            assert(some[i] == all[i]);
        }
    }
    lemma_sum_all_width(p, all);
}

/// A transferred constraint is as narrow as the other terms permit: its interval has as many
/// values as they can add up to, unless that could be all.
pub proof fn lemma_transfer_narrow<V: Variable>(
    p: int,
    q: Quadratic<V::V>,
    ranges: Seq<Range>,
    j: int,
    k: V::V,
    r: Range,
)
    requires
        field_order(p),
        q.wf(p),
        ranges_match::<V>(p, q, ranges),
        least_constrained(p, terms::<V>(q), ranges, j),
        transferred(p, terms::<V>(q), ranges, q.constant) == Some(
            Consequence::RangeConstraint(k, r),
        ),
        weighted(p, terms::<V>(q), ranges, j, 0) + q.constant.range(p).width(p) <= p,
    ensures
        k == terms::<V>(q)[j].0,
        r.width(p) == weighted(p, terms::<V>(q), ranges, j, 1) + q.constant.range(p).width(p),
{
    let t = terms::<V>(q);
    lemma_terms::<V>(p, q);
    lemma_transfer_at(p, t, ranges, q.constant, j, k, r);
    assert forall|i: int| 0 <= i < t.len() implies ({
        &&& (#[trigger] t[i]).1 is Concrete
        &&& 0 < t[i].1->Concrete_0 < p
        &&& ranges[i].within(p)
    }) by {
        assert(t[i].1.wf(p) && !t[i].1.is_zero());
        assert(ranges[i].within(p));
    }
    lemma_range_within(q.constant, p);
    lemma_all_width(p, t, ranges, j, q.constant);
    lemma_negation_exact(p, sum_all(p, summands(p, t, ranges, j, q.constant)), 0);
}

/// An affine equation that is not solved completely has two range constraints as effects if
/// one can be transferred, and none otherwise. They come from the equation and from its
/// negation, in this order, and are both for the least constrained variable.
pub proof fn lemma_incomplete_effects<V: Variable>(
    p: int,
    q: Quadratic<V::V>,
    ranges: Seq<Range>,
)
    requires
        field_order(p),
        q.wf(p),
        q.quadratic.len() == 0,
        terms::<V>(q).len() > 1,
        solution::<V>(p, q, ranges) matches Ok(s) && !s.complete,
    ensures
        ({
            let t = terms::<V>(q);
            let u = terms::<V>(q.negated(p));
            let effects = solution::<V>(p, q, ranges)->Ok_0.effects;
            &&& effects.len() == (if transferable(p, t) {
                2int
            } else {
                0
            })
            &&& transferable(p, t) ==> {
                &&& transferred(p, t, ranges, q.constant) == Some(effects[0])
                &&& transferred(p, u, ranges, q.negated(p).constant) == Some(effects[1])
                &&& exists|j: int|
                    #![trigger t[j]]
                    {
                        &&& least_constrained(p, t, ranges, j)
                        &&& effects[0] is RangeConstraint
                        &&& effects[0]->RangeConstraint_0 == t[j].0
                        &&& effects[1] is RangeConstraint
                        &&& effects[1]->RangeConstraint_0 == t[j].0
                    }
            }
        }),
{
    let t = terms::<V>(q);
    let n = q.negated(p);
    let u = terms::<V>(n);
    lemma_terms::<V>(p, q);
    assert(q.linear.contains_key(t[0].0));
    lemma_listing_mapped::<V>(q.linear, |c: Symbolic<V::V>| c.negated(p));
    assert forall|i: int| 0 <= i < t.len() implies ({
        &&& (#[trigger] u[i]).0 == t[i].0
        &&& u[i].1 is Concrete <==> t[i].1 is Concrete
        &&& unit(p, u[i].1) <==> unit(p, t[i].1)
    }) by {
        assert(u[i] == (t[i].0, t[i].1.negated(p)));
        assert(t[i].1.wf(p));
        lemma_negated(t[i].1, p, |k: V::V| 0int);
        if let Symbolic::Concrete(x) = t[i].1 {
            lemma_wrap(p, -x);
        }
    }
    assert(transferable(p, u) <==> transferable(p, t)) by {
        if transferable(p, t) {
            let i = choose|i: int| 0 <= i < t.len() && unit(p, (#[trigger] t[i]).1);
            assert(unit(p, u[i].1));
        }
        if transferable(p, u) {
            let i = choose|i: int| 0 <= i < u.len() && unit(p, (#[trigger] u[i]).1);
            assert(unit(p, t[i].1));
            assert forall|i: int| 0 <= i < t.len() implies (#[trigger] t[i]).1 is Concrete by {
                assert(u[i].1 is Concrete);
            }
        }
    }
    lemma_transfer_exact(p, t, ranges, q.constant);
    lemma_transfer_exact(p, u, ranges, n.constant);
    let first = transferred(p, t, ranges, q.constant);
    let second = transferred(p, u, ranges, n.constant);
    let effects = solution::<V>(p, q, ranges)->Ok_0.effects;
    assert(effects == optional(first) + optional(second));
    if transferable(p, t) {
        let c = first.unwrap();
        let d = second.unwrap();
        assert(effects[0] == c && effects[1] == d);
        lemma_widest_exact(p, t, ranges);
        lemma_widest_exact(p, u, ranges);
        let i = widest(p, t, ranges).unwrap();
        let j = widest(p, u, ranges).unwrap();
        assert(least_constrained(p, t, ranges, i));
        assert(least_constrained(p, u, ranges, j));
        assert(unit(p, u[i].1) && unit(p, t[j].1));
        assert(i == j);
        assert(c->RangeConstraint_0 == t[i].0);
        assert(d->RangeConstraint_0 == u[j].0);
    }
}

} // verus!
