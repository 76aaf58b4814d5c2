//! Sums of quadratic, linear and constant terms, and what they evaluate to.
use vstd::prelude::*;

use crate::field::{field_add, field_mul, field_neg, field_sub, lemma_field_congruent};
use crate::linear::{
    combined, lemma_sum_add, lemma_sum_congruent, lemma_sum_insert, lemma_sum_remove,
    lemma_sum_scale, lemma_sum_subset, nonzero, sum_over,
};
use crate::modular::{
    congruent, is_prime, lemma_congruent_add, lemma_congruent_close, lemma_congruent_mod,
    lemma_congruent_mul, lemma_small,
};
use crate::range_constraint::Range;
use crate::symbolic_expression::{
    assigns, lemma_negated, lemma_of_symbol, lemma_plus, lemma_times, lemma_updated,
    lemma_value_bound, Symbolic,
};

verus! {

/// What a quadratic expression is: products of two expressions, terms of the form
/// `coefficient * variable` for unknown variables, and a known constant.
#[verifier::reject_recursive_types(K)]
#[verifier::ext_equal]
pub struct Quadratic<K> {
    pub quadratic: Seq<(Quadratic<K>, Quadratic<K>)>,
    pub linear: Map<K, Symbolic<K>>,
    pub constant: Symbolic<K>,
}

/// Well-formed coefficients, none of which is known to be zero.
pub open spec fn coefficients_wf<K>(p: int, linear: Map<K, Symbolic<K>>) -> bool {
    &&& linear.dom().finite()
    &&& forall|k: K| #[trigger]
        linear.contains_key(k) ==> linear[k].wf(p) && !linear[k].is_zero()
}

/// The range constraints in the coefficients hold.
pub open spec fn coefficients_consistent<K>(
    linear: Map<K, Symbolic<K>>,
    env: spec_fn(K) -> int,
) -> bool {
    forall|k: K| #[trigger] linear.contains_key(k) ==> linear[k].consistent(env)
}

/// The value of one linear term.
pub open spec fn term_value<K>(
    p: int,
    linear: Map<K, Symbolic<K>>,
    env: spec_fn(K) -> int,
    k: K,
) -> int {
    linear[k].value(p, env) * env(k)
}

/// The value of a linear combination, not reduced.
pub open spec fn linear_value<K>(
    p: int,
    linear: Map<K, Symbolic<K>>,
    env: spec_fn(K) -> int,
) -> int {
    sum_over(linear.dom(), |k: K| term_value(p, linear, env, k))
}

/// The value of a sum of products, not reduced.
pub open spec fn pairs_value<K>(
    p: int,
    pairs: Seq<(Quadratic<K>, Quadratic<K>)>,
    env: spec_fn(K) -> int,
) -> int
    decreases pairs,
{
    if pairs.len() == 0 {
        0
    } else {
        pairs_value(p, pairs.drop_last(), env) + pairs.last().0.value(p, env)
            * pairs.last().1.value(p, env)
    }
}

/// The products both of whose factors have unknown variables.
pub open spec fn open_pairs<K>(pairs: Seq<(Quadratic<K>, Quadratic<K>)>) -> Seq<
    (Quadratic<K>, Quadratic<K>),
>
    decreases pairs.len(),
{
    if pairs.len() == 0 {
        Seq::empty()
    } else {
        let rest = open_pairs(pairs.drop_last());
        if pairs.last().0.is_known() || pairs.last().1.is_known() {
            rest
        } else {
            rest.push(pairs.last())
        }
    }
}

/// The product of two expressions one of which is known.
pub open spec fn collapsed<K>(p: int, l: Quadratic<K>, r: Quadratic<K>) -> Quadratic<K> {
    if l.is_known() && r.is_known() {
        Quadratic::of_known(l.constant.times(p, r.constant))
    } else if l.is_known() {
        r.scaled(p, l.constant)
    } else {
        l.scaled(p, r.constant)
    }
}

/// The sum of the products that have a known factor.
pub open spec fn collapsed_sum<K>(
    p: int,
    pairs: Seq<(Quadratic<K>, Quadratic<K>)>,
) -> Quadratic<K>
    decreases pairs.len(),
{
    if pairs.len() == 0 {
        Quadratic::of_known(Symbolic::Concrete(0))
    } else {
        let rest = collapsed_sum(p, pairs.drop_last());
        let (l, r) = pairs.last();
        if l.is_known() || r.is_known() {
            rest.plus(p, collapsed(p, l, r))
        } else {
            rest
        }
    }
}

impl<K> Quadratic<K> {
    /// There are no unknown variables.
    pub open spec fn is_known(self) -> bool {
        self.quadratic.len() == 0 && self.linear == Map::<K, Symbolic<K>>::empty()
    }

    /// The known expression, if there are no unknown variables.
    pub open spec fn known(self) -> Option<Symbolic<K>> {
        if self.is_known() {
            Some(self.constant)
        } else {
            None
        }
    }

    /// No coefficient is known to be zero, and all factors have unknown variables.
    pub open spec fn wf(self, p: int) -> bool
        decreases self,
    {
        &&& coefficients_wf(p, self.linear)
        &&& self.constant.wf(p)
        &&& forall|i: int|
            #![trigger self.quadratic[i]]
            0 <= i < self.quadratic.len() ==> {
                &&& self.quadratic[i].0.wf(p)
                &&& self.quadratic[i].1.wf(p)
                &&& !self.quadratic[i].0.is_known()
                &&& !self.quadratic[i].1.is_known()
            }
    }

    /// The value under values for all variables, known and unknown.
    pub open spec fn value(self, p: int, env: spec_fn(K) -> int) -> int
        decreases self,
    {
        (pairs_value(p, self.quadratic, env) + linear_value(p, self.linear, env)
            + self.constant.value(p, env)) % p
    }

    /// The values satisfy the range constraints of the known symbols.
    pub open spec fn consistent(self, env: spec_fn(K) -> int) -> bool
        decreases self,
    {
        &&& coefficients_consistent(self.linear, env)
        &&& self.constant.consistent(env)
        &&& forall|i: int|
            #![trigger self.quadratic[i]]
            0 <= i < self.quadratic.len() ==> self.quadratic[i].0.consistent(env)
                && self.quadratic[i].1.consistent(env)
    }

    /// The variable is one of the unknown variables.
    pub open spec fn has_unknown(self, k: K) -> bool
        decreases self,
    {
        ||| self.linear.contains_key(k)
        ||| exists|i: int|
            #![trigger self.quadratic[i]]
            0 <= i < self.quadratic.len() && (self.quadratic[i].0.has_unknown(k)
                || self.quadratic[i].1.has_unknown(k))
    }

    pub open spec fn of_known(s: Symbolic<K>) -> Quadratic<K> {
        Quadratic { quadratic: Seq::empty(), linear: Map::empty(), constant: s }
    }

    pub open spec fn of_unknown(k: K) -> Quadratic<K> {
        Quadratic {
            quadratic: Seq::empty(),
            linear: Map::<K, Symbolic<K>>::empty().insert(k, Symbolic::Concrete(1)),
            constant: Symbolic::Concrete(0),
        }
    }

    pub open spec fn plus(self, p: int, other: Quadratic<K>) -> Quadratic<K> {
        Quadratic {
            quadratic: self.quadratic + other.quadratic,
            linear: nonzero(combined(p, self.linear, other.linear)),
            constant: self.constant.plus(p, other.constant),
        }
    }

    pub open spec fn negated(self, p: int) -> Quadratic<K>
        decreases self,
    {
        Quadratic {
            quadratic: Seq::new(
                self.quadratic.len(),
                |i: int|
                    if 0 <= i < self.quadratic.len() {
                        (self.quadratic[i].0.negated(p), self.quadratic[i].1)
                    } else {
                        arbitrary()
                    },
            ),
            linear: self.linear.map_values(|c: Symbolic<K>| c.negated(p)),
            constant: self.constant.negated(p),
        }
    }

    pub open spec fn minus(self, p: int, other: Quadratic<K>) -> Quadratic<K> {
        self.plus(p, other.negated(p))
    }

    /// The product with a known expression.
    pub open spec fn scaled(self, p: int, s: Symbolic<K>) -> Quadratic<K>
        decreases self,
    {
        if s.is_zero() {
            Quadratic::of_known(Symbolic::Concrete(0))
        } else {
            Quadratic {
                quadratic: Seq::new(
                    self.quadratic.len(),
                    |i: int|
                        if 0 <= i < self.quadratic.len() {
                            (self.quadratic[i].0.scaled(p, s), self.quadratic[i].1)
                        } else {
                            arbitrary()
                        },
                ),
                linear: self.linear.map_values(|c: Symbolic<K>| c.times(p, s)),
                constant: self.constant.times(p, s),
            }
        }
    }

    pub open spec fn times(self, p: int, other: Quadratic<K>) -> Quadratic<K> {
        if other.is_known() {
            self.scaled(p, other.constant)
        } else if self.is_known() {
            other.scaled(p, self.constant)
        } else {
            Quadratic {
                quadratic: seq![(self, other)],
                linear: Map::empty(),
                constant: Symbolic::Concrete(0),
            }
        }
    }

    /// The linear terms and the constant with a new range constraint for one variable,
    /// which becomes a known symbol if `known` holds.
    pub open spec fn affine_updated(
        self,
        p: int,
        k: K,
        known: bool,
        r: Range,
    ) -> Quadratic<K> {
        let constant = self.constant.updated(p, k, r);
        if self.linear.contains_key(k) {
            if known {
                Quadratic {
                    quadratic: Seq::empty(),
                    linear: self.linear.remove(k),
                    constant: constant.plus(p, Symbolic::of_symbol(k, r).times(p, self.linear[k])),
                }
            } else {
                Quadratic { quadratic: Seq::empty(), linear: self.linear, constant }
            }
        } else {
            Quadratic {
                quadratic: Seq::empty(),
                linear: nonzero(self.linear.map_values(|c: Symbolic<K>| c.updated(p, k, r))),
                constant,
            }
        }
    }

    /// The products with both factors updated.
    pub open spec fn updated_pairs(self, p: int, k: K, known: bool, r: Range) -> Seq<
        (Quadratic<K>, Quadratic<K>),
    >
        decreases self, 0int,
    {
        Seq::new(
            self.quadratic.len(),
            |i: int|
                if 0 <= i < self.quadratic.len() {
                    (
                        self.quadratic[i].0.updated(p, k, known, r),
                        self.quadratic[i].1.updated(p, k, known, r),
                    )
                } else {
                    arbitrary()
                },
        )
    }

    /// The updated expression without the products that have a known factor now.
    pub open spec fn updated_base(self, p: int, k: K, known: bool, r: Range) -> Quadratic<K>
        decreases self, 1int,
    {
        let affine = self.affine_updated(p, k, known, r);
        Quadratic {
            quadratic: open_pairs(self.updated_pairs(p, k, known, r)),
            linear: affine.linear,
            constant: affine.constant,
        }
    }

    /// The expression with a new range constraint for one variable, which becomes a known
    /// symbol if `known` holds, simplified again.
    pub open spec fn updated(self, p: int, k: K, known: bool, r: Range) -> Quadratic<K>
        decreases self, 2int,
    {
        let base = self.updated_base(p, k, known, r);
        let extra = collapsed_sum(p, self.updated_pairs(p, k, known, r));
        if extra.is_known() && extra.constant.is_zero() {
            base
        } else {
            base.plus(p, extra)
        }
    }
}

/// The value is an element of the field, and the sum of the parts up to multiples of `p`.
pub proof fn lemma_quadratic_value<K>(q: Quadratic<K>, p: int, env: spec_fn(K) -> int)
    requires
        p > 0,
    ensures
        0 <= q.value(p, env) < p,
        congruent(
            p,
            q.value(p, env),
            pairs_value(p, q.quadratic, env) + linear_value(p, q.linear, env) + q.constant.value(
                p,
                env,
            ),
        ),
{
    lemma_congruent_mod(
        p,
        pairs_value(p, q.quadratic, env) + linear_value(p, q.linear, env) + q.constant.value(
            p,
            env,
        ),
    );
}

proof fn lemma_pairs_concat<K>(
    p: int,
    s: Seq<(Quadratic<K>, Quadratic<K>)>,
    t: Seq<(Quadratic<K>, Quadratic<K>)>,
    env: spec_fn(K) -> int,
)
    ensures
        pairs_value(p, s + t, env) == pairs_value(p, s, env) + pairs_value(p, t, env),
    decreases t.len(),
{
    if t.len() == 0 {
        assert(s + t =~= s);
    } else {
        lemma_pairs_concat(p, s, t.drop_last(), env);
        assert((s + t).drop_last() =~= s + t.drop_last());
        assert((s + t).last() == t.last());
    }
}

proof fn lemma_pairs_scaled<K>(
    p: int,
    s: Seq<(Quadratic<K>, Quadratic<K>)>,
    t: Seq<(Quadratic<K>, Quadratic<K>)>,
    c: int,
    env: spec_fn(K) -> int,
)
    requires
        p > 0,
        s.len() == t.len(),
        forall|i: int|
            #![trigger t[i]]
            0 <= i < s.len() ==> t[i].1 == s[i].1 && congruent(
                p,
                t[i].0.value(p, env),
                c * s[i].0.value(p, env),
            ),
    ensures
        congruent(p, pairs_value(p, t, env), c * pairs_value(p, s, env)),
    decreases s.len(),
{
    if s.len() > 0 {
        lemma_pairs_scaled(p, s.drop_last(), t.drop_last(), c, env);
        let n = s.len() - 1;
        assert(t[n] == t.last());
        let x = s[n].0.value(p, env);
        let y = s[n].1.value(p, env);
        let z = t[n].0.value(p, env);
        lemma_congruent_mul(p, z, c * x, y, y);
        let rest = pairs_value(p, s.drop_last(), env);
        lemma_congruent_add(p, pairs_value(p, t.drop_last(), env), c * rest, z * y, c * x * y);
        assert(c * rest + c * x * y == c * (rest + x * y)) by (nonlinear_arith);
    }
}

proof fn lemma_linear_scaled<K>(
    p: int,
    a: Map<K, Symbolic<K>>,
    b: Map<K, Symbolic<K>>,
    c: int,
    env: spec_fn(K) -> int,
)
    requires
        p > 0,
        a.dom().finite(),
        b.dom() == a.dom(),
        forall|k: K| #[trigger]
            a.contains_key(k) ==> congruent(p, b[k].value(p, env), c * a[k].value(p, env)),
    ensures
        congruent(p, linear_value(p, b, env), c * linear_value(p, a, env)),
{
    let f = |k: K| term_value(p, a, env, k);
    let g = |k: K| term_value(p, b, env, k);
    let h = |k: K| c * f(k);
    lemma_sum_scale(a.dom(), f, c, h);
    assert forall|k: K| a.dom().contains(k) implies congruent(p, #[trigger] g(k), h(k)) by {
        assert(a.contains_key(k));
        let x = a[k].value(p, env);
        lemma_congruent_mul(p, b[k].value(p, env), c * x, env(k), env(k));
        assert(c * x * env(k) == c * (x * env(k))) by (nonlinear_arith);
    }
    lemma_sum_congruent(p, a.dom(), g, h);
}

/// Dropping the terms with a coefficient zero does not change the value.
proof fn lemma_linear_nonzero<K>(p: int, m: Map<K, Symbolic<K>>, env: spec_fn(K) -> int)
    requires
        p > 0,
        m.dom().finite(),
    ensures
        nonzero(m).dom().finite(),
        congruent(p, linear_value(p, nonzero(m), env), linear_value(p, m, env)),
{
    let f = |k: K| term_value(p, m, env, k);
    let g = |k: K| term_value(p, nonzero(m), env, k);
    assert forall|k: K|
        m.dom().contains(k) && !nonzero(m).dom().contains(k) implies congruent(
        p,
        #[trigger] f(k),
        0,
    ) by {
        assert(m[k].is_zero());
    }
    lemma_sum_subset(p, m.dom(), nonzero(m).dom(), f);
    assert forall|k: K| nonzero(m).dom().contains(k) implies congruent(
        p,
        #[trigger] g(k),
        f(k),
    ) by {
    }
    lemma_sum_congruent(p, nonzero(m).dom(), g, f);
}

proof fn lemma_linear_plus<K>(
    p: int,
    a: Map<K, Symbolic<K>>,
    b: Map<K, Symbolic<K>>,
    env: spec_fn(K) -> int,
)
    requires
        2 < p,
        assigns(p, env),
        coefficients_wf(p, a),
        coefficients_wf(p, b),
    ensures
        coefficients_wf(p, nonzero(combined(p, a, b))),
        congruent(
            p,
            linear_value(p, nonzero(combined(p, a, b)), env),
            linear_value(p, a, env) + linear_value(p, b, env),
        ),
        coefficients_consistent(a, env) && coefficients_consistent(b, env)
            ==> coefficients_consistent(nonzero(combined(p, a, b)), env),
{
    let m = combined(p, a, b);
    let d = m.dom();
    assert(d =~= a.dom().union(b.dom()));
    let f = |k: K|
        if a.contains_key(k) {
            term_value(p, a, env, k)
        } else {
            0
        };
    let g = |k: K|
        if b.contains_key(k) {
            term_value(p, b, env, k)
        } else {
            0
        };
    let h = |k: K| f(k) + g(k);
    let t = |k: K| term_value(p, m, env, k);
    assert forall|k: K| d.contains(k) && a.contains_key(k) && b.contains_key(k) implies ({
        &&& m[k].wf(p)
        &&& #[trigger] m[k].value(p, env) == field_add(
            p,
            a[k].value(p, env),
            b[k].value(p, env),
        )
        &&& a[k].consistent(env) && b[k].consistent(env) ==> m[k].consistent(env)
    }) by {
        lemma_plus(a[k], b[k], p, env);
    }
    assert forall|k: K| d.contains(k) implies congruent(p, #[trigger] t(k), h(k)) by {
        if a.contains_key(k) && b.contains_key(k) {
            let x = a[k].value(p, env);
            let y = b[k].value(p, env);
            assert(m[k].value(p, env) == field_add(p, x, y));
            lemma_field_congruent(p, x, y);
            lemma_congruent_mul(p, field_add(p, x, y), x + y, env(k), env(k));
            assert((x + y) * env(k) == x * env(k) + y * env(k)) by (nonlinear_arith);
        }
    }
    lemma_sum_congruent(p, d, t, h);
    lemma_sum_add(d, f, g, h);
    lemma_sum_subset(p, d, a.dom(), f);
    lemma_sum_subset(p, d, b.dom(), g);
    let fa = |k: K| term_value(p, a, env, k);
    let gb = |k: K| term_value(p, b, env, k);
    assert forall|k: K| a.dom().contains(k) implies congruent(p, #[trigger] f(k), fa(k)) by {
    }
    assert forall|k: K| b.dom().contains(k) implies congruent(p, #[trigger] g(k), gb(k)) by {
    }
    lemma_sum_congruent(p, a.dom(), f, fa);
    lemma_sum_congruent(p, b.dom(), g, gb);
    lemma_congruent_add(
        p,
        sum_over(d, f),
        sum_over(a.dom(), fa),
        sum_over(d, g),
        sum_over(b.dom(), gb),
    );
    lemma_linear_nonzero(p, m, env);
    let n = nonzero(m);
    assert forall|k: K| #[trigger] n.contains_key(k) implies n[k].wf(p) && !n[k].is_zero() by {
        assert(d.contains(k));
        assert(a.contains_key(k) || b.contains_key(k));
        if a.contains_key(k) && b.contains_key(k) {
            assert(m[k].value(p, env) == field_add(p, a[k].value(p, env), b[k].value(p, env)));
        }
    }
    if coefficients_consistent(a, env) && coefficients_consistent(b, env) {
        assert forall|k: K| #[trigger] n.contains_key(k) implies n[k].consistent(env) by {
            assert(d.contains(k));
            assert(a.contains_key(k) || b.contains_key(k));
            if a.contains_key(k) && b.contains_key(k) {
                assert(m[k].value(p, env) == field_add(p, a[k].value(p, env), b[k].value(p, env)));
            }
        }
    }
}

/// A sum is well-formed and has the sum of the values.
pub proof fn lemma_quadratic_plus<K>(
    a: Quadratic<K>,
    b: Quadratic<K>,
    p: int,
    env: spec_fn(K) -> int,
)
    requires
        2 < p,
        a.wf(p),
        b.wf(p),
        assigns(p, env),
    ensures
        a.plus(p, b).wf(p),
        a.plus(p, b).value(p, env) == field_add(p, a.value(p, env), b.value(p, env)),
        a.consistent(env) && b.consistent(env) ==> a.plus(p, b).consistent(env),
{
    let q = a.plus(p, b);
    lemma_linear_plus(p, a.linear, b.linear, env);
    lemma_plus(a.constant, b.constant, p, env);
    lemma_pairs_concat(p, a.quadratic, b.quadratic, env);
    assert forall|i: int|
        #![trigger q.quadratic[i]]
        0 <= i < q.quadratic.len() implies q.quadratic[i] == (if i < a.quadratic.len() {
        a.quadratic[i]
    } else {
        b.quadratic[i - a.quadratic.len()]
    }) by {
    }
    lemma_quadratic_value(a, p, env);
    lemma_quadratic_value(b, p, env);
    lemma_quadratic_value(q, p, env);
    let x = a.constant.value(p, env);
    let y = b.constant.value(p, env);
    lemma_field_congruent(p, x, y);
    let la = linear_value(p, a.linear, env);
    let lb = linear_value(p, b.linear, env);
    let pa = pairs_value(p, a.quadratic, env);
    let pb = pairs_value(p, b.quadratic, env);
    lemma_congruent_add(p, linear_value(p, q.linear, env), la + lb, field_add(p, x, y), x + y);
    lemma_congruent_add(
        p,
        pa + pb,
        pa + pb,
        linear_value(p, q.linear, env) + field_add(p, x, y),
        la + lb + (x + y),
    );
    lemma_congruent_add(p, a.value(p, env), pa + la + x, b.value(p, env), pb + lb + y);
    lemma_small(p, q.value(p, env));
}

/// A negation is well-formed, has the negated value, and has the same unknown variables.
pub proof fn lemma_quadratic_negated<K>(q: Quadratic<K>, p: int, env: spec_fn(K) -> int)
    requires
        2 < p,
        q.wf(p),
        assigns(p, env),
    ensures
        q.negated(p).wf(p),
        q.negated(p).value(p, env) == field_neg(p, q.value(p, env)),
        q.negated(p).is_known() == q.is_known(),
        q.consistent(env) ==> q.negated(p).consistent(env),
    decreases q,
{
    let n = q.negated(p);
    assert forall|i: int|
        #![trigger n.quadratic[i]]
        #![trigger q.quadratic[i]]
        0 <= i < q.quadratic.len() implies ({
        &&& n.quadratic[i].1 == q.quadratic[i].1
        &&& n.quadratic[i].0.wf(p)
        &&& !n.quadratic[i].0.is_known()
        &&& congruent(
            p,
            n.quadratic[i].0.value(p, env),
            (-1) * q.quadratic[i].0.value(p, env),
        )
        &&& q.quadratic[i].0.consistent(env) ==> n.quadratic[i].0.consistent(env)
    }) by {
        lemma_quadratic_negated(q.quadratic[i].0, p, env);
        lemma_field_congruent(p, q.quadratic[i].0.value(p, env), 0);
    }
    assert forall|k: K| #[trigger] q.linear.contains_key(k) implies ({
        &&& n.linear[k].wf(p)
        &&& !n.linear[k].is_zero()
        &&& congruent(p, n.linear[k].value(p, env), (-1) * q.linear[k].value(p, env))
        &&& q.linear[k].consistent(env) ==> n.linear[k].consistent(env)
    }) by {
        lemma_negated(q.linear[k], p, env);
        lemma_field_congruent(p, q.linear[k].value(p, env), 0);
    }
    assert(n.linear.dom() =~= q.linear.dom());
    lemma_same_domain(q.linear, n.linear);
    lemma_negated(q.constant, p, env);
    lemma_field_congruent(p, q.constant.value(p, env), 0);
    lemma_pairs_scaled(p, q.quadratic, n.quadratic, -1, env);
    lemma_linear_scaled(p, q.linear, n.linear, -1, env);
    lemma_parts_scaled(p, q, n, -1, env);
    lemma_field_congruent(p, q.value(p, env), 0);
    lemma_quadratic_value(n, p, env);
    lemma_congruent_close(p, n.value(p, env), field_neg(p, q.value(p, env)));
}

proof fn lemma_same_domain<K>(a: Map<K, Symbolic<K>>, b: Map<K, Symbolic<K>>)
    requires
        a.dom() == b.dom(),
    ensures
        (a == Map::<K, Symbolic<K>>::empty()) == (b == Map::<K, Symbolic<K>>::empty()),
{
    if a == Map::<K, Symbolic<K>>::empty() {
        assert(b =~= Map::empty());
    }
    if b == Map::<K, Symbolic<K>>::empty() {
        assert(a =~= Map::empty());
    }
}

/// Where all parts are multiplied by `c`, so is the value.
proof fn lemma_parts_scaled<K>(
    p: int,
    a: Quadratic<K>,
    b: Quadratic<K>,
    c: int,
    env: spec_fn(K) -> int,
)
    requires
        p > 0,
        congruent(p, pairs_value(p, b.quadratic, env), c * pairs_value(p, a.quadratic, env)),
        congruent(p, linear_value(p, b.linear, env), c * linear_value(p, a.linear, env)),
        congruent(p, b.constant.value(p, env), c * a.constant.value(p, env)),
    ensures
        congruent(p, b.value(p, env), c * a.value(p, env)),
{
    lemma_quadratic_value(a, p, env);
    lemma_quadratic_value(b, p, env);
    let x = pairs_value(p, a.quadratic, env);
    let y = linear_value(p, a.linear, env);
    let z = a.constant.value(p, env);
    lemma_congruent_add(
        p,
        pairs_value(p, b.quadratic, env),
        c * x,
        linear_value(p, b.linear, env),
        c * y,
    );
    lemma_congruent_add(
        p,
        pairs_value(p, b.quadratic, env) + linear_value(p, b.linear, env),
        c * x + c * y,
        b.constant.value(p, env),
        c * z,
    );
    assert(c * x + c * y + c * z == c * (x + y + z)) by (nonlinear_arith);
    lemma_congruent_mul(p, c, c, a.value(p, env), x + y + z);
}

/// A known expression is well-formed and has the value of the expression.
pub proof fn lemma_quadratic_known<K>(s: Symbolic<K>, p: int, env: spec_fn(K) -> int)
    requires
        2 < p,
        s.wf(p),
        assigns(p, env),
    ensures
        Quadratic::of_known(s).wf(p),
        Quadratic::of_known(s).is_known(),
        Quadratic::of_known(s).value(p, env) == s.value(p, env),
        s.consistent(env) ==> Quadratic::of_known(s).consistent(env),
{
    lemma_value_bound(s, p, env);
    lemma_small(p, s.value(p, env));
}

/// A known expression is worth its constant.
pub proof fn lemma_known_value<K>(q: Quadratic<K>, p: int, env: spec_fn(K) -> int)
    requires
        2 < p,
        q.wf(p),
        q.is_known(),
        assigns(p, env),
    ensures
        q.value(p, env) == q.constant.value(p, env),
{
    lemma_value_bound(q.constant, p, env);
    lemma_small(p, q.constant.value(p, env));
}

/// An unknown variable is well-formed and has the value of the variable.
pub proof fn lemma_quadratic_unknown<K>(k: K, p: int, env: spec_fn(K) -> int)
    requires
        2 < p,
        assigns(p, env),
    ensures
        Quadratic::of_unknown(k).wf(p),
        !Quadratic::of_unknown(k).is_known(),
        Quadratic::of_unknown(k).value(p, env) == env(k),
        Quadratic::of_unknown(k).consistent(env),
{
    let q = Quadratic::of_unknown(k);
    let f = |j: K| term_value(p, q.linear, env, j);
    lemma_sum_insert(Set::empty(), f, k);
    assert(q.linear.dom() =~= Set::empty().insert(k));
    assert(q.linear.contains_key(k));
    assert(0 <= env(k) < p);
    assert(f(k) == 1 * env(k));
    lemma_small(p, env(k));
}

/// A product with a known expression is well-formed, and its value is the product.
pub proof fn lemma_quadratic_scaled<K>(
    q: Quadratic<K>,
    s: Symbolic<K>,
    p: int,
    env: spec_fn(K) -> int,
)
    requires
        2 < p,
        is_prime(p),
        q.wf(p),
        s.wf(p),
        assigns(p, env),
    ensures
        q.scaled(p, s).wf(p),
        q.scaled(p, s).value(p, env) == field_mul(p, q.value(p, env), s.value(p, env)),
        q.scaled(p, s).is_known() == (q.is_known() || s.is_zero()),
        q.consistent(env) && s.consistent(env) ==> q.scaled(p, s).consistent(env),
    decreases q,
{
    let n = q.scaled(p, s);
    let c = s.value(p, env);
    if s.is_zero() {
        lemma_quadratic_known(Symbolic::<K>::Concrete(0), p, env);
        assert(q.value(p, env) * 0 == 0);
        lemma_small(p, 0);
    } else {
        assert forall|i: int|
            #![trigger n.quadratic[i]]
            #![trigger q.quadratic[i]]
            0 <= i < q.quadratic.len() implies ({
            &&& n.quadratic[i].1 == q.quadratic[i].1
            &&& n.quadratic[i].0.wf(p)
            &&& !n.quadratic[i].0.is_known()
            &&& congruent(
                p,
                n.quadratic[i].0.value(p, env),
                c * q.quadratic[i].0.value(p, env),
            )
            &&& q.quadratic[i].0.consistent(env) && s.consistent(env)
                ==> n.quadratic[i].0.consistent(env)
        }) by {
            lemma_quadratic_scaled(q.quadratic[i].0, s, p, env);
            let x = q.quadratic[i].0.value(p, env);
            lemma_field_congruent(p, x, c);
            assert(x * c == c * x) by (nonlinear_arith);
        }
        assert forall|k: K| #[trigger] q.linear.contains_key(k) implies ({
            &&& n.linear[k].wf(p)
            &&& !n.linear[k].is_zero()
            &&& congruent(p, n.linear[k].value(p, env), c * q.linear[k].value(p, env))
            &&& q.linear[k].consistent(env) && s.consistent(env) ==> n.linear[k].consistent(env)
        }) by {
            lemma_times(q.linear[k], s, p, env);
            let x = q.linear[k].value(p, env);
            lemma_field_congruent(p, x, c);
            assert(x * c == c * x) by (nonlinear_arith);
        }
        assert(n.linear.dom() =~= q.linear.dom());
        lemma_same_domain(q.linear, n.linear);
        lemma_times(q.constant, s, p, env);
        let z = q.constant.value(p, env);
        lemma_field_congruent(p, z, c);
        assert(z * c == c * z) by (nonlinear_arith);
        lemma_pairs_scaled(p, q.quadratic, n.quadratic, c, env);
        lemma_linear_scaled(p, q.linear, n.linear, c, env);
        lemma_parts_scaled(p, q, n, c, env);
        let v = q.value(p, env);
        lemma_field_congruent(p, v, c);
        assert(v * c == c * v) by (nonlinear_arith);
        lemma_quadratic_value(n, p, env);
        lemma_congruent_close(p, n.value(p, env), field_mul(p, v, c));
    }
}

/// A product is well-formed, and its value is the product of the values.
pub proof fn lemma_quadratic_times<K>(
    a: Quadratic<K>,
    b: Quadratic<K>,
    p: int,
    env: spec_fn(K) -> int,
)
    requires
        2 < p,
        is_prime(p),
        a.wf(p),
        b.wf(p),
        assigns(p, env),
    ensures
        a.times(p, b).wf(p),
        a.times(p, b).value(p, env) == field_mul(p, a.value(p, env), b.value(p, env)),
        a.consistent(env) && b.consistent(env) ==> a.times(p, b).consistent(env),
{
    let x = a.value(p, env);
    let y = b.value(p, env);
    if b.is_known() {
        lemma_quadratic_scaled(a, b.constant, p, env);
        lemma_known_value(b, p, env);
    } else if a.is_known() {
        lemma_quadratic_scaled(b, a.constant, p, env);
        lemma_known_value(a, p, env);
        assert(x * y == y * x) by (nonlinear_arith);
    } else {
        let q = a.times(p, b);
        assert(q.quadratic.drop_last() =~= Seq::empty());
        assert(pairs_value(p, q.quadratic.drop_last(), env) == 0);
        assert(pairs_value(p, q.quadratic, env) == x * y);
    }
}

/// A difference is well-formed, and its value is the difference of the values.
pub proof fn lemma_quadratic_minus<K>(
    a: Quadratic<K>,
    b: Quadratic<K>,
    p: int,
    env: spec_fn(K) -> int,
)
    requires
        2 < p,
        a.wf(p),
        b.wf(p),
        assigns(p, env),
    ensures
        a.minus(p, b).wf(p),
        a.minus(p, b).value(p, env) == field_sub(p, a.value(p, env), b.value(p, env)),
        a.consistent(env) && b.consistent(env) ==> a.minus(p, b).consistent(env),
{
    let x = a.value(p, env);
    let y = b.value(p, env);
    lemma_quadratic_negated(b, p, env);
    lemma_quadratic_plus(a, b.negated(p), p, env);
    lemma_field_congruent(p, x, y);
    lemma_field_congruent(p, y, 0);
    lemma_field_congruent(p, x, field_neg(p, y));
    lemma_congruent_add(p, x, x, field_neg(p, y), -y);
    lemma_congruent_close(p, field_add(p, x, field_neg(p, y)), field_sub(p, x, y));
}

/// The product with a known factor is well-formed and has the product of the values.
proof fn lemma_collapsed<K>(l: Quadratic<K>, r: Quadratic<K>, p: int, env: spec_fn(K) -> int)
    requires
        2 < p,
        is_prime(p),
        l.wf(p),
        r.wf(p),
        l.is_known() || r.is_known(),
        assigns(p, env),
    ensures
        collapsed(p, l, r).wf(p),
        collapsed(p, l, r).value(p, env) == field_mul(p, l.value(p, env), r.value(p, env)),
        l.consistent(env) && r.consistent(env) ==> collapsed(p, l, r).consistent(env),
{
    let x = l.value(p, env);
    let y = r.value(p, env);
    assert(x * y == y * x) by (nonlinear_arith);
    if l.is_known() && r.is_known() {
        lemma_known_value(l, p, env);
        lemma_known_value(r, p, env);
        lemma_times(l.constant, r.constant, p, env);
        lemma_quadratic_known(l.constant.times(p, r.constant), p, env);
    } else if l.is_known() {
        lemma_known_value(l, p, env);
        lemma_quadratic_scaled(r, l.constant, p, env);
    } else {
        lemma_known_value(r, p, env);
        lemma_quadratic_scaled(l, r.constant, p, env);
    }
}

/// All factors are well-formed.
spec fn pairs_wf<K>(p: int, pairs: Seq<(Quadratic<K>, Quadratic<K>)>) -> bool {
    forall|i: int|
        #![trigger pairs[i]]
        0 <= i < pairs.len() ==> pairs[i].0.wf(p) && pairs[i].1.wf(p)
}

/// The range constraints in all factors hold.
spec fn pairs_consistent<K>(
    pairs: Seq<(Quadratic<K>, Quadratic<K>)>,
    env: spec_fn(K) -> int,
) -> bool {
    forall|i: int|
        #![trigger pairs[i]]
        0 <= i < pairs.len() ==> pairs[i].0.consistent(env) && pairs[i].1.consistent(env)
}

/// The products that stay and those that collapse add up to all products.
proof fn lemma_collapsed_sum<K>(
    p: int,
    pairs: Seq<(Quadratic<K>, Quadratic<K>)>,
    env: spec_fn(K) -> int,
)
    requires
        2 < p,
        is_prime(p),
        pairs_wf(p, pairs),
        assigns(p, env),
    ensures
        collapsed_sum(p, pairs).wf(p),
        pairs_wf(p, open_pairs(pairs)),
        forall|i: int|
            #![trigger open_pairs(pairs)[i]]
            0 <= i < open_pairs(pairs).len() ==> !open_pairs(pairs)[i].0.is_known()
                && !open_pairs(pairs)[i].1.is_known(),
        congruent(
            p,
            collapsed_sum(p, pairs).value(p, env) + pairs_value(p, open_pairs(pairs), env),
            pairs_value(p, pairs, env),
        ),
        pairs_consistent(pairs, env) ==> {
            &&& collapsed_sum(p, pairs).consistent(env)
            &&& pairs_consistent(open_pairs(pairs), env)
        },
    decreases pairs.len(),
{
    if pairs.len() == 0 {
        lemma_quadratic_known(Symbolic::<K>::Concrete(0), p, env);
    } else {
        let front = pairs.drop_last();
        let n = pairs.len() - 1;
        let (l, r) = pairs.last();
        assert forall|i: int| #![trigger front[i]] 0 <= i < front.len() implies front[i].0.wf(p)
            && front[i].1.wf(p) by {
            assert(front[i] == pairs[i]);
        }
        if pairs_consistent(pairs, env) {
            assert forall|i: int|
                #![trigger front[i]]
                0 <= i < front.len() implies front[i].0.consistent(env) && front[i].1.consistent(
                env,
            ) by {
                assert(front[i] == pairs[i]);
            }
        }
        lemma_collapsed_sum(p, front, env);
        assert(pairs[n] == (l, r));
        let rest = collapsed_sum(p, front);
        let x = l.value(p, env);
        let y = r.value(p, env);
        let kept = open_pairs(front);
        if l.is_known() || r.is_known() {
            let c = collapsed(p, l, r);
            lemma_collapsed(l, r, p, env);
            lemma_quadratic_plus(rest, c, p, env);
            let u = rest.value(p, env);
            let v = c.value(p, env);
            lemma_field_congruent(p, u, v);
            lemma_field_congruent(p, x, y);
            let w = pairs_value(p, kept, env);
            lemma_congruent_add(p, u + w, pairs_value(p, front, env), v, x * y);
            lemma_congruent_add(p, field_add(p, u, v), u + v, w, w);
        } else {
            let all = kept.push((l, r));
            assert(all.drop_last() =~= kept);
            assert(all.last() == (l, r));
            let w = pairs_value(p, kept, env);
            lemma_congruent_add(
                p,
                rest.value(p, env) + w,
                pairs_value(p, front, env),
                x * y,
                x * y,
            );
            assert(pairs_value(p, all, env) == w + x * y);
        }
    }
}

proof fn lemma_pairs_same<K>(
    p: int,
    s: Seq<(Quadratic<K>, Quadratic<K>)>,
    t: Seq<(Quadratic<K>, Quadratic<K>)>,
    env: spec_fn(K) -> int,
    other: spec_fn(K) -> int,
)
    requires
        s.len() == t.len(),
        forall|i: int|
            #![trigger t[i]]
            0 <= i < s.len() ==> t[i].0.value(p, other) == s[i].0.value(p, env) && t[i].1.value(
                p,
                other,
            ) == s[i].1.value(p, env),
    ensures
        pairs_value(p, t, other) == pairs_value(p, s, env),
    decreases s.len(),
{
    if s.len() > 0 {
        let n = s.len() - 1;
        assert forall|i: int|
            #![trigger t.drop_last()[i]]
            0 <= i < n implies t.drop_last()[i].0.value(p, other) == s.drop_last()[i].0.value(
            p,
            env,
        ) && t.drop_last()[i].1.value(p, other) == s.drop_last()[i].1.value(p, env) by {
            assert(t[i] == t.drop_last()[i]);
        }
        lemma_pairs_same(p, s.drop_last(), t.drop_last(), env, other);
        assert(t[n] == t.last());
    }
}

/// The linear and constant terms keep their value in an update.
proof fn lemma_affine_updated<K>(
    q: Quadratic<K>,
    p: int,
    k: K,
    known: bool,
    r: Range,
    env: spec_fn(K) -> int,
)
    requires
        2 < p,
        is_prime(p),
        coefficients_wf(p, q.linear),
        q.constant.wf(p),
        r.within(p),
        assigns(p, env),
    ensures
        ({
            let a = q.affine_updated(p, k, known, r);
            &&& coefficients_wf(p, a.linear)
            &&& a.constant.wf(p)
            &&& r.allows(env(k)) ==> congruent(
                p,
                linear_value(p, a.linear, env) + a.constant.value(p, env),
                linear_value(p, q.linear, env) + q.constant.value(p, env),
            )
            &&& r.allows(env(k)) && coefficients_consistent(q.linear, env) && q.constant.consistent(
                env,
            ) ==> coefficients_consistent(a.linear, env) && a.constant.consistent(env)
        }),
{
    let a = q.affine_updated(p, k, known, r);
    let constant = q.constant.updated(p, k, r);
    lemma_updated(q.constant, p, k, r, env);
    let f = |j: K| term_value(p, q.linear, env, j);
    let g = |j: K| term_value(p, a.linear, env, j);
    if q.linear.contains_key(k) {
        if known {
            let symbol = Symbolic::of_symbol(k, r);
            let product = symbol.times(p, q.linear[k]);
            lemma_of_symbol(k, r, p, env);
            lemma_times(symbol, q.linear[k], p, env);
            lemma_plus(constant, product, p, env);
            lemma_sum_remove(q.linear.dom(), f, k);
            assert(a.linear.dom() =~= q.linear.dom().remove(k));
            assert forall|j: K| a.linear.dom().contains(j) implies congruent(
                p,
                #[trigger] g(j),
                f(j),
            ) by {
            }
            lemma_sum_congruent(p, a.linear.dom(), g, f);
            let x = q.linear[k].value(p, env);
            let z = q.constant.value(p, env);
            let rest = sum_over(a.linear.dom(), f);
            let w = symbol.value(p, env);
            if r.allows(env(k)) {
                lemma_field_congruent(p, w, x);
                lemma_field_congruent(p, z, field_mul(p, w, x));
                lemma_congruent_add(p, z, z, field_mul(p, w, x), w * x);
                lemma_congruent_add(
                    p,
                    linear_value(p, a.linear, env),
                    rest,
                    a.constant.value(p, env),
                    z + w * x,
                );
                assert(w * x == x * env(k)) by (nonlinear_arith)
                    requires
                        w == env(k),
                ;
                assert(f(k) == x * env(k));
            }
            assert forall|j: K| #[trigger] a.linear.contains_key(j) implies a.linear[j].wf(p)
                && !a.linear[j].is_zero() by {
                assert(q.linear.contains_key(j));
            }
            if coefficients_consistent(q.linear, env) {
                assert forall|j: K| #[trigger]
                    a.linear.contains_key(j) implies a.linear[j].consistent(env) by {
                    assert(q.linear.contains_key(j));
                }
            }
        }
    } else {
        let m = q.linear.map_values(|c: Symbolic<K>| c.updated(p, k, r));
        assert(m.dom() =~= q.linear.dom());
        assert forall|j: K| #[trigger] q.linear.contains_key(j) implies ({
            &&& m[j].wf(p)
            &&& r.allows(env(k)) ==> m[j].value(p, env) == q.linear[j].value(p, env)
            &&& r.allows(env(k)) && q.linear[j].consistent(env) ==> m[j].consistent(env)
        }) by {
            lemma_updated(q.linear[j], p, k, r, env);
        }
        lemma_linear_nonzero(p, m, env);
        let h = |j: K| term_value(p, m, env, j);
        if r.allows(env(k)) {
            assert forall|j: K| m.dom().contains(j) implies congruent(p, #[trigger] h(j), f(j)) by {
                assert(q.linear.contains_key(j));
            }
            lemma_sum_congruent(p, m.dom(), h, f);
            let z = q.constant.value(p, env);
            lemma_congruent_add(
                p,
                linear_value(p, a.linear, env),
                linear_value(p, q.linear, env),
                z,
                z,
            );
        }
        assert forall|j: K| #[trigger] a.linear.contains_key(j) implies a.linear[j].wf(p)
            && !a.linear[j].is_zero() by {
            assert(q.linear.contains_key(j));
        }
        if coefficients_consistent(q.linear, env) && r.allows(env(k)) {
            assert forall|j: K| #[trigger]
                a.linear.contains_key(j) implies a.linear[j].consistent(env) by {
                assert(q.linear.contains_key(j));
            }
        }
    }
}

/// An update gives a well-formed expression. It keeps the value under all values of the
/// variables that satisfy the new range constraint, and it keeps the range constraints
/// satisfied.
pub proof fn lemma_quadratic_updated<K>(
    q: Quadratic<K>,
    p: int,
    k: K,
    known: bool,
    r: Range,
    env: spec_fn(K) -> int,
)
    requires
        2 < p,
        is_prime(p),
        q.wf(p),
        r.within(p),
        assigns(p, env),
    ensures
        q.updated(p, k, known, r).wf(p),
        q.updated_base(p, k, known, r).wf(p),
        r.allows(env(k)) ==> q.updated(p, k, known, r).value(p, env) == q.value(p, env),
        r.allows(env(k)) && q.consistent(env) ==> q.updated(p, k, known, r).consistent(env),
    decreases q,
{
    let affine = q.affine_updated(p, k, known, r);
    let pairs = q.updated_pairs(p, k, known, r);
    let kept = open_pairs(pairs);
    let base = q.updated_base(p, k, known, r);
    let extra = collapsed_sum(p, pairs);
    assert forall|i: int| #![trigger pairs[i]] 0 <= i < pairs.len() implies ({
        &&& pairs[i].0.wf(p)
        &&& pairs[i].1.wf(p)
        &&& r.allows(env(k)) ==> pairs[i].0.value(p, env) == q.quadratic[i].0.value(p, env)
            && pairs[i].1.value(p, env) == q.quadratic[i].1.value(p, env)
        &&& r.allows(env(k)) && q.consistent(env) ==> pairs[i].0.consistent(env)
            && pairs[i].1.consistent(env)
    }) by {
        lemma_quadratic_updated(q.quadratic[i].0, p, k, known, r, env);
        lemma_quadratic_updated(q.quadratic[i].1, p, k, known, r, env);
    }
    lemma_affine_updated(q, p, k, known, r, env);
    lemma_collapsed_sum(p, pairs, env);
    assert(base.wf(p)) by {
        assert forall|i: int| #![trigger kept[i]] 0 <= i < kept.len() implies kept[i].0.wf(p)
            && kept[i].1.wf(p) && !kept[i].0.is_known() && !kept[i].1.is_known() by {
            assert(open_pairs(pairs)[i] == kept[i]);
        }
    }
    lemma_quadratic_plus(base, extra, p, env);
    if r.allows(env(k)) {
        lemma_pairs_same(p, q.quadratic, pairs, env, env);
        lemma_quadratic_value(base, p, env);
        lemma_quadratic_value(q, p, env);
        let x = extra.value(p, env);
        let y = base.value(p, env);
        let affine_value = linear_value(p, affine.linear, env) + affine.constant.value(p, env);
        let old_value = linear_value(p, q.linear, env) + q.constant.value(p, env);
        lemma_congruent_add(
            p,
            x + pairs_value(p, kept, env),
            pairs_value(p, q.quadratic, env),
            affine_value,
            old_value,
        );
        lemma_congruent_add(p, y, pairs_value(p, kept, env) + affine_value, x, x);
        assert(congruent(p, y + x, q.value(p, env)));
        lemma_field_congruent(p, y, x);
        lemma_quadratic_value(extra, p, env);
        if extra.is_known() && extra.constant.is_zero() {
            lemma_known_value(extra, p, env);
            lemma_congruent_close(p, y, q.value(p, env));
        } else {
            lemma_congruent_close(p, field_add(p, y, x), q.value(p, env));
        }
    }
}

} // verus!
