//! Expressions in symbols whose values are known when the expression is evaluated.
use vstd::prelude::*;
use vstd::string::*;

use crate::field::{
    field_add, field_inverse, field_mul, field_neg, field_quotient, lemma_field_congruent,
    lemma_inverse_unique, lemma_no_zero_divisors, FieldElement,
};
use crate::modular::{is_prime, lemma_congruent_multiple, lemma_small};
use crate::range_constraint::{
    lemma_multiple_allows, lemma_sum_allows, lemma_unconstrained_allows, lemma_value_allows, Range,
    RangeConstraint,
};
use crate::text::{numeral, write_number};
use crate::variable::{Comparison, Variable};
use crate::variable_update::VariableUpdate;

verus! {

/// The operations on two expressions.
#[derive(Clone, Copy, Debug, PartialEq, Eq, Structural, Hash)]
pub enum BinaryOperator {
    Add,
    Mul,
    /// Division in the field.
    Div,
}

/// What a symbolic expression is: a tree over symbols of type `K`.
pub enum Symbolic<K> {
    Concrete(int),
    Symbol(K, Range),
    Binary(Box<Symbolic<K>>, BinaryOperator, Box<Symbolic<K>>),
    Negation(Box<Symbolic<K>>),
}

/// Values of the symbols: elements of the field with `p` elements.
pub open spec fn assigns<K>(p: int, env: spec_fn(K) -> int) -> bool {
    forall|k: K| 0 <= #[trigger] env(k) < p
}

/// The number that a value stands for, with a minus sign in the upper half of the field.
pub open spec fn signed_text(p: int, n: int) -> Seq<char> {
    if n <= (p - 1) / 2 {
        numeral(10, n as nat)
    } else {
        "-"@ + numeral(10, (p - n) as nat)
    }
}

pub open spec fn operator_text(op: BinaryOperator) -> Seq<char> {
    match op {
        BinaryOperator::Add => " + "@,
        BinaryOperator::Mul => " * "@,
        BinaryOperator::Div => " / "@,
    }
}

impl<K> Symbolic<K> {
    /// Numbers and bounds are elements of the field with `p` elements.
    pub open spec fn wf(self, p: int) -> bool
        decreases self,
    {
        match self {
            Symbolic::Concrete(n) => 0 <= n < p,
            Symbolic::Symbol(_, r) => r.within(p),
            Symbolic::Binary(l, _, r) => l.wf(p) && r.wf(p),
            Symbolic::Negation(e) => e.wf(p),
        }
    }

    /// The value of the expression under values for the symbols.
    pub open spec fn value(self, p: int, env: spec_fn(K) -> int) -> int
        decreases self,
    {
        match self {
            Symbolic::Concrete(n) => n,
            Symbolic::Symbol(k, _) => env(k),
            Symbolic::Binary(l, BinaryOperator::Add, r) => field_add(
                p,
                l.value(p, env),
                r.value(p, env),
            ),
            Symbolic::Binary(l, BinaryOperator::Mul, r) => field_mul(
                p,
                l.value(p, env),
                r.value(p, env),
            ),
            Symbolic::Binary(l, BinaryOperator::Div, r) => field_quotient(
                p,
                l.value(p, env),
                r.value(p, env),
            ),
            Symbolic::Negation(e) => field_neg(p, e.value(p, env)),
        }
    }

    /// The values of the symbols satisfy the range constraints in the expression.
    pub open spec fn consistent(self, env: spec_fn(K) -> int) -> bool
        decreases self,
    {
        match self {
            Symbolic::Concrete(_) => true,
            Symbolic::Symbol(k, r) => r.allows(env(k)),
            Symbolic::Binary(l, _, r) => l.consistent(env) && r.consistent(env),
            Symbolic::Negation(e) => e.consistent(env),
        }
    }

    /// The symbols in the order in which they occur.
    pub open spec fn symbols(self) -> Seq<K>
        decreases self,
    {
        match self {
            Symbolic::Concrete(_) => Seq::empty(),
            Symbolic::Symbol(k, _) => seq![k],
            Symbolic::Binary(l, _, r) => l.symbols() + r.symbols(),
            Symbolic::Negation(e) => e.symbols(),
        }
    }

    /// The number, if the expression is just a number.
    pub open spec fn number(self) -> Option<int> {
        match self {
            Symbolic::Concrete(n) => Some(n),
            _ => None,
        }
    }

    pub open spec fn is_zero(self) -> bool {
        self.number() == Some(0int)
    }

    pub open spec fn is_one(self) -> bool {
        self.number() == Some(1int)
    }

    pub open spec fn is_minus_one(self, p: int) -> bool {
        self.number() == Some(p - 1)
    }

    /// The range constraint on the value of the expression.
    pub open spec fn range(self, p: int) -> Range
        decreases self,
    {
        match self {
            Symbolic::Concrete(n) => Range::of_value(n),
            Symbolic::Symbol(_, r) => r,
            Symbolic::Binary(l, BinaryOperator::Add, r) => l.range(p).sum(p, r.range(p)),
            Symbolic::Binary(_, _, _) => Range::unconstrained(),
            Symbolic::Negation(e) => e.range(p).negation(p),
        }
    }

    /// The range constraint excludes zero.
    pub open spec fn is_nonzero(self, p: int) -> bool {
        !self.range(p).allows(0)
    }

    /// A symbol, or the number that it must be.
    pub open spec fn of_symbol(k: K, r: Range) -> Symbolic<K> {
        match r.single_value() {
            Some(v) => Symbolic::Concrete(v),
            None => Symbolic::Symbol(k, r),
        }
    }

    pub open spec fn plus(self, p: int, other: Symbolic<K>) -> Symbolic<K> {
        if self.is_zero() {
            other
        } else if other.is_zero() {
            self
        } else {
            match (self.number(), other.number()) {
                (Some(a), Some(b)) => Symbolic::Concrete(field_add(p, a, b)),
                _ => Symbolic::Binary(Box::new(self), BinaryOperator::Add, Box::new(other)),
            }
        }
    }

    pub open spec fn negated(self, p: int) -> Symbolic<K> {
        match self {
            Symbolic::Concrete(n) => Symbolic::Concrete(field_neg(p, n)),
            Symbolic::Negation(e) => if e.number() is None {
                *e
            } else {
                Symbolic::Negation(Box::new(self))
            },
            _ => Symbolic::Negation(Box::new(self)),
        }
    }

    pub open spec fn times(self, p: int, other: Symbolic<K>) -> Symbolic<K> {
        match (self.number(), other.number()) {
            (Some(a), Some(b)) => Symbolic::Concrete(field_mul(p, a, b)),
            _ => if self.is_zero() || other.is_zero() {
                Symbolic::Concrete(0)
            } else if self.is_one() {
                other
            } else if other.is_one() {
                self
            } else if self.is_minus_one(p) {
                other.negated(p)
            } else if other.is_minus_one(p) {
                self.negated(p)
            } else {
                Symbolic::Binary(Box::new(self), BinaryOperator::Mul, Box::new(other))
            },
        }
    }

    /// The quotient; a division by zero stays as it is.
    pub open spec fn over(self, p: int, other: Symbolic<K>) -> Symbolic<K> {
        if other.is_zero() {
            Symbolic::Binary(Box::new(self), BinaryOperator::Div, Box::new(other))
        } else {
            match (self.number(), other.number()) {
                (Some(a), Some(b)) => Symbolic::Concrete(field_quotient(p, a, b)),
                _ => if self.is_zero() {
                    Symbolic::Concrete(0)
                } else if other.is_one() {
                    self
                } else if other.is_minus_one(p) {
                    self.negated(p)
                } else {
                    Symbolic::Binary(Box::new(self), BinaryOperator::Div, Box::new(other))
                },
            }
        }
    }

    /// The expression with a new range constraint for one symbol, simplified again.
    pub open spec fn updated(self, p: int, k: K, r: Range) -> Symbolic<K>
        decreases self,
    {
        match self {
            Symbolic::Concrete(_) => self,
            Symbolic::Symbol(s, _) => if s == k {
                Symbolic::of_symbol(k, r)
            } else {
                self
            },
            Symbolic::Binary(a, BinaryOperator::Add, b) => a.updated(p, k, r).plus(
                p,
                b.updated(p, k, r),
            ),
            Symbolic::Binary(a, BinaryOperator::Mul, b) => a.updated(p, k, r).times(
                p,
                b.updated(p, k, r),
            ),
            Symbolic::Binary(a, BinaryOperator::Div, b) => a.updated(p, k, r).over(
                p,
                b.updated(p, k, r),
            ),
            Symbolic::Negation(e) => e.updated(p, k, r).negated(p),
        }
    }
}

/// How an expression is printed.
pub open spec fn symbolic_text<V: Variable>(p: int, s: Symbolic<V::V>) -> Seq<char>
    decreases s,
{
    match s {
        Symbolic::Concrete(n) => signed_text(p, n),
        Symbolic::Symbol(k, _) => V::name(k),
        Symbolic::Binary(l, op, r) => "("@ + symbolic_text::<V>(p, *l) + operator_text(op)
            + symbolic_text::<V>(p, *r) + ")"@,
        Symbolic::Negation(e) => "-"@ + symbolic_text::<V>(p, *e),
    }
}

/// The variables that references point to.
pub open spec fn views<V: Variable>(s: Seq<&V>) -> Seq<V::V> {
    s.map_values(|v: &V| v@)
}

/// The value of a well-formed expression is an element of the field.
pub proof fn lemma_value_bound<K>(s: Symbolic<K>, p: int, env: spec_fn(K) -> int)
    requires
        2 < p,
        s.wf(p),
        assigns(p, env),
    ensures
        0 <= s.value(p, env) < p,
{
    match s {
        Symbolic::Concrete(_) => {},
        Symbolic::Symbol(k, _) => {
            assert(0 <= env(k) < p);
        },
        Symbolic::Binary(l, op, r) => {
            lemma_field_congruent(p, l.value(p, env), r.value(p, env));
            lemma_field_congruent(p, l.value(p, env), field_inverse(p, r.value(p, env)));
        },
        Symbolic::Negation(e) => {
            lemma_field_congruent(p, e.value(p, env), 0);
        },
    }
}

/// The range constraint of an expression holds of its value wherever the range
/// constraints of the symbols hold.
pub proof fn lemma_range_sound<K>(s: Symbolic<K>, p: int, env: spec_fn(K) -> int)
    requires
        2 < p <= u64::MAX,
        s.wf(p),
        assigns(p, env),
        s.consistent(env),
    ensures
        s.range(p).allows(s.value(p, env)),
        s.range(p).within(p),
    decreases s,
{
    lemma_value_bound(s, p, env);
    match s {
        Symbolic::Concrete(n) => {
            lemma_value_allows(n, n);
        },
        Symbolic::Symbol(_, _) => {},
        Symbolic::Binary(l, op, r) => {
            lemma_range_sound(*l, p, env);
            lemma_range_sound(*r, p, env);
            lemma_value_bound(*l, p, env);
            lemma_value_bound(*r, p, env);
            lemma_unconstrained_allows(s.value(p, env));
            lemma_sum_allows(p, l.range(p), r.range(p), l.value(p, env), r.value(p, env));
        },
        Symbolic::Negation(e) => {
            lemma_range_sound(*e, p, env);
            lemma_value_bound(*e, p, env);
            let v = e.value(p, env);
            lemma_multiple_allows(p, e.range(p), p - 1, v);
            lemma_minus_one(p, v);
        },
    }
}

/// An expression that is known to be nonzero is not zero.
pub proof fn lemma_nonzero_sound<K>(s: Symbolic<K>, p: int, env: spec_fn(K) -> int)
    requires
        2 < p <= u64::MAX,
        s.wf(p),
        assigns(p, env),
        s.consistent(env),
        s.is_nonzero(p),
    ensures
        s.value(p, env) != 0,
{
    lemma_range_sound(s, p, env);
}

/// Multiplying by minus one negates.
pub proof fn lemma_minus_one(p: int, v: int)
    requires
        p > 2,
    ensures
        field_mul(p, v, p - 1) == field_neg(p, v),
        field_mul(p, p - 1, v) == field_neg(p, v),
        field_mul(p, p - 1, p - 1) == 1,
{
    assert(v * (p - 1) == -v + v * p) by (nonlinear_arith);
    assert((p - 1) * v == -v + v * p) by (nonlinear_arith);
    assert((p - 1) * (p - 1) == 1 + (p - 2) * p) by (nonlinear_arith);
    lemma_congruent_multiple(p, -v, v);
    lemma_congruent_multiple(p, 1, p - 2);
    lemma_small(p, 1);
}

proof fn lemma_neg_neg(p: int, v: int)
    requires
        0 <= v < p,
    ensures
        field_neg(p, field_neg(p, v)) == v,
{
    lemma_field_congruent(p, v, v);
    crate::modular::lemma_congruent_sub(p, 0, 0, field_neg(p, v), -v);
    lemma_small(p, v);
}

/// The simplified sum is well-formed and has the value of the sum.
pub proof fn lemma_plus<K>(a: Symbolic<K>, b: Symbolic<K>, p: int, env: spec_fn(K) -> int)
    requires
        2 < p,
        a.wf(p),
        b.wf(p),
        assigns(p, env),
    ensures
        a.plus(p, b).wf(p),
        a.plus(p, b).value(p, env) == field_add(p, a.value(p, env), b.value(p, env)),
        a.consistent(env) && b.consistent(env) ==> a.plus(p, b).consistent(env),
{
    lemma_value_bound(a, p, env);
    lemma_value_bound(b, p, env);
    let x = a.value(p, env);
    let y = b.value(p, env);
    lemma_small(p, x);
    lemma_small(p, y);
    lemma_field_congruent(p, x, y);
}

/// The simplified negation is well-formed, has the value of the negation, and is zero
/// only if the expression is.
pub proof fn lemma_negated<K>(a: Symbolic<K>, p: int, env: spec_fn(K) -> int)
    requires
        2 < p,
        a.wf(p),
        assigns(p, env),
    ensures
        a.negated(p).wf(p),
        a.negated(p).value(p, env) == field_neg(p, a.value(p, env)),
        a.negated(p).is_zero() == a.is_zero(),
        (a.negated(p).number() is Some) == (a.number() is Some),
        a.consistent(env) ==> a.negated(p).consistent(env),
{
    lemma_value_bound(a, p, env);
    lemma_field_congruent(p, a.value(p, env), 0);
    match a {
        Symbolic::Concrete(n) => {
            lemma_small(p, 0);
            lemma_neg_neg(p, n);
        },
        Symbolic::Negation(e) => {
            lemma_value_bound(*e, p, env);
            lemma_neg_neg(p, e.value(p, env));
        },
        _ => {},
    }
}

/// The simplified product is well-formed, has the value of the product, and is zero only
/// if a factor is.
pub proof fn lemma_times<K>(a: Symbolic<K>, b: Symbolic<K>, p: int, env: spec_fn(K) -> int)
    requires
        2 < p,
        is_prime(p),
        a.wf(p),
        b.wf(p),
        assigns(p, env),
    ensures
        a.times(p, b).wf(p),
        a.times(p, b).value(p, env) == field_mul(p, a.value(p, env), b.value(p, env)),
        a.times(p, b).is_zero() == (a.is_zero() || b.is_zero()),
        a.consistent(env) && b.consistent(env) ==> a.times(p, b).consistent(env),
{
    lemma_value_bound(a, p, env);
    lemma_value_bound(b, p, env);
    lemma_negated(a, p, env);
    lemma_negated(b, p, env);
    let x = a.value(p, env);
    let y = b.value(p, env);
    lemma_field_congruent(p, x, y);
    lemma_small(p, x);
    lemma_small(p, y);
    lemma_small(p, 0);
    lemma_minus_one(p, x);
    lemma_minus_one(p, y);
    if a.number() is Some && b.number() is Some {
        if field_mul(p, x, y) == 0 {
            lemma_no_zero_divisors(p, x, y);
        }
    }
    assert(x == 0 ==> x * y == 0);
    assert(y == 0 ==> x * y == 0);
    assert(x == 1 ==> x * y == y);
    assert(y == 1 ==> x * y == x);
}

/// The simplified quotient is well-formed and has the value of the quotient.
pub proof fn lemma_over<K>(a: Symbolic<K>, b: Symbolic<K>, p: int, env: spec_fn(K) -> int)
    requires
        2 < p,
        is_prime(p),
        a.wf(p),
        b.wf(p),
        assigns(p, env),
    ensures
        a.over(p, b).wf(p),
        a.over(p, b).value(p, env) == field_quotient(p, a.value(p, env), b.value(p, env)),
        a.consistent(env) && b.consistent(env) ==> a.over(p, b).consistent(env),
{
    lemma_value_bound(a, p, env);
    lemma_value_bound(b, p, env);
    lemma_negated(a, p, env);
    let x = a.value(p, env);
    let y = b.value(p, env);
    lemma_field_congruent(p, x, field_inverse(p, y));
    lemma_small(p, x);
    lemma_small(p, 0);
    lemma_small(p, 1);
    assert(x == 0 ==> x * field_inverse(p, y) == 0);
    lemma_minus_one(p, x);
    if b.is_one() {
        lemma_inverse_unique(p, 1, 1);
    }
    if b.is_minus_one(p) {
        lemma_inverse_unique(p, p - 1, p - 1);
    }
}

/// A symbol, replaced by a number where there is no choice, has the value of the symbol.
pub proof fn lemma_of_symbol<K>(k: K, r: Range, p: int, env: spec_fn(K) -> int)
    requires
        r.within(p),
        assigns(p, env),
    ensures
        Symbolic::of_symbol(k, r).wf(p),
        r.allows(env(k)) ==> Symbolic::of_symbol(k, r).value(p, env) == env(k),
        r.allows(env(k)) ==> Symbolic::of_symbol(k, r).consistent(env),
{
}

/// An update keeps the value under all values of the symbols that satisfy the new range
/// constraint, and keeps the range constraints satisfied.
pub proof fn lemma_updated<K>(s: Symbolic<K>, p: int, k: K, r: Range, env: spec_fn(K) -> int)
    requires
        2 < p,
        is_prime(p),
        s.wf(p),
        r.within(p),
        assigns(p, env),
    ensures
        s.updated(p, k, r).wf(p),
        r.allows(env(k)) ==> s.updated(p, k, r).value(p, env) == s.value(p, env),
        r.allows(env(k)) && s.consistent(env) ==> s.updated(p, k, r).consistent(env),
    decreases s,
{
    match s {
        Symbolic::Concrete(_) => {},
        Symbolic::Symbol(_, _) => {
            lemma_of_symbol(k, r, p, env);
        },
        Symbolic::Binary(a, op, b) => {
            lemma_updated(*a, p, k, r, env);
            lemma_updated(*b, p, k, r, env);
            lemma_plus(a.updated(p, k, r), b.updated(p, k, r), p, env);
            lemma_times(a.updated(p, k, r), b.updated(p, k, r), p, env);
            lemma_over(a.updated(p, k, r), b.updated(p, k, r), p, env);
        },
        Symbolic::Negation(e) => {
            lemma_updated(*e, p, k, r, env);
            lemma_negated(e.updated(p, k, r), p, env);
        },
    }
}

/// The value depends only on the symbols that occur.
pub proof fn lemma_value_local<K>(
    s: Symbolic<K>,
    p: int,
    env: spec_fn(K) -> int,
    other: spec_fn(K) -> int,
)
    requires
        forall|k: K| s.symbols().contains(k) ==> #[trigger] env(k) == other(k),
    ensures
        s.value(p, env) == s.value(p, other),
    decreases s,
{
    match s {
        Symbolic::Concrete(_) => {},
        Symbolic::Symbol(k, _) => {
            assert(s.symbols()[0] == k);
        },
        Symbolic::Binary(a, _, b) => {
            assert forall|k: K| a.symbols().contains(k) implies #[trigger] env(k) == other(k) by {
                let i = choose|i: int| 0 <= i < a.symbols().len() && a.symbols()[i] == k;
                assert(s.symbols()[i] == k);
            }
            assert forall|k: K| b.symbols().contains(k) implies #[trigger] env(k) == other(k) by {
                let i = choose|i: int| 0 <= i < b.symbols().len() && b.symbols()[i] == k;
                assert(s.symbols()[a.symbols().len() + i] == k);
            }
            lemma_value_local(*a, p, env, other);
            lemma_value_local(*b, p, env, other);
        },
        Symbolic::Negation(e) => {
            lemma_value_local(*e, p, env, other);
        },
    }
}

/// A value that is known when it is needed: a number, a symbol with its range
/// constraint, or an operation on such values.
#[derive(Debug)]
pub enum SymbolicExpression<T, V> {
    /// A number.
    Concrete(T),
    /// A symbol whose value is known at run time.
    Symbol(V, RangeConstraint<T>),
    BinaryOperation(
        Box<SymbolicExpression<T, V>>,
        BinaryOperator,
        Box<SymbolicExpression<T, V>>,
    ),
    Negation(Box<SymbolicExpression<T, V>>),
}

impl<T: FieldElement, V: Variable> View for SymbolicExpression<T, V> {
    type V = Symbolic<V::V>;

    open spec fn view(&self) -> Symbolic<V::V> {
        self.tree()
    }
}

impl<T: FieldElement, V: Variable> SymbolicExpression<T, V> {
    /// The tree that the expression is.
    pub open spec fn tree(self) -> Symbolic<V::V>
        decreases self,
    {
        match self {
            SymbolicExpression::Concrete(n) => Symbolic::Concrete(n.val()),
            SymbolicExpression::Symbol(v, rc) => Symbolic::Symbol(v@, rc@),
            SymbolicExpression::BinaryOperation(l, op, r) => Symbolic::Binary(
                Box::new(l.tree()),
                op,
                Box::new(r.tree()),
            ),
            SymbolicExpression::Negation(e) => Symbolic::Negation(Box::new(e.tree())),
        }
    }

    /// Numbers and bounds are elements of the field.
    pub proof fn lemma_wf(self)
        ensures
            self@.wf(T::order()),
        decreases self,
    {
        match self {
            SymbolicExpression::Concrete(n) => {
                n.lemma_val();
            },
            SymbolicExpression::Symbol(_, rc) => {
                rc.lemma_within();
            },
            SymbolicExpression::BinaryOperation(l, _, r) => {
                l.lemma_wf();
                r.lemma_wf();
            },
            SymbolicExpression::Negation(e) => {
                e.lemma_wf();
            },
        }
    }

    /// The number as an expression.
    pub fn from_number(n: T) -> (r: Self)
        ensures
            r@ == Symbolic::<V::V>::Concrete(n.val()),
    {
        SymbolicExpression::Concrete(n)
    }

    /// A symbol, or the number that it must be by its range constraint.
    pub fn from_symbol(symbol: V, rc: RangeConstraint<T>) -> (r: Self)
        ensures
            r@ == Symbolic::of_symbol(symbol@, rc@),
    {
        match rc.try_to_single_value() {
            Some(v) => SymbolicExpression::Concrete(v),
            None => SymbolicExpression::Symbol(symbol, rc),
        }
    }

    fn duplicate(&self) -> (r: Self)
        ensures
            r@ == self@,
        decreases self,
    {
        match self {
            SymbolicExpression::Concrete(n) => SymbolicExpression::Concrete(*n),
            SymbolicExpression::Symbol(v, rc) => SymbolicExpression::Symbol(v.duplicate(), *rc),
            SymbolicExpression::BinaryOperation(l, op, r) => SymbolicExpression::BinaryOperation(
                Box::new(l.duplicate()),
                *op,
                Box::new(r.duplicate()),
            ),
            SymbolicExpression::Negation(e) => SymbolicExpression::Negation(
                Box::new(e.duplicate()),
            ),
        }
    }

    /// The number, if the expression is one.
    pub fn try_to_number(&self) -> (r: Option<T>)
        ensures
            match r {
                Some(n) => self@.number() == Some(n.val()),
                None => self@.number() is None,
            },
    {
        match self {
            SymbolicExpression::Concrete(n) => Some(*n),
            _ => None,
        }
    }

    fn is_number(&self, value: T) -> (r: bool)
        ensures
            r == (self@.number() == Some(value.val())),
    {
        match self {
            SymbolicExpression::Concrete(n) => n.same(value),
            _ => false,
        }
    }

    pub fn is_known_zero(&self) -> (r: bool)
        ensures
            r == self@.is_zero(),
    {
        self.is_number(T::zero())
    }

    pub fn is_known_one(&self) -> (r: bool)
        ensures
            r == self@.is_one(),
    {
        self.is_number(T::one())
    }

    pub fn is_known_minus_one(&self) -> (r: bool)
        ensures
            r == self@.is_minus_one(T::order()),
    {
        proof {
            T::lemma_order();
            vstd::arithmetic::div_mod::lemma_mod_add_multiples_vanish(-1, T::order());
            lemma_small(T::order(), T::order() - 1);
        }
        self.is_number(T::one().neg())
    }

    /// Whether the range constraint excludes zero.
    pub fn is_known_nonzero(&self) -> (r: bool)
        ensures
            r == self@.is_nonzero(T::order()),
    {
        !self.range_constraint().allows_value(T::zero())
    }

    /// The range constraint on the value of the expression.
    pub fn range_constraint(&self) -> (r: RangeConstraint<T>)
        ensures
            r@ == self@.range(T::order()),
        decreases self,
    {
        match self {
            SymbolicExpression::Concrete(n) => RangeConstraint::from_value(*n),
            SymbolicExpression::Symbol(_, rc) => *rc,
            SymbolicExpression::BinaryOperation(l, BinaryOperator::Add, r) => {
                l.range_constraint().combine_sum(&r.range_constraint())
            },
            SymbolicExpression::BinaryOperation(_, _, _) => RangeConstraint::unconstrained(),
            SymbolicExpression::Negation(e) => e.range_constraint().negate(),
        }
    }

    /// The sum, simplified.
    pub fn add(&self, other: &Self) -> (r: Self)
        ensures
            r@ == self@.plus(T::order(), other@),
    {
        if self.is_known_zero() {
            other.duplicate()
        } else if other.is_known_zero() {
            self.duplicate()
        } else {
            match (self.try_to_number(), other.try_to_number()) {
                (Some(a), Some(b)) => SymbolicExpression::Concrete(a.add(b)),
                _ => SymbolicExpression::BinaryOperation(
                    Box::new(self.duplicate()),
                    BinaryOperator::Add,
                    Box::new(other.duplicate()),
                ),
            }
        }
    }

    /// The negation, simplified.
    pub fn neg(&self) -> (r: Self)
        ensures
            r@ == self@.negated(T::order()),
    {
        match self {
            SymbolicExpression::Concrete(n) => SymbolicExpression::Concrete(n.neg()),
            SymbolicExpression::Negation(e) => match e.try_to_number() {
                None => e.duplicate(),
                Some(_) => SymbolicExpression::Negation(Box::new(self.duplicate())),
            },
            _ => SymbolicExpression::Negation(Box::new(self.duplicate())),
        }
    }

    /// The product, simplified.
    pub fn mul(&self, other: &Self) -> (r: Self)
        ensures
            r@ == self@.times(T::order(), other@),
    {
        match (self.try_to_number(), other.try_to_number()) {
            (Some(a), Some(b)) => SymbolicExpression::Concrete(a.mul(b)),
            _ => if self.is_known_zero() || other.is_known_zero() {
                SymbolicExpression::Concrete(T::zero())
            } else if self.is_known_one() {
                other.duplicate()
            } else if other.is_known_one() {
                self.duplicate()
            } else if self.is_known_minus_one() {
                other.neg()
            } else if other.is_known_minus_one() {
                self.neg()
            } else {
                SymbolicExpression::BinaryOperation(
                    Box::new(self.duplicate()),
                    BinaryOperator::Mul,
                    Box::new(other.duplicate()),
                )
            },
        }
    }

    /// The quotient in the field, simplified.
    pub fn field_div(&self, other: &Self) -> (r: Self)
        ensures
            r@ == self@.over(T::order(), other@),
    {
        if !other.is_known_zero() {
            match (self.try_to_number(), other.try_to_number()) {
                (Some(a), Some(b)) => {
                    return SymbolicExpression::Concrete(a.div(b));
                },
                _ => {},
            }
            if self.is_known_zero() {
                return SymbolicExpression::Concrete(T::zero());
            }
            if other.is_known_one() {
                return self.duplicate();
            }
            if other.is_known_minus_one() {
                return self.neg();
            }
        }
        SymbolicExpression::BinaryOperation(
            Box::new(self.duplicate()),
            BinaryOperator::Div,
            Box::new(other.duplicate()),
        )
    }

    fn compute_updated(&self, update: &VariableUpdate<T, V>) -> (r: Self)
        ensures
            r@ == self@.updated(T::order(), update.variable@, update.range_constraint@),
        decreases self,
    {
        match self {
            SymbolicExpression::Concrete(n) => SymbolicExpression::Concrete(*n),
            SymbolicExpression::Symbol(v, rc) => match v.compare(&update.variable) {
                Comparison::Equal => SymbolicExpression::from_symbol(
                    v.duplicate(),
                    update.range_constraint,
                ),
                _ => SymbolicExpression::Symbol(v.duplicate(), *rc),
            },
            SymbolicExpression::BinaryOperation(a, op, b) => {
                let l = a.compute_updated(update);
                let r = b.compute_updated(update);
                match op {
                    BinaryOperator::Add => l.add(&r),
                    BinaryOperator::Mul => l.mul(&r),
                    BinaryOperator::Div => l.field_div(&r),
                }
            },
            SymbolicExpression::Negation(e) => e.compute_updated(update).neg(),
        }
    }

    /// Takes in a new range constraint for a variable.
    pub fn apply_update(&mut self, update: &VariableUpdate<T, V>)
        ensures
            final(self)@ == old(self)@.updated(
                T::order(),
                update.variable@,
                update.range_constraint@,
            ),
    {
        *self = self.compute_updated(update);
    }

    /// The symbols of the expression, in order and as often as they occur.
    pub fn referenced_symbols(&self) -> (r: Vec<&V>)
        ensures
            views(r@) == self@.symbols(),
        decreases self,
    {
        match self {
            SymbolicExpression::Concrete(_) => {
                let r: Vec<&V> = Vec::new();
                assert(views(r@) =~= Seq::empty());
                r
            },
            SymbolicExpression::Symbol(v, _) => {
                let mut r: Vec<&V> = Vec::new();
                r.push(v);
                assert(views(r@) =~= seq![v@]);
                r
            },
            SymbolicExpression::BinaryOperation(a, _, b) => {
                let mut r: Vec<&V> = a.referenced_symbols();
                let mut s: Vec<&V> = b.referenced_symbols();
                let ghost first = r@;
                let ghost second = s@;
                r.append(&mut s);
                assert(views(r@) =~= views(first) + views(second));
                r
            },
            SymbolicExpression::Negation(e) => e.referenced_symbols(),
        }
    }

    /// Prints the expression.
    pub fn to_string(&self) -> (r: String)
        ensures
            r@ == symbolic_text::<V>(T::order(), self@),
        decreases self,
    {
        match self {
            SymbolicExpression::Concrete(n) => {
                proof {
                    T::lemma_order();
                    n.lemma_val();
                }
                if n.is_in_lower_half() {
                    write_number(10, n.to_integer())
                } else {
                    let mut text = "-".to_owned();
                    text.append(write_number(10, T::modulus() - n.to_integer()).as_str());
                    text
                }
            },
            SymbolicExpression::Symbol(v, _) => v.display(),
            SymbolicExpression::BinaryOperation(l, op, r) => {
                let mut text = "(".to_owned();
                text.append(l.to_string().as_str());
                text.append(
                    match op {
                        BinaryOperator::Add => " + ",
                        BinaryOperator::Mul => " * ",
                        BinaryOperator::Div => " / ",
                    },
                );
                text.append(r.to_string().as_str());
                text.append(")");
                text
            },
            SymbolicExpression::Negation(e) => {
                let mut text = "-".to_owned();
                text.append(e.to_string().as_str());
                text
            },
        }
    }
}

/// An expression is the tree that it is built as.
pub proof fn lemma_tree<T: FieldElement, V: Variable>(e: SymbolicExpression<T, V>)
    ensures
        match e {
            SymbolicExpression::Concrete(n) => e@ == Symbolic::<V::V>::Concrete(n.val()),
            SymbolicExpression::Symbol(v, rc) => e@ == Symbolic::Symbol(v@, rc@),
            SymbolicExpression::BinaryOperation(l, op, r) => e@ == Symbolic::Binary(
                Box::new(l@),
                op,
                Box::new(r@),
            ),
            SymbolicExpression::Negation(x) => e@ == Symbolic::Negation(Box::new(x@)),
        },
{
}

impl<T: FieldElement, V: Variable> Clone for SymbolicExpression<T, V> {
    fn clone(&self) -> (r: Self)
        ensures
            r@ == self@,
    {
        self.duplicate()
    }
}

} // verus!
