//! Quadratic expressions in unknown variables with symbolically known coefficients.
use std::ops::{Add, AddAssign, Mul, MulAssign, Neg, Sub};

use vstd::prelude::*;
use vstd::string::*;

use crate::field::FieldElement;
use crate::linear::LinearTerms;
use crate::quadratic::{
    collapsed_sum, lemma_quadratic_known, lemma_quadratic_negated, lemma_quadratic_plus,
    lemma_quadratic_scaled, lemma_quadratic_times, lemma_quadratic_unknown, lemma_quadratic_updated,
    open_pairs, Quadratic,
};
use crate::range_constraint::RangeConstraint;
use crate::references::{
    constant_texts, entries_references, keys, pair_texts, pairs_references, pairs_unknowns,
    quadratic_text, references, term_text, unknowns,
};
use crate::symbolic_expression::{views, Symbolic, SymbolicExpression};
use crate::text::{join, texts};
use crate::variable::Variable;
use crate::variable_update::VariableUpdate;

verus! {

/// A symbolic expression in unknown variables of type `V` and (symbolically) known terms,
/// representing a sum of (super-)quadratic, linear and constant parts.
///
/// The quadratic terms are products of two expressions that have at least one unknown
/// each. The linear terms have the form `a * X`, where `a` is a (symbolically) known value
/// and `X` is an unknown variable. The constant term is a (symbolically) known value.
#[derive(Debug)]
pub struct QuadraticSymbolicExpression<T: FieldElement, V: Variable> {
    quadratic: Vec<(QuadraticSymbolicExpression<T, V>, QuadraticSymbolicExpression<T, V>)>,
    linear: LinearTerms<T, V>,
    constant: SymbolicExpression<T, V>,
}

impl<T: FieldElement, V: Variable> View for QuadraticSymbolicExpression<T, V> {
    type V = Quadratic<V::V>;

    open spec fn view(&self) -> Quadratic<V::V> {
        self.model()
    }
}

/// All variables are zero.
spec fn zeros<K>() -> spec_fn(K) -> int {
    |k: K| 0int
}

/// What a list of products stands for.
spec fn pair_models<T: FieldElement, V: Variable>(
    pairs: Seq<(QuadraticSymbolicExpression<T, V>, QuadraticSymbolicExpression<T, V>)>,
) -> Seq<(Quadratic<V::V>, Quadratic<V::V>)> {
    Seq::new(pairs.len(), |i: int| (pairs[i].0@, pairs[i].1@))
}

impl<T: FieldElement, V: Variable> QuadraticSymbolicExpression<T, V> {
    /// The sum of terms that the expression is.
    pub closed spec fn model(self) -> Quadratic<V::V>
        decreases self,
    {
        Quadratic {
            quadratic: Seq::new(
                self.quadratic@.len(),
                |i: int|
                    if 0 <= i < self.quadratic@.len() {
                        (self.quadratic@[i].0.model(), self.quadratic@[i].1.model())
                    } else {
                        arbitrary()
                    },
            ),
            linear: self.linear@,
            constant: self.constant@,
        }
    }

    /// No coefficient is known to be zero, and all factors have unknown variables.
    #[verifier::type_invariant]
    pub open spec fn simplified(self) -> bool {
        self@.wf(T::order())
    }

    proof fn lemma_model(self)
        ensures
            self@.quadratic == pair_models(self.quadratic@),
            self@.linear == self.linear@,
            self@.constant == self.constant@,
    {
        assert(self@.quadratic =~= pair_models(self.quadratic@));
    }

    fn duplicate(&self) -> (r: Self)
        ensures
            r@ == self@,
        decreases self,
    {
        proof {
            use_type_invariant(self);
            self.lemma_model();
        }
        let mut quadratic: Vec<
            (QuadraticSymbolicExpression<T, V>, QuadraticSymbolicExpression<T, V>),
        > = Vec::new();
        let n: usize = self.quadratic.len();
        let mut i: usize = 0;
        while i < n
            invariant
                n == self.quadratic@.len(),
                i <= n,
                quadratic@.len() == i,
                forall|j: int|
                    #![trigger quadratic@[j]]
                    0 <= j < i ==> quadratic@[j].0@ == self.quadratic@[j].0@ && quadratic@[j].1@
                        == self.quadratic@[j].1@,
            decreases n - i,
        {
            assert(decreases_to!(self => self.quadratic@[i as int]));
            quadratic.push((self.quadratic[i].0.duplicate(), self.quadratic[i].1.duplicate()));
            i += 1;
        }
        assert(pair_models(quadratic@) =~= self@.quadratic);
        let linear = self.linear.clone();
        let constant = self.constant.clone();
        Self::assemble(quadratic, linear, constant)
    }

    /// Puts the parts together.
    fn assemble(
        quadratic: Vec<(QuadraticSymbolicExpression<T, V>, QuadraticSymbolicExpression<T, V>)>,
        linear: LinearTerms<T, V>,
        constant: SymbolicExpression<T, V>,
    ) -> (r: Self)
        requires
            (Quadratic {
                quadratic: pair_models(quadratic@),
                linear: linear@,
                constant: constant@,
            }).wf(T::order()),
        ensures
            r@ == (Quadratic {
                quadratic: pair_models(quadratic@),
                linear: linear@,
                constant: constant@,
            }),
    {
        let ghost q = Quadratic {
            quadratic: pair_models(quadratic@),
            linear: linear@,
            constant: constant@,
        };
        proof {
            let r = QuadraticSymbolicExpression { quadratic, linear, constant };
            r.lemma_model();
            assert(r@ == q);
        }
        QuadraticSymbolicExpression { quadratic, linear, constant }
    }

    /// A known symbol with its range constraint.
    pub fn from_known_symbol(symbol: V, rc: RangeConstraint<T>) -> (r: Self)
        ensures
            r@ == Quadratic::of_known(Symbolic::of_symbol(symbol@, rc@)),
    {
        Self::from(SymbolicExpression::from_symbol(symbol, rc))
    }

    /// An unknown variable.
    pub fn from_unknown_variable(var: V) -> (r: Self)
        ensures
            r@ == Quadratic::of_unknown(var@),
    {
        let ghost k = var@;
        let one = SymbolicExpression::from_number(T::one());
        let linear = LinearTerms::single(var, one);
        proof {
            T::lemma_order();
            lemma_quadratic_unknown(k, T::order(), zeros());
        }
        let quadratic: Vec<
            (QuadraticSymbolicExpression<T, V>, QuadraticSymbolicExpression<T, V>),
        > = Vec::new();
        assert(pair_models(quadratic@) =~= Quadratic::of_unknown(k).quadratic);
        Self::assemble(quadratic, linear, SymbolicExpression::from_number(T::zero()))
    }

    /// If this expression does not contain unknown variables, returns the symbolic
    /// expression.
    pub fn try_to_known(&self) -> (r: Option<&SymbolicExpression<T, V>>)
        ensures
            match r {
                Some(s) => self@.known() == Some(s@),
                None => self@.known() is None,
            },
    {
        if self.quadratic.len() == 0 && self.linear.len() == 0 {
            Some(&self.constant)
        } else {
            None
        }
    }

    /// Returns true if this expression contains at least one quadratic term.
    pub fn is_quadratic(&self) -> (r: bool)
        ensures
            r == (self@.quadratic.len() > 0),
    {
        self.quadratic.len() != 0
    }

    /// The linear terms.
    pub(crate) fn linear_terms(&self) -> (r: &LinearTerms<T, V>)
        ensures
            r@ == self@.linear,
    {
        &self.linear
    }

    /// The known part.
    pub(crate) fn constant_term(&self) -> (r: &SymbolicExpression<T, V>)
        ensures
            r@ == self@.constant,
    {
        &self.constant
    }

    fn compute_plus(&self, other: &Self) -> (r: Self)
        ensures
            r@ == self@.plus(T::order(), other@),
    {
        proof {
            use_type_invariant(self);
            use_type_invariant(other);
            self.lemma_model();
            other.lemma_model();
            T::lemma_order();
            lemma_quadratic_plus(self@, other@, T::order(), zeros());
        }
        let mut quadratic: Vec<
            (QuadraticSymbolicExpression<T, V>, QuadraticSymbolicExpression<T, V>),
        > = Vec::new();
        let n: usize = self.quadratic.len();
        let mut i: usize = 0;
        while i < n
            invariant
                n == self.quadratic@.len(),
                i <= n,
                quadratic@.len() == i,
                forall|j: int|
                    #![trigger quadratic@[j]]
                    0 <= j < i ==> quadratic@[j].0@ == self.quadratic@[j].0@ && quadratic@[j].1@
                        == self.quadratic@[j].1@,
            decreases n - i,
        {
            quadratic.push((self.quadratic[i].0.duplicate(), self.quadratic[i].1.duplicate()));
            i += 1;
        }
        let m: usize = other.quadratic.len();
        let mut i: usize = 0;
        while i < m
            invariant
                n == self.quadratic@.len(),
                m == other.quadratic@.len(),
                i <= m,
                quadratic@.len() == n + i,
                forall|j: int|
                    #![trigger quadratic@[j]]
                    0 <= j < n ==> quadratic@[j].0@ == self.quadratic@[j].0@ && quadratic@[j].1@
                        == self.quadratic@[j].1@,
                forall|j: int|
                    #![trigger quadratic@[j]]
                    n <= j < n + i ==> quadratic@[j].0@ == other.quadratic@[j - n].0@
                        && quadratic@[j].1@ == other.quadratic@[j - n].1@,
            decreases m - i,
        {
            quadratic.push((other.quadratic[i].0.duplicate(), other.quadratic[i].1.duplicate()));
            i += 1;
        }
        assert(pair_models(quadratic@) =~= self@.plus(T::order(), other@).quadratic);
        let linear = self.linear.plus(&other.linear);
        let constant = self.constant.add(&other.constant);
        Self::assemble(quadratic, linear, constant)
    }

    /// The negated expression.
    pub(crate) fn compute_negated(&self) -> (r: Self)
        ensures
            r@ == self@.negated(T::order()),
        decreases self,
    {
        proof {
            use_type_invariant(self);
            self.lemma_model();
            T::lemma_order();
            lemma_quadratic_negated(self@, T::order(), zeros());
        }
        let mut quadratic: Vec<
            (QuadraticSymbolicExpression<T, V>, QuadraticSymbolicExpression<T, V>),
        > = Vec::new();
        let n: usize = self.quadratic.len();
        let mut i: usize = 0;
        while i < n
            invariant
                n == self.quadratic@.len(),
                i <= n,
                quadratic@.len() == i,
                forall|j: int|
                    #![trigger quadratic@[j]]
                    0 <= j < i ==> quadratic@[j].0@ == self.quadratic@[j].0@.negated(T::order())
                        && quadratic@[j].1@ == self.quadratic@[j].1@,
            decreases n - i,
        {
            assert(decreases_to!(self => self.quadratic@[i as int]));
            quadratic.push(
                (self.quadratic[i].0.compute_negated(), self.quadratic[i].1.duplicate()),
            );
            i += 1;
        }
        assert(pair_models(quadratic@) =~= self@.negated(T::order()).quadratic);
        let linear = self.linear.negated();
        let constant = self.constant.neg();
        Self::assemble(quadratic, linear, constant)
    }

    fn compute_scaled(&self, factor: &SymbolicExpression<T, V>) -> (r: Self)
        ensures
            r@ == self@.scaled(T::order(), factor@),
        decreases self,
    {
        if factor.is_known_zero() {
            return Self::from(T::zero());
        }
        proof {
            use_type_invariant(self);
            self.lemma_model();
            factor.lemma_wf();
            T::lemma_order();
            lemma_quadratic_scaled(self@, factor@, T::order(), zeros());
        }
        let mut quadratic: Vec<
            (QuadraticSymbolicExpression<T, V>, QuadraticSymbolicExpression<T, V>),
        > = Vec::new();
        let n: usize = self.quadratic.len();
        let mut i: usize = 0;
        while i < n
            invariant
                n == self.quadratic@.len(),
                i <= n,
                quadratic@.len() == i,
                forall|j: int|
                    #![trigger quadratic@[j]]
                    0 <= j < i ==> quadratic@[j].0@ == self.quadratic@[j].0@.scaled(
                        T::order(),
                        factor@,
                    ) && quadratic@[j].1@ == self.quadratic@[j].1@,
            decreases n - i,
        {
            assert(decreases_to!(self => self.quadratic@[i as int]));
            quadratic.push(
                (self.quadratic[i].0.compute_scaled(factor), self.quadratic[i].1.duplicate()),
            );
            i += 1;
        }
        assert(pair_models(quadratic@) =~= self@.scaled(T::order(), factor@).quadratic);
        let linear = self.linear.scaled(factor);
        let constant = self.constant.mul(factor);
        Self::assemble(quadratic, linear, constant)
    }

    fn compute_updated(&self, update: &VariableUpdate<T, V>) -> (r: Self)
        ensures
            r@ == self@.updated(
                T::order(),
                update.variable@,
                update.known,
                update.range_constraint@,
            ),
        decreases self,
    {
        let ghost p = T::order();
        let ghost k = update.variable@;
        let ghost known = update.known;
        let ghost rc = update.range_constraint@;
        let ghost pairs = self@.updated_pairs(p, k, known, rc);
        proof {
            use_type_invariant(self);
            self.lemma_model();
            update.range_constraint.lemma_within();
            T::lemma_order();
            lemma_quadratic_updated(self@, p, k, known, rc, zeros());
        }
        let mut constant = self.constant.clone();
        constant.apply_update(update);
        let linear: LinearTerms<T, V> = match self.linear.find(&update.variable) {
            Some(i) => {
                if update.known {
                    let symbol = SymbolicExpression::from_symbol(
                        update.variable.duplicate(),
                        update.range_constraint,
                    );
                    constant = constant.add(&symbol.mul(self.linear.coefficient(i)));
                    self.linear.without(i)
                } else {
                    self.linear.clone()
                }
            },
            None => self.linear.updated(update).without_zeros(),
        };
        let mut quadratic: Vec<
            (QuadraticSymbolicExpression<T, V>, QuadraticSymbolicExpression<T, V>),
        > = Vec::new();
        let mut to_add: Self = Self::from(T::zero());
        let n: usize = self.quadratic.len();
        let mut i: usize = 0;
        proof {
            assert(pairs.take(0) =~= Seq::empty());
            assert(pair_models(quadratic@) =~= open_pairs(pairs.take(0)));
        }
        while i < n
            invariant
                n == self.quadratic@.len(),
                i <= n,
                p == T::order(),
                k == update.variable@,
                known == update.known,
                rc == update.range_constraint@,
                self@.quadratic == pair_models(self.quadratic@),
                pairs == self@.updated_pairs(p, k, known, rc),
                pair_models(quadratic@) == open_pairs(pairs.take(i as int)),
                to_add@ == collapsed_sum(p, pairs.take(i as int)),
            decreases n - i,
        {
            assert(decreases_to!(self => self.quadratic@[i as int]));
            let l = self.quadratic[i].0.compute_updated(update);
            let r = self.quadratic[i].1.compute_updated(update);
            let ghost before = quadratic@;
            proof {
                assert(pairs[i as int] == (l@, r@));
                let t = pairs.take(i + 1);
                assert(t.drop_last() =~= pairs.take(i as int));
                assert(t.last() == (l@, r@));
            }
            let product: Option<Self> = match (l.try_to_known(), r.try_to_known()) {
                (Some(a), Some(b)) => Some(Self::from(a.mul(b))),
                (Some(a), None) => Some(r.compute_scaled(a)),
                (None, Some(b)) => Some(l.compute_scaled(b)),
                (None, None) => None,
            };
            match product {
                Some(product) => {
                    to_add = to_add.compute_plus(&product);
                },
                None => {
                    quadratic.push((l, r));
                    assert(pair_models(quadratic@) =~= pair_models(before).push((l@, r@)));
                },
            }
            i += 1;
        }
        proof {
            assert(pairs.take(n as int) =~= pairs);
        }
        let base = Self::assemble(quadratic, linear, constant);
        let is_zero: bool = match to_add.try_to_known() {
            Some(known_sum) => known_sum.is_known_zero(),
            None => false,
        };
        if is_zero {
            base
        } else {
            base.compute_plus(&to_add)
        }
    }

    /// Takes in that a variable became known, or a new range constraint for it.
    pub fn apply_update(&mut self, var_update: &VariableUpdate<T, V>)
        ensures
            final(self)@ == old(self)@.updated(
                T::order(),
                var_update.variable@,
                var_update.known,
                var_update.range_constraint@,
            ),
    {
        *self = self.compute_updated(var_update);
    }

    /// Returns the referenced variables, both known and unknown, in the order in which they
    /// occur and as often as they occur.
    pub fn referenced_variables(&self) -> (r: Vec<&V>)
        ensures
            views(r@) == references::<V>(self@),
        decreases self,
    {
        proof {
            self.lemma_model();
        }
        let mut vars: Vec<&V> = Vec::new();
        let n: usize = self.quadratic.len();
        let mut i: usize = 0;
        assert(self@.quadratic.take(0) =~= Seq::empty());
        assert(views(vars@) =~= pairs_references::<V>(self@.quadratic.take(0)));
        while i < n
            invariant
                n == self.quadratic@.len(),
                i <= n,
                self@.quadratic == pair_models(self.quadratic@),
                views(vars@) == pairs_references::<V>(self@.quadratic.take(i as int)),
            decreases n - i,
        {
            assert(decreases_to!(self => self.quadratic@[i as int]));
            let ghost before = vars@;
            let mut first: Vec<&V> = self.quadratic[i].0.referenced_variables();
            let mut second: Vec<&V> = self.quadratic[i].1.referenced_variables();
            let ghost a = first@;
            let ghost b = second@;
            vars.append(&mut first);
            vars.append(&mut second);
            proof {
                let t = self@.quadratic.take(i + 1);
                assert(t.drop_last() =~= self@.quadratic.take(i as int));
                assert(t.last() == self@.quadratic[i as int]);
                assert(views(vars@) =~= views(before) + views(a) + views(b));
            }
            i += 1;
        }
        assert(self@.quadratic.take(n as int) =~= self@.quadratic);
        let m: usize = self.linear.len();
        let ghost entries = self.linear.entries();
        let mut j: usize = 0;
        assert(entries.take(0) =~= Seq::empty());
        assert(views(vars@) =~= pairs_references::<V>(self@.quadratic) + entries_references(
            entries.take(0),
        ));
        while j < m
            invariant
                m == entries.len(),
                j <= m,
                entries == self.linear.entries(),
                views(vars@) == pairs_references::<V>(self@.quadratic) + entries_references(
                    entries.take(j as int),
                ),
            decreases m - j,
        {
            let ghost before = vars@;
            let variable: &V = self.linear.variable(j);
            let mut symbols: Vec<&V> = self.linear.coefficient(j).referenced_symbols();
            let ghost a = symbols@;
            vars.push(variable);
            vars.append(&mut symbols);
            proof {
                let t = entries.take(j + 1);
                assert(t.drop_last() =~= entries.take(j as int));
                assert(t.last() == entries[j as int]);
                assert(views(vars@) =~= views(before) + seq![variable@] + views(a));
                assert(entries_references(t) =~= entries_references(entries.take(j as int))
                    + seq![variable@] + views(a));
                assert(views(vars@) =~= pairs_references::<V>(self@.quadratic)
                    + entries_references(t));
            }
            j += 1;
        }
        assert(entries.take(m as int) =~= entries);
        let ghost before = vars@;
        let mut symbols: Vec<&V> = self.constant.referenced_symbols();
        let ghost a = symbols@;
        vars.append(&mut symbols);
        assert(views(vars@) =~= views(before) + views(a));
        vars
    }

    /// Returns the referenced unknown variables, in the order in which they occur and as
    /// often as they occur.
    pub fn referenced_unknown_variables(&self) -> (r: Vec<&V>)
        ensures
            views(r@) == unknowns::<V>(self@),
        decreases self,
    {
        proof {
            self.lemma_model();
        }
        let mut vars: Vec<&V> = Vec::new();
        let n: usize = self.quadratic.len();
        let mut i: usize = 0;
        assert(self@.quadratic.take(0) =~= Seq::empty());
        assert(views(vars@) =~= pairs_unknowns::<V>(self@.quadratic.take(0)));
        while i < n
            invariant
                n == self.quadratic@.len(),
                i <= n,
                self@.quadratic == pair_models(self.quadratic@),
                views(vars@) == pairs_unknowns::<V>(self@.quadratic.take(i as int)),
            decreases n - i,
        {
            assert(decreases_to!(self => self.quadratic@[i as int]));
            let ghost before = vars@;
            let mut first: Vec<&V> = self.quadratic[i].0.referenced_unknown_variables();
            let mut second: Vec<&V> = self.quadratic[i].1.referenced_unknown_variables();
            let ghost a = first@;
            let ghost b = second@;
            vars.append(&mut first);
            vars.append(&mut second);
            proof {
                let t = self@.quadratic.take(i + 1);
                assert(t.drop_last() =~= self@.quadratic.take(i as int));
                assert(t.last() == self@.quadratic[i as int]);
                assert(views(vars@) =~= views(before) + views(a) + views(b));
            }
            i += 1;
        }
        assert(self@.quadratic.take(n as int) =~= self@.quadratic);
        let m: usize = self.linear.len();
        let ghost entries = self.linear.entries();
        let mut j: usize = 0;
        assert(views(vars@) =~= pairs_unknowns::<V>(self@.quadratic) + keys(entries).take(0));
        while j < m
            invariant
                m == entries.len(),
                j <= m,
                entries == self.linear.entries(),
                views(vars@) == pairs_unknowns::<V>(self@.quadratic) + keys(entries).take(
                    j as int,
                ),
            decreases m - j,
        {
            let ghost before = vars@;
            let variable: &V = self.linear.variable(j);
            vars.push(variable);
            proof {
                assert(views(vars@) =~= views(before).push(variable@));
                assert(keys(entries).take(j + 1) =~= keys(entries).take(j as int).push(
                    keys(entries)[j as int],
                ));
                assert(views(vars@) =~= pairs_unknowns::<V>(self@.quadratic) + keys(entries).take(
                    j + 1,
                ));
            }
            j += 1;
        }
        assert(keys(entries).take(m as int) =~= keys(entries));
        vars
    }

    /// Prints the expression.
    pub fn to_string(&self) -> (r: String)
        ensures
            r@ == quadratic_text::<V>(T::order(), self@),
        decreases self,
    {
        let ghost p = T::order();
        proof {
            self.lemma_model();
        }
        let mut parts: Vec<String> = Vec::new();
        let n: usize = self.quadratic.len();
        let mut i: usize = 0;
        assert(self@.quadratic.take(0) =~= Seq::empty());
        assert(texts(parts@) =~= pair_texts::<V>(p, self@.quadratic.take(0)));
        while i < n
            invariant
                n == self.quadratic@.len(),
                i <= n,
                p == T::order(),
                self@.quadratic == pair_models(self.quadratic@),
                texts(parts@) == pair_texts::<V>(p, self@.quadratic.take(i as int)),
            decreases n - i,
        {
            assert(decreases_to!(self => self.quadratic@[i as int]));
            let ghost before = parts@;
            let mut text = "(".to_owned();
            text.append(self.quadratic[i].0.to_string().as_str());
            text.append(") * (");
            text.append(self.quadratic[i].1.to_string().as_str());
            text.append(")");
            let ghost added = text@;
            parts.push(text);
            proof {
                let t = self@.quadratic.take(i + 1);
                assert(t.drop_last() =~= self@.quadratic.take(i as int));
                assert(t.last() == self@.quadratic[i as int]);
                assert(texts(parts@) =~= texts(before).push(added));
            }
            i += 1;
        }
        assert(self@.quadratic.take(n as int) =~= self@.quadratic);
        let m: usize = self.linear.len();
        let ghost entries = self.linear.entries();
        let ghost terms = entries.map_values(
            |e: (V::V, Symbolic<V::V>)| term_text::<V>(p, e.0, e.1),
        );
        let mut j: usize = 0;
        assert(texts(parts@) =~= pair_texts::<V>(p, self@.quadratic) + terms.take(0));
        while j < m
            invariant
                m == entries.len(),
                j <= m,
                p == T::order(),
                entries == self.linear.entries(),
                terms == entries.map_values(
                    |e: (V::V, Symbolic<V::V>)| term_text::<V>(p, e.0, e.1),
                ),
                texts(parts@) == pair_texts::<V>(p, self@.quadratic) + terms.take(j as int),
            decreases m - j,
        {
            let ghost before = parts@;
            let coefficient = self.linear.coefficient(j);
            let name: String = self.linear.variable(j).display();
            let text: String = if coefficient.is_known_one() {
                name
            } else if coefficient.is_known_minus_one() {
                let mut text = "-".to_owned();
                text.append(name.as_str());
                text
            } else {
                let mut text = coefficient.to_string();
                text.append(" * ");
                text.append(name.as_str());
                text
            };
            let ghost added = text@;
            parts.push(text);
            proof {
                assert(terms[j as int] == added);
                assert(texts(parts@) =~= texts(before).push(added));
                assert(terms.take(j + 1) =~= terms.take(j as int).push(added));
                assert(texts(parts@) =~= pair_texts::<V>(p, self@.quadratic) + terms.take(j + 1));
            }
            j += 1;
        }
        assert(terms.take(m as int) =~= terms);
        let ghost before = parts@;
        if !self.constant.is_known_zero() {
            let text: String = self.constant.to_string();
            let ghost added = text@;
            parts.push(text);
            assert(texts(parts@) =~= texts(before) + seq![added]);
        }
        assert(texts(parts@) =~= pair_texts::<V>(p, self@.quadratic) + terms
            + constant_texts::<V>(p, self.constant@));
        let formatted: String = join(&parts, " + ");
        if formatted.as_str().is_empty() {
            "0".to_owned()
        } else {
            formatted
        }
    }

    /// Negates the expression in place.
    fn negate(&mut self)
        ensures
            final(self)@ == old(self)@.negated(T::order()),
    {
        *self = self.compute_negated();
    }
}

impl<T: FieldElement, V: Variable> Clone for QuadraticSymbolicExpression<T, V> {
    fn clone(&self) -> (r: Self)
        ensures
            r@ == self@,
    {
        self.duplicate()
    }
}

impl<T: FieldElement, V: Variable> From<
    SymbolicExpression<T, V>,
> for QuadraticSymbolicExpression<T, V> {
    fn from(k: SymbolicExpression<T, V>) -> (r: Self)
        ensures
            r@ == Quadratic::of_known(k@),
    {
        let ghost s = k@;
        proof {
            T::lemma_order();
            k.lemma_wf();
            lemma_quadratic_known(s, T::order(), zeros());
        }
        let quadratic: Vec<
            (QuadraticSymbolicExpression<T, V>, QuadraticSymbolicExpression<T, V>),
        > = Vec::new();
        assert(pair_models(quadratic@) =~= Quadratic::of_known(s).quadratic);
        Self::assemble(quadratic, LinearTerms::new(), k)
    }
}

impl<T: FieldElement, V: Variable> vstd::std_specs::convert::FromSpecImpl<
    SymbolicExpression<T, V>,
> for QuadraticSymbolicExpression<T, V> {
    open spec fn obeys_from_spec() -> bool {
        false
    }

    open spec fn from_spec(k: SymbolicExpression<T, V>) -> Self {
        arbitrary()
    }
}

impl<T: FieldElement, V: Variable> From<T> for QuadraticSymbolicExpression<T, V> {
    fn from(k: T) -> (r: Self)
        ensures
            r@ == Quadratic::of_known(Symbolic::<V::V>::Concrete(k.val())),
    {
        Self::from(SymbolicExpression::<T, V>::from_number(k))
    }
}

impl<T: FieldElement, V: Variable> vstd::std_specs::convert::FromSpecImpl<T>
    for QuadraticSymbolicExpression<T, V>
{
    open spec fn obeys_from_spec() -> bool {
        false
    }

    open spec fn from_spec(k: T) -> Self {
        arbitrary()
    }
}

impl<T: FieldElement, V: Variable> Add for QuadraticSymbolicExpression<T, V> {
    type Output = QuadraticSymbolicExpression<T, V>;

    fn add(self, rhs: QuadraticSymbolicExpression<T, V>) -> (r: QuadraticSymbolicExpression<T, V>)
        ensures
            r@ == self@.plus(T::order(), rhs@),
    {
        let mut sum = self;
        sum.add_assign(rhs);
        sum
    }
}

impl<T: FieldElement, V: Variable> vstd::std_specs::ops::AddSpecImpl
    for QuadraticSymbolicExpression<T, V>
{
    open spec fn obeys_add_spec() -> bool {
        false
    }

    open spec fn add_req(self, rhs: QuadraticSymbolicExpression<T, V>) -> bool {
        true
    }

    open spec fn add_spec(
        self,
        rhs: QuadraticSymbolicExpression<T, V>,
    ) -> QuadraticSymbolicExpression<T, V> {
        arbitrary()
    }
}

impl<T: FieldElement, V: Variable> Add for &QuadraticSymbolicExpression<T, V> {
    type Output = QuadraticSymbolicExpression<T, V>;

    fn add(self, rhs: &QuadraticSymbolicExpression<T, V>) -> (r: QuadraticSymbolicExpression<T, V>)
        ensures
            r@ == self@.plus(T::order(), rhs@),
    {
        self.compute_plus(rhs)
    }
}

impl<T: FieldElement, V: Variable> vstd::std_specs::ops::AddSpecImpl
    for &QuadraticSymbolicExpression<T, V>
{
    open spec fn obeys_add_spec() -> bool {
        false
    }

    open spec fn add_req(self, rhs: &QuadraticSymbolicExpression<T, V>) -> bool {
        true
    }

    open spec fn add_spec(
        self,
        rhs: &QuadraticSymbolicExpression<T, V>,
    ) -> QuadraticSymbolicExpression<T, V> {
        arbitrary()
    }
}

impl<T: FieldElement, V: Variable> AddAssign<QuadraticSymbolicExpression<T, V>>
    for QuadraticSymbolicExpression<T, V>
{
    fn add_assign(&mut self, rhs: QuadraticSymbolicExpression<T, V>)
        ensures
            final(self)@ == old(self)@.plus(T::order(), rhs@),
    {
        *self = self.compute_plus(&rhs);
    }
}

impl<T: FieldElement, V: Variable> Sub for &QuadraticSymbolicExpression<T, V> {
    type Output = QuadraticSymbolicExpression<T, V>;

    fn sub(self, rhs: &QuadraticSymbolicExpression<T, V>) -> (r: QuadraticSymbolicExpression<T, V>)
        ensures
            r@ == self@.minus(T::order(), rhs@),
    {
        self.compute_plus(&rhs.compute_negated())
    }
}

impl<T: FieldElement, V: Variable> vstd::std_specs::ops::SubSpecImpl
    for &QuadraticSymbolicExpression<T, V>
{
    open spec fn obeys_sub_spec() -> bool {
        false
    }

    open spec fn sub_req(self, rhs: &QuadraticSymbolicExpression<T, V>) -> bool {
        true
    }

    open spec fn sub_spec(
        self,
        rhs: &QuadraticSymbolicExpression<T, V>,
    ) -> QuadraticSymbolicExpression<T, V> {
        arbitrary()
    }
}

impl<T: FieldElement, V: Variable> Sub for QuadraticSymbolicExpression<T, V> {
    type Output = QuadraticSymbolicExpression<T, V>;

    fn sub(self, rhs: QuadraticSymbolicExpression<T, V>) -> (r: QuadraticSymbolicExpression<T, V>)
        ensures
            r@ == self@.minus(T::order(), rhs@),
    {
        self.compute_plus(&rhs.compute_negated())
    }
}

impl<T: FieldElement, V: Variable> vstd::std_specs::ops::SubSpecImpl
    for QuadraticSymbolicExpression<T, V>
{
    open spec fn obeys_sub_spec() -> bool {
        false
    }

    open spec fn sub_req(self, rhs: QuadraticSymbolicExpression<T, V>) -> bool {
        true
    }

    open spec fn sub_spec(
        self,
        rhs: QuadraticSymbolicExpression<T, V>,
    ) -> QuadraticSymbolicExpression<T, V> {
        arbitrary()
    }
}

impl<T: FieldElement, V: Variable> Neg for QuadraticSymbolicExpression<T, V> {
    type Output = QuadraticSymbolicExpression<T, V>;

    fn neg(self) -> (r: QuadraticSymbolicExpression<T, V>)
        ensures
            r@ == self@.negated(T::order()),
    {
        let mut negated = self;
        negated.negate();
        negated
    }
}

impl<T: FieldElement, V: Variable> vstd::std_specs::ops::NegSpecImpl
    for QuadraticSymbolicExpression<T, V>
{
    open spec fn obeys_neg_spec() -> bool {
        false
    }

    open spec fn neg_req(self) -> bool {
        true
    }

    open spec fn neg_spec(self) -> QuadraticSymbolicExpression<T, V> {
        arbitrary()
    }
}

impl<T: FieldElement, V: Variable> Neg for &QuadraticSymbolicExpression<T, V> {
    type Output = QuadraticSymbolicExpression<T, V>;

    fn neg(self) -> (r: QuadraticSymbolicExpression<T, V>)
        ensures
            r@ == self@.negated(T::order()),
    {
        self.compute_negated()
    }
}

impl<T: FieldElement, V: Variable> vstd::std_specs::ops::NegSpecImpl
    for &QuadraticSymbolicExpression<T, V>
{
    open spec fn obeys_neg_spec() -> bool {
        false
    }

    open spec fn neg_req(self) -> bool {
        true
    }

    open spec fn neg_spec(self) -> QuadraticSymbolicExpression<T, V> {
        arbitrary()
    }
}

/// Multiplies by a known symbolic expression.
impl<T: FieldElement, V: Variable> Mul<&SymbolicExpression<T, V>>
    for QuadraticSymbolicExpression<T, V>
{
    type Output = QuadraticSymbolicExpression<T, V>;

    fn mul(self, rhs: &SymbolicExpression<T, V>) -> (r: QuadraticSymbolicExpression<T, V>)
        ensures
            r@ == self@.scaled(T::order(), rhs@),
    {
        let mut product = self;
        product.mul_assign(rhs);
        product
    }
}

impl<T: FieldElement, V: Variable> vstd::std_specs::ops::MulSpecImpl<&SymbolicExpression<T, V>>
    for QuadraticSymbolicExpression<T, V>
{
    open spec fn obeys_mul_spec() -> bool {
        false
    }

    open spec fn mul_req(self, rhs: &SymbolicExpression<T, V>) -> bool {
        true
    }

    open spec fn mul_spec(
        self,
        rhs: &SymbolicExpression<T, V>,
    ) -> QuadraticSymbolicExpression<T, V> {
        arbitrary()
    }
}

impl<T: FieldElement, V: Variable> Mul<SymbolicExpression<T, V>>
    for QuadraticSymbolicExpression<T, V>
{
    type Output = QuadraticSymbolicExpression<T, V>;

    fn mul(self, rhs: SymbolicExpression<T, V>) -> (r: QuadraticSymbolicExpression<T, V>)
        ensures
            r@ == self@.scaled(T::order(), rhs@),
    {
        self.compute_scaled(&rhs)
    }
}

impl<T: FieldElement, V: Variable> vstd::std_specs::ops::MulSpecImpl<SymbolicExpression<T, V>>
    for QuadraticSymbolicExpression<T, V>
{
    open spec fn obeys_mul_spec() -> bool {
        false
    }

    open spec fn mul_req(self, rhs: SymbolicExpression<T, V>) -> bool {
        true
    }

    open spec fn mul_spec(
        self,
        rhs: SymbolicExpression<T, V>,
    ) -> QuadraticSymbolicExpression<T, V> {
        arbitrary()
    }
}

impl<T: FieldElement, V: Variable> MulAssign<&SymbolicExpression<T, V>>
    for QuadraticSymbolicExpression<T, V>
{
    fn mul_assign(&mut self, rhs: &SymbolicExpression<T, V>)
        ensures
            final(self)@ == old(self)@.scaled(T::order(), rhs@),
    {
        *self = self.compute_scaled(rhs);
    }
}

impl<T: FieldElement, V: Variable> Mul for QuadraticSymbolicExpression<T, V> {
    type Output = QuadraticSymbolicExpression<T, V>;

    fn mul(self, rhs: QuadraticSymbolicExpression<T, V>) -> (r: QuadraticSymbolicExpression<T, V>)
        ensures
            r@ == self@.times(T::order(), rhs@),
    {
        proof {
            use_type_invariant(&self);
            use_type_invariant(&rhs);
            T::lemma_order();
            lemma_quadratic_times(self@, rhs@, T::order(), zeros());
        }
        if let Some(k) = rhs.try_to_known() {
            return self.compute_scaled(k);
        }
        if let Some(k) = self.try_to_known() {
            return rhs.compute_scaled(k);
        }
        let ghost a = self@;
        let ghost b = rhs@;
        let mut quadratic: Vec<
            (QuadraticSymbolicExpression<T, V>, QuadraticSymbolicExpression<T, V>),
        > = Vec::new();
        quadratic.push((self, rhs));
        assert(pair_models(quadratic@) =~= seq![(a, b)]);
        Self::assemble(
            quadratic,
            LinearTerms::new(),
            SymbolicExpression::from_number(T::zero()),
        )
    }
}

impl<T: FieldElement, V: Variable> vstd::std_specs::ops::MulSpecImpl
    for QuadraticSymbolicExpression<T, V>
{
    open spec fn obeys_mul_spec() -> bool {
        false
    }

    open spec fn mul_req(self, rhs: QuadraticSymbolicExpression<T, V>) -> bool {
        true
    }

    open spec fn mul_spec(
        self,
        rhs: QuadraticSymbolicExpression<T, V>,
    ) -> QuadraticSymbolicExpression<T, V> {
        arbitrary()
    }
}

} // verus!
