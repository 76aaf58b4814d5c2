//! What solving an equation leads to.
use vstd::arithmetic::power2::*;
use vstd::prelude::*;

use crate::bits::submask;
use crate::field::{field_mul, FieldElement};
use crate::range_constraint::{Range, RangeConstraint};
use crate::symbolic_expression::{Symbolic, SymbolicExpression};
use crate::variable::Variable;

verus! {

/// One part of a bit decomposition.
pub struct Component<K> {
    pub variable: K,
    pub is_negative: bool,
    pub exponent: nat,
    pub bit_mask: u64,
}

/// What an effect is.
pub enum Consequence<K> {
    Assignment(K, Symbolic<K>),
    BitDecomposition(Symbolic<K>, Seq<Component<K>>),
    RangeConstraint(K, Range),
    Assertion(Symbolic<K>, Symbolic<K>, bool),
}

/// The signed, shifted sum of the values of the components.
pub open spec fn components_sum<K>(components: Seq<Component<K>>, env: spec_fn(K) -> int) -> int
    decreases components.len(),
{
    if components.len() == 0 {
        0
    } else {
        let c = components.last();
        let shifted = pow2(c.exponent) * env(c.variable);
        components_sum(components.drop_last(), env) + (if c.is_negative {
            -shifted
        } else {
            shifted
        })
    }
}

/// One of the components is that of the variable.
pub open spec fn some_component<K>(components: Seq<Component<K>>, k: K) -> bool {
    exists|i: int| 0 <= i < components.len() && (#[trigger] components[i]).variable == k
}

impl<K> Consequence<K> {
    /// The effect holds under values for all variables. A bit decomposition holds if the
    /// value is the signed sum of the shifted components, each of which has only bits of
    /// its mask.
    pub open spec fn holds(self, p: int, env: spec_fn(K) -> int) -> bool {
        match self {
            Consequence::Assignment(k, s) => env(k) == s.value(p, env),
            Consequence::BitDecomposition(s, components) => {
                &&& s.value(p, env) == components_sum(components, env) % p
                &&& forall|i: int|
                    #![trigger components[i]]
                    0 <= i < components.len() ==> submask(
                        field_mul(
                            p,
                            env(components[i].variable),
                            pow2(components[i].exponent) as int,
                        ) as u64,
                        components[i].bit_mask,
                    )
            },
            Consequence::RangeConstraint(k, r) => r.allows(env(k)),
            Consequence::Assertion(a, b, expected_equal) => expected_equal == (a.value(p, env)
                == b.value(p, env)),
        }
    }

    /// The effect says something about the variable.
    pub open spec fn determines(self, k: K) -> bool {
        match self {
            Consequence::Assignment(v, _) => v == k,
            Consequence::BitDecomposition(_, components) => some_component(components, k),
            Consequence::RangeConstraint(v, _) => v == k,
            Consequence::Assertion(_, _, _) => false,
        }
    }
}

/// One part of a bit decomposition: the variable times the power of two, as an element of the
/// field, has only bits of the mask, and is subtracted if it is negative.
#[derive(Debug)]
pub struct BitDecompositionComponent<V> {
    pub variable: V,
    pub is_negative: bool,
    pub exponent: u64,
    pub bit_mask: u64,
}

impl<V: Variable> View for BitDecompositionComponent<V> {
    type V = Component<V::V>;

    open spec fn view(&self) -> Component<V::V> {
        Component {
            variable: self.variable@,
            is_negative: self.is_negative,
            exponent: self.exponent as nat,
            bit_mask: self.bit_mask,
        }
    }
}

/// The value is the signed sum of the shifted components.
#[derive(Debug)]
pub struct BitDecomposition<T, V> {
    pub value: SymbolicExpression<T, V>,
    pub components: Vec<BitDecompositionComponent<V>>,
}

/// A condition that has to hold.
#[derive(Debug)]
pub struct Assertion<T, V> {
    pub lhs: SymbolicExpression<T, V>,
    pub rhs: SymbolicExpression<T, V>,
    /// If this is true, the two sides have to be equal, otherwise they have to differ.
    pub expected_equal: bool,
}

/// What follows from an equation.
#[derive(Debug)]
pub enum Effect<T, V> {
    /// The variable has this value.
    Assignment(V, SymbolicExpression<T, V>),
    /// The variables are the bits of a value.
    BitDecomposition(BitDecomposition<T, V>),
    /// The variable satisfies this constraint.
    RangeConstraint(V, RangeConstraint<T>),
    /// The condition has to hold.
    Assertion(Assertion<T, V>),
}

/// What a list of components is.
pub open spec fn component_views<V: Variable>(s: Seq<BitDecompositionComponent<V>>) -> Seq<
    Component<V::V>,
> {
    s.map_values(|c: BitDecompositionComponent<V>| c@)
}

impl<T: FieldElement, V: Variable> View for Effect<T, V> {
    type V = Consequence<V::V>;

    open spec fn view(&self) -> Consequence<V::V> {
        match self {
            Effect::Assignment(v, s) => Consequence::Assignment(v@, s@),
            Effect::BitDecomposition(d) => Consequence::BitDecomposition(
                d.value@,
                component_views(d.components@),
            ),
            Effect::RangeConstraint(v, rc) => Consequence::RangeConstraint(v@, rc@),
            Effect::Assertion(a) => Consequence::Assertion(a.lhs@, a.rhs@, a.expected_equal),
        }
    }
}

/// A component is its variable, sign, exponent and mask.
pub proof fn lemma_component_view<V: Variable>(c: BitDecompositionComponent<V>)
    ensures
        c@.variable == c.variable@,
        c@.is_negative == c.is_negative,
        c@.exponent == c.exponent,
        c@.bit_mask == c.bit_mask,
{
}

/// An effect is what it says of its variables and expressions.
pub proof fn lemma_effect_view<T: FieldElement, V: Variable>(e: Effect<T, V>)
    ensures
        match e {
            Effect::Assignment(v, s) => e@ == Consequence::Assignment(v@, s@),
            Effect::BitDecomposition(d) => {
                &&& e@ is BitDecomposition
                &&& e@->BitDecomposition_0 == d.value@
                &&& e@->BitDecomposition_1.len() == d.components@.len()
                &&& forall|i: int|
                    0 <= i < d.components@.len() ==> #[trigger] e@->BitDecomposition_1[i]
                        == d.components@[i]@
            },
            Effect::RangeConstraint(v, rc) => e@ == Consequence::RangeConstraint(v@, rc@),
            Effect::Assertion(a) => e@ == Consequence::Assertion(
                a.lhs@,
                a.rhs@,
                a.expected_equal,
            ),
        },
{
}

impl<T: FieldElement, V: Variable> Assertion<T, V> {
    /// The condition that an expression is not zero.
    pub fn assert_is_nonzero(condition: SymbolicExpression<T, V>) -> (r: Effect<T, V>)
        ensures
            r@ == Consequence::Assertion(condition@, Symbolic::<V::V>::Concrete(0), false),
    {
        Effect::Assertion(
            Assertion {
                lhs: condition,
                rhs: SymbolicExpression::from_number(T::zero()),
                expected_equal: false,
            },
        )
    }
}

} // verus!
