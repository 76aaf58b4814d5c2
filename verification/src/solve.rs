//! Solving equations.
use itertools::Itertools;
use vstd::arithmetic::power2::*;
use vstd::bits::lemma_u64_shr_is_div;
use vstd::prelude::*;

use crate::bits::{lemma_exponent_bound, log2_exact};
use crate::decomposition::{
    bits_of, lemma_bits_small, lemma_decomposition, lemma_unshifted, negative_bits, unsigned,
};
use crate::effect::{
    component_views, Assertion, BitDecomposition, BitDecompositionComponent, Consequence, Effect,
};
use crate::field::{lemma_word_product, FieldElement};
use crate::linear::listing;
use crate::modular::{lemma_congruent_add, lemma_congruent_mod, lemma_small};
use crate::quadratic::Quadratic;
use crate::quadratic_symbolic_expression::QuadraticSymbolicExpression;
use crate::range_constraint::{Range, RangeConstraint};
use crate::solution::{
    affine_solution, aligned, assignments, by_exponent, candidate, candidates, components, covered,
    decomposable, decomposes, decomposition, division, fits, magnitude, mask_of, may_wrap, optional,
    separate, solution, sum_of_others, transferred, unshifted, widest, Candidate, Error, Solution,
};
use crate::sorting::{
    lemma_is_sorted, lemma_sorted_all, lemma_sorted_mapped, ordered, same_by_key, sorted_by,
};
use crate::symbolic_expression::{Symbolic, SymbolicExpression};
use crate::variable::Variable;

verus! {

/// The effects of an equation that were found, and whether they say everything about it.
#[derive(Debug)]
pub struct ProcessResult<T: FieldElement, V: Variable> {
    pub effects: Vec<Effect<T, V>>,
    pub complete: bool,
}

/// What a list of effects is.
pub open spec fn effect_views<T: FieldElement, V: Variable>(s: Seq<Effect<T, V>>) -> Seq<
    Consequence<V::V>,
> {
    s.map_values(|e: Effect<T, V>| e@)
}

impl<T: FieldElement, V: Variable> View for ProcessResult<T, V> {
    type V = Solution<V::V>;

    open spec fn view(&self) -> Solution<V::V> {
        Solution { effects: effect_views(self.effects@), complete: self.complete }
    }
}

impl<T: FieldElement, V: Variable> ProcessResult<T, V> {
    /// No effects, and not complete.
    pub fn empty() -> (r: Self)
        ensures
            r@ == Solution::<V::V>::nothing(),
    {
        let effects: Vec<Effect<T, V>> = Vec::new();
        assert(effect_views(effects@) =~= Seq::empty());
        ProcessResult { effects, complete: false }
    }

    /// These effects, which say everything.
    pub fn complete(effects: Vec<Effect<T, V>>) -> (r: Self)
        ensures
            r@ == Solution::all(effect_views(effects@)),
    {
        ProcessResult { effects, complete: true }
    }
}

impl<T: FieldElement, V: Variable> Default for ProcessResult<T, V> {
    fn default() -> (r: Self)
        ensures
            r@ == Solution::<V::V>::nothing(),
    {
        ProcessResult::empty()
    }
}

/// What an effect that may be missing is.
spec fn optional_view<T: FieldElement, V: Variable>(e: Option<Effect<T, V>>) -> Option<
    Consequence<V::V>,
> {
    match e {
        Some(e) => Some(e@),
        None => None,
    }
}

/// What a result is.
pub open spec fn result_view<T: FieldElement, V: Variable>(
    r: Result<ProcessResult<T, V>, Error>,
) -> Result<Solution<V::V>, Error> {
    match r {
        Ok(s) => Ok(s@),
        Err(e) => Err(e),
    }
}

/// What a list of range constraints is.
pub open spec fn range_views<T: FieldElement>(s: Seq<RangeConstraint<T>>) -> Seq<Range> {
    s.map_values(|r: RangeConstraint<T>| r@)
}

/// Knows the range constraints of unknown variables.
pub trait RangeConstraintProvider<T: FieldElement, V: Variable> {
    fn get(&self, var: &V) -> RangeConstraint<T>;
}

/// A linear term as a part of a bit decomposition.
struct Part<T: FieldElement, V: Variable> {
    variable: V,
    range: RangeConstraint<T>,
    is_negative: bool,
    /// The power of two that the variable is multiplied with.
    factor: T,
    exponent: u64,
}

impl<T: FieldElement, V: Variable> View for Part<T, V> {
    type V = Candidate<V::V>;

    closed spec fn view(&self) -> Candidate<V::V> {
        Candidate {
            variable: self.variable@,
            range: self.range@,
            is_negative: self.is_negative,
            exponent: self.exponent as nat,
        }
    }
}

/// The factor is the power of two with the exponent, and the exponent is one of a word.
spec fn part_wf<T: FieldElement, V: Variable>(part: Part<T, V>) -> bool {
    part.factor.val() == pow2(part.exponent as nat) && part.exponent < 64
}

spec fn exponent_key<T: FieldElement, V: Variable>() -> spec_fn(Part<T, V>) -> int {
    |c: Part<T, V>| c.exponent as int
}

spec fn part_views<T: FieldElement, V: Variable>(s: Seq<Part<T, V>>) -> Seq<Candidate<V::V>> {
    s.map_values(|c: Part<T, V>| c@)
}

/// Sorts by the exponent, through `Itertools::sorted_by_key` of the crate `itertools`. The
/// claim is that the exponents of the result do not descend and that the parts with the
/// same exponent are those of the argument, in the same order.
#[verifier::external_body]
fn sort_by_exponent<T: FieldElement, V: Variable>(parts: Vec<Part<T, V>>) -> (r: Vec<Part<T, V>>)
    ensures
        ordered(r@, exponent_key()),
        same_by_key(r@, parts@, exponent_key()),
{
    parts.into_iter().sorted_by_key(|c| c.exponent).collect()
}

/// Whether a number is zero, through `Zero::is_zero` of the crate `num_traits`. The claim
/// is that it returns true for zero and false for every other number.
#[verifier::external_body]
fn is_zero(n: u64) -> (r: bool)
    ensures
        r == (n == 0),
{
    num_traits::Zero::is_zero(&n)
}

proof fn lemma_separate_prefix<K>(p: int, s: Seq<Candidate<K>>, i: int)
    requires
        0 <= i <= s.len(),
        separate(p, s),
    ensures
        separate(p, s.take(i)),
    decreases s.len(),
{
    if i == s.len() {
        assert(s.take(i) =~= s);
    } else {
        lemma_separate_prefix(p, s.drop_last(), i);
        assert(s.drop_last().take(i) =~= s.take(i));
    }
}

impl<T: FieldElement, V: Variable> Part<T, V> {
    /// The linear term as a part, if its coefficient is a number that is a power of two up to
    /// the sign.
    fn new(
        variable: &V,
        coefficient: &SymbolicExpression<T, V>,
        range: RangeConstraint<T>,
    ) -> (r: Option<Self>)
        ensures
            match r {
                Some(part) => part_wf(part) && Some(part@) == candidate(
                    T::order(),
                    variable@,
                    coefficient@,
                    range@,
                ),
                None => candidate(T::order(), variable@, coefficient@, range@) is None,
            },
    {
        match coefficient.try_to_number() {
            None => None,
            Some(n) => {
                let is_negative: bool = !n.is_in_lower_half();
                let factor: T = if is_negative {
                    n.neg()
                } else {
                    n
                };
                assert(factor.val() == magnitude(T::order(), n.val()));
                match log2_exact(factor.to_integer()) {
                    None => None,
                    Some(exponent) => {
                        proof {
                            lemma_exponent_bound(factor.val() as u64);
                            T::lemma_order();
                            factor.lemma_val();
                        }
                        // The other side of the equation has the opposite sign.
                        Some(
                            Part {
                                variable: variable.duplicate(),
                                range,
                                is_negative: !is_negative,
                                factor,
                                exponent,
                            },
                        )
                    },
                }
            },
        }
    }

    /// The bits that the shifted variable can have.
    fn mask(&self) -> (r: u64)
        requires
            part_wf(*self),
        ensures
            r == mask_of(T::order(), self@),
    {
        self.range.multiple(self.factor).mask()
    }

    /// Whether some value of the range may reach the modulus when it is shifted.
    fn may_wrap(&self) -> (r: bool)
        requires
            part_wf(*self),
        ensures
            r == may_wrap(T::order(), self@),
    {
        let bound: u64 = self.range.upper_bound();
        proof {
            T::lemma_order();
            self.factor.lemma_val();
            lemma_word_product(bound as int, self.factor.val());
        }
        bound as u128 * self.factor.to_integer() as u128 >= T::modulus() as u128
    }

    /// The value of the variable that has these bits when it is shifted.
    fn unshift(&self, bits: u64) -> (r: T)
        requires
            part_wf(*self),
            bits < T::order(),
        ensures
            r.val() == unshifted(T::order(), bits, self@.exponent),
    {
        let factor: u64 = self.factor.to_integer();
        proof {
            T::lemma_order();
            self.factor.lemma_val();
            lemma_pow2_pos(self@.exponent);
            lemma_small(T::order(), bits as int);
            lemma_unshifted(T::order(), bits, self@.exponent);
        }
        if bits % factor == 0 {
            proof {
                lemma_u64_shr_is_div(bits, self.exponent);
                lemma_small(T::order(), unshifted(T::order(), bits, self@.exponent));
            }
            T::from_integer(bits >> self.exponent)
        } else {
            // The shifted value has wrapped.
            T::from_integer(bits).div(self.factor)
        }
    }

    /// The bits that the part has in an unsigned number.
    fn bits_in(&self, t: u64) -> (r: u64)
        requires
            part_wf(*self),
        ensures
            r == (if self@.is_negative {
                mask_of(T::order(), self@) & !t
            } else {
                mask_of(T::order(), self@) & t
            }),
    {
        if self.is_negative {
            self.mask() & !t
        } else {
            self.mask() & t
        }
    }
}

/// The number plus the bits of the negative parts: all parts have the same sign in it.
fn unsigned_number<T: FieldElement, V: Variable>(parts: &Vec<Part<T, V>>, number: T) -> (r: u64)
    requires
        forall|j: int| 0 <= j < parts@.len() ==> part_wf(#[trigger] parts@[j]),
    ensures
        r == unsigned(T::order(), part_views(parts@), number.val()),
{
    let ghost p = T::order();
    let ghost s = part_views(parts@);
    let n: usize = parts.len();
    let mut total: T = number;
    let mut i: usize = 0;
    proof {
        T::lemma_order();
        number.lemma_val();
        lemma_small(p, number.val());
        assert(s.take(0) =~= Seq::empty());
    }
    while i < n
        invariant
            i <= n,
            n == parts@.len(),
            p == T::order(),
            2 < p <= u64::MAX,
            s == part_views(parts@),
            forall|j: int| 0 <= j < parts@.len() ==> part_wf(#[trigger] parts@[j]),
            total.val() == (number.val() + negative_bits(p, s.take(i as int))) % p,
        decreases n - i,
    {
        let part = &parts[i];
        proof {
            let t = s.take(i + 1);
            assert(t.drop_last() =~= s.take(i as int));
            assert(t.last() == part@);
        }
        if part.is_negative {
            let mask: u64 = part.mask();
            proof {
                let sum = number.val() + negative_bits(p, s.take(i as int));
                lemma_congruent_mod(p, sum);
                lemma_congruent_mod(p, mask as int);
                lemma_congruent_add(p, sum % p, sum, mask as int % p, mask as int);
            }
            total = total.add(T::from_integer(mask));
        }
        i += 1;
    }
    proof {
        assert(s.take(n as int) =~= s);
        total.lemma_val();
    }
    total.to_integer()
}

/// The assignments of the parts whose signed sum is the number, if there are any.
fn assign_bits<T: FieldElement, V: Variable>(
    parts: &Vec<Part<T, V>>,
    covered_bits: u64,
    number: T,
) -> (r: Option<Vec<Effect<T, V>>>)
    requires
        forall|j: int| 0 <= j < parts@.len() ==> part_wf(#[trigger] parts@[j]),
        separate(T::order(), part_views(parts@)),
        covered_bits == covered(T::order(), part_views(parts@)),
        covered_bits < T::order(),
    ensures
        ({
            let s = part_views(parts@);
            match r {
                Some(effects) => {
                    &&& decomposable(T::order(), s, number.val())
                    &&& effect_views(effects@) == assignments(
                        T::order(),
                        s,
                        choose|bits: Seq<u64>| decomposes(T::order(), s, number.val(), bits),
                    )
                },
                None => !decomposable(T::order(), s, number.val()),
            }
        }),
{
    let ghost p = T::order();
    let ghost s = part_views(parts@);
    let n: usize = parts.len();
    let t: u64 = unsigned_number(parts, number);
    let ghost read = bits_of(p, s, t);
    proof {
        T::lemma_order();
        number.lemma_val();
        lemma_decomposition(p, s, number.val());
        assert(t & !covered_bits == 0 <==> t & covered_bits == t) by (bit_vector);
    }
    if !is_zero(t & !covered_bits) {
        return None;
    }
    let mut effects: Vec<Effect<T, V>> = Vec::new();
    let mut i: usize = 0;
    assert(effect_views(effects@) =~= assignments(p, s, read).take(0));
    while i < n
        invariant
            i <= n,
            n == parts@.len(),
            p == T::order(),
            2 < p <= u64::MAX,
            s == part_views(parts@),
            forall|j: int| 0 <= j < parts@.len() ==> part_wf(#[trigger] parts@[j]),
            covered(p, s) < p,
            read == bits_of(p, s, t),
            fits(p, s, read),
            decomposes(p, s, number.val(), read) <==> aligned(p, s, read),
            forall|bits: Seq<u64>| #[trigger]
                decomposes(p, s, number.val(), bits) ==> bits == read,
            forall|j: int|
                0 <= j < i ==> may_wrap(p, s[j]) || #[trigger] read[j] as int % (pow2(
                    s[j].exponent,
                ) as int) == 0,
            effect_views(effects@) == assignments(p, s, read).take(i as int),
        decreases n - i,
    {
        let part = &parts[i];
        let bits: u64 = part.bits_in(t);
        let factor: u64 = part.factor.to_integer();
        proof {
            assert(s[i as int] == part@);
            assert(read[i as int] == bits);
            lemma_pow2_pos(part.exponent as nat);
            lemma_bits_small(p, s, read, i as int);
        }
        if bits % factor != 0 && !part.may_wrap() {
            // Not the bits of a shifted value.
            assert(!aligned(p, s, read));
            return None;
        }
        let value: T = part.unshift(bits);
        let effect: Effect<T, V> = Effect::Assignment(
            part.variable.duplicate(),
            SymbolicExpression::from_number(value),
        );
        let ghost done = effects@;
        let ghost added = effect@;
        effects.push(effect);
        proof {
            assert(effect_views(effects@) =~= effect_views(done).push(added));
            let all = assignments(p, s, read);
            assert(all[i as int] == added);
            assert(all.take(i + 1) =~= all.take(i as int).push(added));
        }
        i += 1;
    }
    proof {
        assert(assignments(p, s, read).take(n as int) =~= assignments(p, s, read));
        assert(decomposes(p, s, number.val(), read));
    }
    Some(effects)
}

impl<T: FieldElement, V: Variable> QuadraticSymbolicExpression<T, V> {
    /// The linear terms as parts of a bit decomposition, if all can be.
    fn bit_parts(&self, ranges: &Vec<RangeConstraint<T>>) -> (r: Option<Vec<Part<T, V>>>)
        requires
            ranges@.len() == self@.linear.dom().len(),
        ensures
            ({
                let entries = listing::<V, Symbolic<V::V>>(self@.linear);
                match r {
                    Some(parts) => {
                        &&& candidates(T::order(), entries, range_views(ranges@)) == Some(
                            part_views(parts@),
                        )
                        &&& forall|i: int|
                            0 <= i < parts@.len() ==> part_wf(#[trigger] parts@[i])
                    },
                    None => candidates(T::order(), entries, range_views(ranges@)) is None,
                }
            }),
    {
        let linear = self.linear_terms();
        let n: usize = linear.len();
        let ghost p = T::order();
        let ghost entries = linear.entries();
        let ghost rs = range_views(ranges@);
        let mut parts: Vec<Part<T, V>> = Vec::new();
        let mut i: usize = 0;
        while i < n
            invariant
                i <= n,
                n == entries.len(),
                n == ranges@.len(),
                p == T::order(),
                entries == linear.entries(),
                entries == listing::<V, Symbolic<V::V>>(self@.linear),
                rs == range_views(ranges@),
                parts@.len() == i,
                forall|j: int|
                    #![trigger parts@[j]]
                    #![trigger entries[j]]
                    0 <= j < i ==> part_wf(parts@[j]) && Some(parts@[j]@) == candidate(
                        p,
                        entries[j].0,
                        entries[j].1,
                        rs[j],
                    ),
            decreases n - i,
        {
            assert(rs[i as int] == ranges@[i as int]@);
            match Part::new(linear.variable(i), linear.coefficient(i), ranges[i]) {
                None => {
                    assert(candidate(
                        p,
                        entries[i as int].0,
                        entries[i as int].1,
                        rs[i as int],
                    ) is None);
                    return None;
                },
                Some(part) => {
                    parts.push(part);
                },
            }
            i += 1;
        }
        proof {
            let all = Seq::new(
                entries.len(),
                |i: int| candidate(p, entries[i].0, entries[i].1, rs[i]).unwrap(),
            );
            assert forall|j: int| 0 <= j < n implies part_views(parts@)[j] == #[trigger] all[j] by {
                assert(Some(parts@[j]@) == candidate(p, entries[j].0, entries[j].1, rs[j]));
            }
            assert(part_views(parts@) =~= all);
        }
        Some(parts)
    }

    /// Tries to solve a bit-decomposition equation: reads the variables off the bits of the
    /// constant. If the constant is a number that the bits of the variables cannot add up to,
    /// the range constraints conflict.
    pub fn solve_bit_decomposition(&self, ranges: &Vec<RangeConstraint<T>>) -> (r: Result<
        ProcessResult<T, V>,
        Error,
    >)
        requires
            self@.quadratic.len() == 0,
            ranges@.len() == self@.linear.dom().len(),
        ensures
            result_view(r) == decomposition(
                T::order(),
                listing::<V, Symbolic<V::V>>(self@.linear),
                range_views(ranges@),
                self@.constant,
            ),
    {
        let ghost p = T::order();
        // All coefficients need to be known numbers.
        let unsorted: Vec<Part<T, V>> = match self.bit_parts(ranges) {
            None => {
                return Ok(ProcessResult::empty());
            },
            Some(parts) => parts,
        };
        let ghost before = unsorted@;
        let parts: Vec<Part<T, V>> = sort_by_exponent(unsorted);
        let ghost s = part_views(parts@);
        let n: usize = parts.len();
        proof {
            T::lemma_order();
            lemma_is_sorted(before, parts@, exponent_key());
            lemma_sorted_mapped(
                before,
                exponent_key(),
                |c: Part<T, V>| c@,
                |c: Candidate<V::V>| c.exponent as int,
            );
            assert(s == by_exponent(part_views(before)));
            lemma_parts_kept(before, parts@);
        }

        // Check if the parts are mutually exclusive.
        let mut covered_bits: u64 = 0;
        let mut found: Vec<BitDecompositionComponent<V>> = Vec::new();
        let mut i: usize = 0;
        proof {
            assert(s.take(0) =~= Seq::empty());
            assert(component_views(found@) =~= components(p, s.take(0)));
        }
        while i < n
            invariant
                i <= n,
                n == parts@.len(),
                p == T::order(),
                s == part_views(parts@),
                forall|j: int| 0 <= j < parts@.len() ==> part_wf(#[trigger] parts@[j]),
                Some(part_views(before)) == candidates(
                    p,
                    listing::<V, Symbolic<V::V>>(self@.linear),
                    range_views(ranges@),
                ),
                s == by_exponent(part_views(before)),
                covered_bits == covered(p, s.take(i as int)),
                separate(p, s.take(i as int)),
                component_views(found@) == components(p, s.take(i as int)),
            decreases n - i,
        {
            let part = &parts[i];
            let bit_mask: u64 = part.mask();
            proof {
                let t = s.take(i + 1);
                assert(t.drop_last() =~= s.take(i as int));
                assert(t.last() == part@);
                if separate(p, s) {
                    lemma_separate_prefix(p, s, i + 1);
                }
            }
            if !is_zero(bit_mask & covered_bits) {
                // Overlapping range constraints.
                return Ok(ProcessResult::empty());
            }
            covered_bits = covered_bits | bit_mask;
            let ghost done = found@;
            let component = BitDecompositionComponent {
                variable: part.variable.duplicate(),
                is_negative: part.is_negative,
                exponent: part.exponent,
                bit_mask,
            };
            let ghost added = component@;
            found.push(component);
            assert(component_views(found@) =~= component_views(done).push(added));
            assert(components(p, s.take(i + 1)) =~= components(p, s.take(i as int)).push(added));
            i += 1;
        }
        assert(s.take(n as int) =~= s);

        if covered_bits >= T::modulus() {
            return Ok(ProcessResult::empty());
        }
        match self.constant_term().try_to_number() {
            Some(number) => {
                // The constant is a known number, so there are concrete assignments.
                match assign_bits(&parts, covered_bits, number) {
                    Some(effects) => Ok(ProcessResult::complete(effects)),
                    None => Err(Error::ConflictingRangeConstraints),
                }
            },
            None => {
                let value = self.constant_term().clone();
                let effect: Effect<T, V> = Effect::BitDecomposition(
                    BitDecomposition { value, components: found },
                );
                let ghost added = effect@;
                let mut effects: Vec<Effect<T, V>> = Vec::new();
                effects.push(effect);
                assert(effect_views(effects@) =~= seq![added]);
                Ok(ProcessResult::complete(effects))
            },
        }
    }

    /// The last of the variables with the widest range among those that occur alone or
    /// negated.
    fn widest_variable(&self, ranges: &Vec<RangeConstraint<T>>) -> (r: Option<usize>)
        requires
            ranges@.len() == self@.linear.dom().len(),
        ensures
            ({
                let entries = listing::<V, Symbolic<V::V>>(self@.linear);
                match r {
                    Some(i) => i < entries.len() && widest(
                        T::order(),
                        entries,
                        range_views(ranges@),
                    ) == Some(i as int),
                    None => widest(T::order(), entries, range_views(ranges@)) is None,
                }
            }),
    {
        let linear = self.linear_terms();
        let n: usize = linear.len();
        let ghost p = T::order();
        let ghost entries = linear.entries();
        let ghost rs = range_views(ranges@);
        let mut best: Option<usize> = None;
        let mut i: usize = 0;
        assert(entries.take(0) =~= Seq::empty());
        while i < n
            invariant
                i <= n,
                n == entries.len(),
                n == ranges@.len(),
                p == T::order(),
                entries == linear.entries(),
                entries == listing::<V, Symbolic<V::V>>(self@.linear),
                rs == range_views(ranges@),
                match best {
                    Some(b) => b < i && widest(p, entries.take(i as int), rs) == Some(b as int),
                    None => widest(p, entries.take(i as int), rs) is None,
                },
            decreases n - i,
        {
            proof {
                let t = entries.take(i + 1);
                assert(t.drop_last() =~= entries.take(i as int));
                assert(t.last() == entries[i as int]);
                assert(rs[i as int] == ranges@[i as int]@);
            }
            let coefficient = linear.coefficient(i);
            if coefficient.is_known_one() || coefficient.is_known_minus_one() {
                let wider: bool = match best {
                    None => true,
                    Some(b) => {
                        assert(rs[b as int] == ranges@[b as int]@);
                        ranges[b].range_width() <= ranges[i].range_width()
                    },
                };
                if wider {
                    best = Some(i);
                }
            }
            i += 1;
        }
        assert(entries.take(n as int) =~= entries);
        best
    }

    /// The range constraint on the least constrained variable that follows from the
    /// constraints on all other terms of the equation.
    pub fn transfer_constraints(&self, ranges: &Vec<RangeConstraint<T>>) -> (r: Option<
        Effect<T, V>,
    >)
        requires
            self@.quadratic.len() == 0,
            ranges@.len() == self@.linear.dom().len(),
        ensures
            ({
                let t = transferred(
                    T::order(),
                    listing::<V, Symbolic<V::V>>(self@.linear),
                    range_views(ranges@),
                    self@.constant,
                );
                match r {
                    Some(effect) => t == Some(effect@),
                    None => t is None,
                }
            }),
    {
        // We are looking for X = a * Y + b * Z + ... or -X = a * Y + b * Z + ...
        // where X is least constrained.
        let solve_for: usize = match self.widest_variable(ranges) {
            None => {
                return None;
            },
            Some(i) => i,
        };
        let linear = self.linear_terms();
        let n: usize = linear.len();
        let ghost p = T::order();
        let ghost entries = linear.entries();
        let ghost rs = range_views(ranges@);
        // This only works if the coefficients are all known.
        let mut sum: Option<RangeConstraint<T>> = None;
        let mut i: usize = 0;
        assert(entries.take(0) =~= Seq::empty());
        while i < n
            invariant
                i <= n,
                n == entries.len(),
                n == ranges@.len(),
                solve_for < n,
                p == T::order(),
                entries == linear.entries(),
                entries == listing::<V, Symbolic<V::V>>(self@.linear),
                rs == range_views(ranges@),
                widest(p, entries, rs) == Some(solve_for as int),
                forall|j: int|
                    0 <= j < i && j != solve_for ==> (#[trigger] entries[j]).1.number() is Some,
                match sum {
                    Some(r) => sum_of_others(
                        p,
                        entries.take(i as int),
                        rs,
                        solve_for as int,
                    ) == Some(r@),
                    None => sum_of_others(p, entries.take(i as int), rs, solve_for as int) is None,
                },
            decreases n - i,
        {
            proof {
                let t = entries.take(i + 1);
                assert(t.drop_last() =~= entries.take(i as int));
                assert(t.last() == entries[i as int]);
                assert(rs[i as int] == ranges@[i as int]@);
            }
            if i != solve_for {
                match linear.coefficient(i).try_to_number() {
                    None => {
                        assert(entries[i as int].1.number() is None);
                        return None;
                    },
                    Some(number) => {
                        let summand = ranges[i].multiple(number);
                        sum =
                        Some(
                            match sum {
                                None => summand,
                                Some(r) => r.combine_sum(&summand),
                            },
                        );
                    },
                }
            }
            i += 1;
        }
        assert(entries.take(n as int) =~= entries);
        let last = self.constant_term().range_constraint();
        let total: RangeConstraint<T> = match sum {
            None => last,
            Some(r) => r.combine_sum(&last),
        };
        let constraint: RangeConstraint<T> = if linear.coefficient(solve_for).is_known_one() {
            total.negate()
        } else {
            total
        };
        Some(Effect::RangeConstraint(linear.variable(solve_for).duplicate(), constraint))
    }

    /// Solves an equation with linear terms only. Range constraints are needed if there is
    /// more than one unknown variable.
    pub fn solve_affine(&self, ranges: &Vec<RangeConstraint<T>>) -> (r: Result<
        ProcessResult<T, V>,
        Error,
    >)
        requires
            self@.quadratic.len() == 0,
            self@.linear.dom().len() != 1 ==> ranges@.len() == self@.linear.dom().len(),
        ensures
            result_view(r) == affine_solution::<V>(T::order(), self@, range_views(ranges@)),
    {
        let linear = self.linear_terms();
        let ghost p = T::order();
        if linear.len() == 1 {
            // Solve "coefficient * X + constant = 0" by division.
            let coefficient = linear.coefficient(0);
            let constant = self.constant_term();
            let mut effects: Vec<Effect<T, V>> = Vec::new();
            let nonzero: bool = coefficient.is_known_nonzero();
            if !nonzero {
                if !constant.is_known_nonzero() {
                    // In this case, we could have an equation of the form
                    // 0 * X = 0, which is valid and generates no information about X.
                    return Ok(ProcessResult::empty());
                }
                // If the offset is not zero, the coefficient must be non-zero, otherwise
                // the constraint is violated.
                effects.push(Assertion::assert_is_nonzero(coefficient.clone()));
            }
            let value = constant.field_div(&coefficient.neg());
            effects.push(Effect::Assignment(linear.variable(0).duplicate(), value));
            assert(effect_views(effects@) =~= division(
                p,
                linear.entries()[0].0,
                coefficient@,
                constant@,
            ).effects);
            Ok(ProcessResult::complete(effects))
        } else {
            // Solve an expression of the form `a * X + b * Y + ... + constant = 0`.
            let r = self.solve_bit_decomposition(ranges);
            match r {
                Err(e) => Err(e),
                Ok(s) => {
                    if s.complete {
                        return Ok(s);
                    }
                    let negated = self.compute_negated();
                    proof {
                        use_type_invariant(self);
                        assert(negated@.linear.dom() =~= self@.linear.dom());
                    }
                    let mut effects: Vec<Effect<T, V>> = Vec::new();
                    let first: Option<Effect<T, V>> = self.transfer_constraints(ranges);
                    let second: Option<Effect<T, V>> = negated.transfer_constraints(ranges);
                    let ghost a = optional(optional_view(first));
                    let ghost b = optional(optional_view(second));
                    if let Some(effect) = first {
                        effects.push(effect);
                    }
                    assert(effect_views(effects@) =~= a);
                    if let Some(effect) = second {
                        effects.push(effect);
                    }
                    assert(effect_views(effects@) =~= a + b);
                    Ok(ProcessResult { effects, complete: false })
                },
            }
        }
    }

    /// Solves the equation `self = 0`, given range constraints for the unknown variables of
    /// the linear terms in their order. They are needed if there are no quadratic terms and
    /// more than one linear term.
    pub fn solve_with(&self, ranges: &Vec<RangeConstraint<T>>) -> (r: Result<
        ProcessResult<T, V>,
        Error,
    >)
        requires
            needs_ranges(self@) ==> ranges@.len() == self@.linear.dom().len(),
        ensures
            result_view(r) == solution::<V>(T::order(), self@, range_views(ranges@)),
    {
        if self.is_quadratic() {
            Ok(ProcessResult::empty())
        } else if let Some(k) = self.try_to_known() {
            if k.is_known_nonzero() {
                Err(Error::ConstraintUnsatisfiable)
            } else {
                let effects: Vec<Effect<T, V>> = Vec::new();
                assert(effect_views(effects@) =~= Seq::empty());
                Ok(ProcessResult::complete(effects))
            }
        } else {
            proof {
                use_type_invariant(self);
                if self@.linear.dom().len() == 0 {
                    assert(self@.linear =~= Map::empty());
                }
            }
            self.solve_affine(ranges)
        }
    }

    /// Solves the equation `self = 0` and returns how to compute the solution.
    /// The solution can contain assignments to multiple variables.
    /// If no way to solve the equation (and no way to derive new range constraints) has been
    /// found, but it still contains unknown variables, returns an empty, incomplete result.
    /// If the equation is known to be unsolvable, returns an error.
    ///
    /// The result is that of [`Self::solve_with`] for what `range_constraints` says of the
    /// unknown variables of the linear terms. It is asked only if there are no quadratic terms
    /// and more than one linear term.
    pub fn solve<P: RangeConstraintProvider<T, V>>(&self, range_constraints: &P) -> (r: Result<
        ProcessResult<T, V>,
        Error,
    >)
        ensures
            needs_ranges(self@) ==> exists|ranges: Seq<Range>|
                #![trigger solution::<V>(T::order(), self@, ranges)]
                {
                    &&& answered::<T, V, P>(
                        range_constraints,
                        listing::<V, Symbolic<V::V>>(self@.linear),
                        ranges,
                    )
                    &&& result_view(r) == solution::<V>(T::order(), self@, ranges)
                },
            !needs_ranges(self@) ==> forall|ranges: Seq<Range>|
                result_view(r) == #[trigger] solution::<V>(T::order(), self@, ranges),
    {
        let linear = self.linear_terms();
        let n: usize = linear.len();
        let ghost entries = linear.entries();
        let mut ranges: Vec<RangeConstraint<T>> = Vec::new();
        if self.is_quadratic() || n <= 1 {
            let r = self.solve_with(&ranges);
            assert forall|other: Seq<Range>| result_view(r) == #[trigger] solution::<V>(
                T::order(),
                self@,
                other,
            ) by {
                assert(result_view(r) == solution::<V>(T::order(), self@, range_views(ranges@)));
            }
            return r;
        }
        let mut i: usize = 0;
        while i < n
            invariant
                i <= n,
                n == entries.len(),
                entries == linear.entries(),
                ranges@.len() == i,
                forall|j: int|
                    0 <= j < i ==> answer::<T, V, P>(
                        range_constraints,
                        (#[trigger] entries[j]).0,
                        ranges@[j]@,
                    ),
            decreases n - i,
        {
            let variable: &V = linear.variable(i);
            let range = range_constraints.get(variable);
            assert(call_ensures(P::get, (range_constraints, variable), range));
            assert(answer::<T, V, P>(range_constraints, variable@, range@));
            ranges.push(range);
            i += 1;
        }
        let ghost rs = range_views(ranges@);
        assert(answered::<T, V, P>(range_constraints, entries, rs));
        self.solve_with(&ranges)
    }
}

/// The range constraints of the unknown variables matter.
pub open spec fn needs_ranges<K>(q: Quadratic<K>) -> bool {
    q.quadratic.len() == 0 && q.linear.dom().len() > 1
}

/// The provider may give this range for the variable.
pub open spec fn answer<T: FieldElement, V: Variable, P: RangeConstraintProvider<T, V>>(
    provider: &P,
    k: V::V,
    range: Range,
) -> bool {
    exists|variable: &V, r: RangeConstraint<T>|
        variable@ == k && r@ == range && #[trigger] call_ensures(P::get, (provider, variable), r)
}

/// The ranges are what the provider may give for the variables of the linear terms.
pub open spec fn answered<T: FieldElement, V: Variable, P: RangeConstraintProvider<T, V>>(
    provider: &P,
    entries: Seq<(V::V, Symbolic<V::V>)>,
    ranges: Seq<Range>,
) -> bool {
    &&& ranges.len() == entries.len()
    &&& forall|i: int|
        0 <= i < entries.len() ==> answer::<T, V, P>(
            provider,
            (#[trigger] entries[i]).0,
            ranges[i],
        )
}

/// A result is its effects in their order and whether it is complete, or its error.
pub proof fn lemma_result_view<T: FieldElement, V: Variable>(r: Result<ProcessResult<T, V>, Error>)
    ensures
        match r {
            Ok(s) => {
                &&& result_view(r) is Ok
                &&& result_view(r)->Ok_0.complete == s.complete
                &&& result_view(r)->Ok_0.effects.len() == s.effects@.len()
                &&& forall|i: int|
                    0 <= i < s.effects@.len() ==> #[trigger] result_view(r)->Ok_0.effects[i]
                        == s.effects@[i]@
            },
            Err(e) => result_view(r) == Err::<Solution<V::V>, Error>(e),
        },
{
}

/// Lists of constraints and effects have what their elements are, in their places.
pub proof fn lemma_list_views<T: FieldElement, V: Variable>(
    ranges: Seq<RangeConstraint<T>>,
    effects: Seq<Effect<T, V>>,
    i: int,
)
    ensures
        range_views(ranges).len() == ranges.len(),
        0 <= i < ranges.len() ==> range_views(ranges)[i] == ranges[i]@,
        effect_views(effects).len() == effects.len(),
        0 <= i < effects.len() ==> effect_views(effects)[i] == effects[i]@,
{
}

/// Ranges are needed if there are no quadratic terms and more than one unknown variable. Those
/// that are used are what the provider says of each variable.
pub proof fn lemma_answers<T: FieldElement, V: Variable, P: RangeConstraintProvider<T, V>>(
    provider: &P,
    q: Quadratic<V::V>,
    ranges: Seq<Range>,
    says: spec_fn(V::V) -> Range,
    i: int,
)
    requires
        forall|v: &V, r: RangeConstraint<T>| #[trigger]
            call_ensures(P::get, (provider, v), r) ==> r@ == says(v@),
        answered::<T, V, P>(provider, listing::<V, Symbolic<V::V>>(q.linear), ranges),
        0 <= i < ranges.len(),
    ensures
        ranges.len() == listing::<V, Symbolic<V::V>>(q.linear).len(),
        ranges[i] == says(listing::<V, Symbolic<V::V>>(q.linear)[i].0),
        needs_ranges(q) <==> q.quadratic.len() == 0 && q.linear.dom().len() > 1,
{
    let entries = listing::<V, Symbolic<V::V>>(q.linear);
    assert(answer::<T, V, P>(provider, entries[i].0, ranges[i]));
}

/// Sorting moves parts around and leaves them as they are.
proof fn lemma_parts_kept<T: FieldElement, V: Variable>(
    before: Seq<Part<T, V>>,
    after: Seq<Part<T, V>>,
)
    requires
        after == sorted_by(before, exponent_key()),
        forall|i: int| 0 <= i < before.len() ==> part_wf(#[trigger] before[i]),
    ensures
        forall|i: int| 0 <= i < after.len() ==> part_wf(#[trigger] after[i]),
{
    lemma_sorted_all(before, exponent_key(), |c: Part<T, V>| part_wf(c));
}

} // verus!
