//! How equations are solved.
use vstd::arithmetic::power2::*;
use vstd::prelude::*;

use crate::bits::{exponent_of, submask};
use crate::effect::{Component, Consequence};
use crate::field::{field_neg, field_quotient};
use crate::linear::listing;
use crate::quadratic::Quadratic;
use crate::range_constraint::Range;
use crate::sorting::sorted_by;
use crate::symbolic_expression::Symbolic;
use crate::variable::Variable;

verus! {

/// Why an equation cannot be solved.
#[derive(Clone, Copy, Debug, PartialEq, Eq, Structural)]
pub enum Error {
    /// The range constraints of the parts do not cover the full constant sum.
    ConflictingRangeConstraints,
    /// An equality constraint evaluates to a known-nonzero value.
    ConstraintUnsatisfiable,
}

/// What solving an equation results in.
pub struct Solution<K> {
    pub effects: Seq<Consequence<K>>,
    pub complete: bool,
}

impl<K> Solution<K> {
    /// Nothing was found.
    pub open spec fn nothing() -> Solution<K> {
        Solution { effects: Seq::empty(), complete: false }
    }

    /// The effects say all there is to say.
    pub open spec fn all(effects: Seq<Consequence<K>>) -> Solution<K> {
        Solution { effects, complete: true }
    }
}

/// A variable whose coefficient is a power of two up to the sign. It is negative where it is
/// subtracted on the other side of the equation, which is where the coefficient is positive.
pub struct Candidate<K> {
    pub variable: K,
    pub range: Range,
    pub is_negative: bool,
    pub exponent: nat,
}

/// The absolute value of an element, with the upper half of the field negative.
pub open spec fn magnitude(p: int, n: int) -> int {
    if n <= (p - 1) / 2 {
        n
    } else {
        field_neg(p, n)
    }
}

/// The linear term as a part of a bit decomposition: the coefficient has to be a number that
/// is a power of two up to the sign.
pub open spec fn candidate<K>(p: int, k: K, c: Symbolic<K>, r: Range) -> Option<Candidate<K>> {
    match c.number() {
        None => None,
        Some(n) => match exponent_of(magnitude(p, n)) {
            None => None,
            Some(e) => Some(
                Candidate {
                    variable: k,
                    range: r,
                    is_negative: n <= (p - 1) / 2,
                    exponent: e,
                },
            ),
        },
    }
}

/// All linear terms as parts of a bit decomposition, if all can be.
pub open spec fn candidates<K>(
    p: int,
    entries: Seq<(K, Symbolic<K>)>,
    ranges: Seq<Range>,
) -> Option<Seq<Candidate<K>>> {
    if forall|i: int|
        0 <= i < entries.len() ==> candidate(
            p,
            (#[trigger] entries[i]).0,
            entries[i].1,
            ranges[i],
        ) is Some {
        Some(
            Seq::new(
                entries.len(),
                |i: int| candidate(p, entries[i].0, entries[i].1, ranges[i]).unwrap(),
            ),
        )
    } else {
        None
    }
}

/// The candidates by ascending exponent.
pub open spec fn by_exponent<K>(s: Seq<Candidate<K>>) -> Seq<Candidate<K>> {
    sorted_by(s, |c: Candidate<K>| c.exponent as int)
}

/// The bits that the shifted variable can have.
pub open spec fn mask_of<K>(p: int, c: Candidate<K>) -> u64 {
    c.range.multiple(p, pow2(c.exponent) as int).mask
}

/// The bits of all candidates.
pub open spec fn covered<K>(p: int, s: Seq<Candidate<K>>) -> u64
    decreases s.len(),
{
    if s.len() == 0 {
        0
    } else {
        covered(p, s.drop_last()) | mask_of(p, s.last())
    }
}

/// No bit belongs to two candidates.
pub open spec fn separate<K>(p: int, s: Seq<Candidate<K>>) -> bool
    decreases s.len(),
{
    s.len() > 0 ==> {
        &&& separate(p, s.drop_last())
        &&& mask_of(p, s.last()) & covered(p, s.drop_last()) == 0
    }
}

/// The sum of bits, with a minus sign where the candidate is negative.
pub open spec fn signed_total<K>(s: Seq<Candidate<K>>, bits: Seq<u64>) -> int
    decreases s.len(),
{
    if s.len() == 0 {
        0
    } else {
        signed_total(s.drop_last(), bits.drop_last()) + (if s.last().is_negative {
            -(bits.last() as int)
        } else {
            bits.last() as int
        })
    }
}

/// All bits lie in the masks of the candidates.
pub open spec fn fits<K>(p: int, s: Seq<Candidate<K>>, bits: Seq<u64>) -> bool {
    &&& bits.len() == s.len()
    &&& forall|i: int| 0 <= i < s.len() ==> submask(#[trigger] bits[i], mask_of(p, s[i]))
}

/// Some value of the range may reach the modulus when it is shifted.
pub open spec fn may_wrap<K>(p: int, c: Candidate<K>) -> bool {
    c.range.bound() * pow2(c.exponent) >= p
}

/// All bits are those of shifted values. A shifted value that wraps around the modulus can
/// have any bits.
pub open spec fn aligned<K>(p: int, s: Seq<Candidate<K>>, bits: Seq<u64>) -> bool {
    forall|i: int|
        0 <= i < s.len() ==> may_wrap(p, s[i]) || #[trigger] bits[i] as int % (pow2(
            s[i].exponent,
        ) as int) == 0
}

/// The bits are shifted values of the variables within the masks, and their signed sum is
/// the number.
pub open spec fn decomposes<K>(p: int, s: Seq<Candidate<K>>, n: int, bits: Seq<u64>) -> bool {
    &&& fits(p, s, bits)
    &&& aligned(p, s, bits)
    &&& signed_total(s, bits) % p == n
}

/// The number is a signed sum of shifted values of the variables within the masks.
pub open spec fn decomposable<K>(p: int, s: Seq<Candidate<K>>, n: int) -> bool {
    exists|bits: Seq<u64>| decomposes(p, s, n, bits)
}

/// The value that has these bits when it is shifted: the quotient in the field, which is that
/// of the integers where they divide.
pub open spec fn unshifted(p: int, bits: u64, exponent: nat) -> int {
    let f = pow2(exponent) as int;
    if bits as int % f == 0 {
        bits as int / f
    } else {
        field_quotient(p, bits as int, f)
    }
}

/// The assignments of the variables that have these bits when they are shifted.
pub open spec fn assignments<K>(p: int, s: Seq<Candidate<K>>, bits: Seq<u64>) -> Seq<
    Consequence<K>,
> {
    Seq::new(
        s.len(),
        |i: int|
            Consequence::Assignment(
                s[i].variable,
                Symbolic::Concrete(unshifted(p, bits[i], s[i].exponent)),
            ),
    )
}

/// The candidates as components of a bit decomposition.
pub open spec fn components<K>(p: int, s: Seq<Candidate<K>>) -> Seq<Component<K>> {
    s.map_values(
        |c: Candidate<K>|
            Component {
                variable: c.variable,
                is_negative: c.is_negative,
                exponent: c.exponent,
                bit_mask: mask_of(p, c),
            },
    )
}

/// Tries to read the variables off the bits of the constant. Where the masks are separate and
/// together below the modulus, a number is the sum of at most one choice of bits.
pub open spec fn decomposition<K>(
    p: int,
    entries: Seq<(K, Symbolic<K>)>,
    ranges: Seq<Range>,
    constant: Symbolic<K>,
) -> Result<Solution<K>, Error> {
    match candidates(p, entries, ranges) {
        None => Ok(Solution::nothing()),
        Some(unsorted) => {
            let s = by_exponent(unsorted);
            if !separate(p, s) || covered(p, s) >= p {
                Ok(Solution::nothing())
            } else {
                match constant.number() {
                    Some(n) => if decomposable(p, s, n) {
                        let bits = choose|bits: Seq<u64>| decomposes(p, s, n, bits);
                        Ok(Solution::all(assignments(p, s, bits)))
                    } else {
                        Err(Error::ConflictingRangeConstraints)
                    },
                    None => Ok(
                        Solution::all(
                            seq![Consequence::BitDecomposition(constant, components(p, s))],
                        ),
                    ),
                }
            }
        },
    }
}

/// The last of the variables with the widest range among those that occur alone or negated.
pub open spec fn widest<K>(
    p: int,
    entries: Seq<(K, Symbolic<K>)>,
    ranges: Seq<Range>,
) -> Option<int>
    decreases entries.len(),
{
    if entries.len() == 0 {
        None
    } else {
        let n = entries.len() - 1;
        let best = widest(p, entries.drop_last(), ranges);
        let c = entries.last().1;
        if (c.is_one() || c.is_minus_one(p)) && (best matches Some(b) ==> ranges[b].width(p)
            <= ranges[n].width(p)) {
            Some(n)
        } else {
            best
        }
    }
}

/// The constraint on the sum of all terms but one, unless that is the only one.
pub open spec fn sum_of_others<K>(
    p: int,
    entries: Seq<(K, Symbolic<K>)>,
    ranges: Seq<Range>,
    skip: int,
) -> Option<Range>
    decreases entries.len(),
{
    if entries.len() == 0 {
        None
    } else {
        let n = entries.len() - 1;
        let rest = sum_of_others(p, entries.drop_last(), ranges, skip);
        if n == skip {
            rest
        } else {
            let last = ranges[n].multiple(p, entries.last().1.number().unwrap());
            match rest {
                None => Some(last),
                Some(r) => Some(r.sum(p, last)),
            }
        }
    }
}

/// The constraint on all terms but one, together with the constant.
pub open spec fn sum_with_constant<K>(
    p: int,
    entries: Seq<(K, Symbolic<K>)>,
    ranges: Seq<Range>,
    skip: int,
    constant: Symbolic<K>,
) -> Range {
    match sum_of_others(p, entries, ranges, skip) {
        None => constant.range(p),
        Some(r) => r.sum(p, constant.range(p)),
    }
}

/// All coefficients but one are numbers.
pub open spec fn other_numbers<K>(entries: Seq<(K, Symbolic<K>)>, skip: int) -> bool {
    forall|i: int|
        0 <= i < entries.len() && i != skip ==> (#[trigger] entries[i]).1.number() is Some
}

/// The range constraint on the least constrained variable that follows from the constraints
/// on all other terms.
pub open spec fn transferred<K>(
    p: int,
    entries: Seq<(K, Symbolic<K>)>,
    ranges: Seq<Range>,
    constant: Symbolic<K>,
) -> Option<Consequence<K>> {
    match widest(p, entries, ranges) {
        None => None,
        Some(j) => if other_numbers(entries, j) {
            let sum = sum_with_constant(p, entries, ranges, j, constant);
            let r = if entries[j].1.is_one() {
                sum.negation(p)
            } else {
                sum
            };
            Some(Consequence::RangeConstraint(entries[j].0, r))
        } else {
            None
        },
    }
}

/// An effect that may be missing, as a list.
pub open spec fn optional<K>(c: Option<Consequence<K>>) -> Seq<Consequence<K>> {
    match c {
        None => Seq::empty(),
        Some(c) => seq![c],
    }
}

/// Solves `c * X + constant = 0`.
pub open spec fn division<K>(p: int, k: K, c: Symbolic<K>, constant: Symbolic<K>) -> Solution<K> {
    let value = constant.over(p, c.negated(p));
    if c.is_nonzero(p) {
        Solution::all(seq![Consequence::Assignment(k, value)])
    } else if constant.is_nonzero(p) {
        Solution::all(
            seq![
                Consequence::Assertion(c, Symbolic::Concrete(0), false),
                Consequence::Assignment(k, value),
            ],
        )
    } else {
        Solution::nothing()
    }
}

/// Solves an equation without quadratic terms for its unknown variables.
pub open spec fn affine_solution<V: Variable>(
    p: int,
    q: Quadratic<V::V>,
    ranges: Seq<Range>,
) -> Result<Solution<V::V>, Error> {
    let entries = listing::<V, Symbolic<V::V>>(q.linear);
    let opposite = q.negated(p);
    if entries.len() == 1 {
        Ok(division(p, entries[0].0, entries[0].1, q.constant))
    } else {
        match decomposition(p, entries, ranges, q.constant) {
            Err(e) => Err(e),
            Ok(s) => if s.complete {
                Ok(s)
            } else {
                Ok(
                    Solution {
                        effects: optional(transferred(p, entries, ranges, q.constant)) + optional(
                            transferred(
                                p,
                                listing::<V, Symbolic<V::V>>(opposite.linear),
                                ranges,
                                opposite.constant,
                            ),
                        ),
                        complete: false,
                    },
                )
            },
        }
    }
}

/// Solves the equation `q = 0`, given range constraints for the unknown variables of the
/// linear terms in their order.
pub open spec fn solution<V: Variable>(
    p: int,
    q: Quadratic<V::V>,
    ranges: Seq<Range>,
) -> Result<Solution<V::V>, Error> {
    if q.quadratic.len() > 0 {
        Ok(Solution::nothing())
    } else if q.is_known() {
        if q.constant.is_nonzero(p) {
            Err(Error::ConstraintUnsatisfiable)
        } else {
            Ok(Solution::all(Seq::empty()))
        }
    } else {
        affine_solution::<V>(p, q, ranges)
    }
}

} // verus!
