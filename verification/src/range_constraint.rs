//! Constraints on the values that an expression can take.
use vstd::arithmetic::div_mod::*;
use vstd::arithmetic::mul::*;
use vstd::arithmetic::power2::*;
use vstd::prelude::*;
use vstd::string::*;

use crate::bits::{
    exponent_of, lemma_exponent_bound, lemma_low_mask_bound, lemma_low_mask_covers,
    lemma_shift_within, lemma_submask_le, lemma_sum_within, log2_exact, low_mask, low_mask_of,
    submask,
};
use crate::field::{
    field_add, field_mul, field_neg, lemma_field_congruent, lemma_word_product, FieldElement,
};
use crate::modular::{
    congruent, lemma_congruent_add, lemma_congruent_close, lemma_congruent_mod, lemma_congruent_mul,
    lemma_congruent_sub, lemma_small,
};
use crate::text::{numeral, write_number};

verus! {

/// The values with no bit outside `mask` that lie between `min` and `max`, both
/// included. Where `max` is below `min` the interval wraps around the modulus.
pub struct Range {
    pub mask: u64,
    pub min: int,
    pub max: int,
}

/// The value lies in the interval.
pub open spec fn in_interval(min: int, max: int, v: int) -> bool {
    if min <= max {
        min <= v <= max
    } else {
        v >= min || v <= max
    }
}

/// The number of values in an interval modulo `p`.
pub open spec fn interval_width(p: int, min: int, max: int) -> int {
    if (max + 1) % p == min {
        p
    } else {
        (max - min + 1) % p
    }
}

impl Range {
    /// Both bounds are elements of the field with `p` elements.
    pub open spec fn within(self, p: int) -> bool {
        &&& 0 <= self.min < p
        &&& 0 <= self.max < p
    }

    /// The value satisfies the constraint.
    pub open spec fn allows(self, v: int) -> bool {
        &&& in_interval(self.min, self.max, v)
        &&& submask(v as u64, self.mask)
    }

    /// No constraint at all.
    pub open spec fn unconstrained() -> Range {
        Range { mask: u64::MAX, min: 1, max: 0 }
    }

    /// Exactly one value.
    pub open spec fn of_value(v: int) -> Range {
        Range { mask: v as u64, min: v, max: v }
    }

    /// The values of an interval, with the narrowest mask of low bits.
    pub open spec fn of_interval(min: int, max: int) -> Range {
        Range {
            mask: if min <= max {
                low_mask(max as nat) as u64
            } else {
                u64::MAX
            },
            min,
            max,
        }
    }

    /// The values with no bits outside a mask.
    pub open spec fn of_mask(p: int, mask: u64) -> Range {
        Range {
            mask,
            min: 0,
            max: if mask < p {
                mask as int
            } else {
                p - 1
            },
        }
    }

    /// The only value allowed by the interval, if there is just one.
    pub open spec fn single_value(self) -> Option<int> {
        if self.min == self.max {
            Some(self.min)
        } else {
            None
        }
    }

    /// A number that no allowed value exceeds.
    pub open spec fn bound(self) -> int {
        if self.min <= self.max && self.max < self.mask {
            self.max
        } else {
            self.mask as int
        }
    }

    pub open spec fn width(self, p: int) -> int {
        interval_width(p, self.min, self.max)
    }

    /// The constraint on a sum.
    pub open spec fn sum(self, p: int, other: Range) -> Range {
        let fits = self.width(p) + other.width(p) <= p;
        Range {
            mask: if self.mask + other.mask >= p {
                u64::MAX
            } else {
                ((self.mask + other.mask) as u64) | self.mask | other.mask
            },
            min: if fits {
                field_add(p, self.min, other.min)
            } else {
                1
            },
            max: if fits {
                field_add(p, self.max, other.max)
            } else {
                0
            },
        }
    }

    /// The interval of a multiple, by repeated addition of the factor or of its negation.
    pub open spec fn multiple_interval(self, p: int, factor: int) -> (int, int) {
        if self.width(p) * factor <= p {
            (field_mul(p, self.min, factor), field_mul(p, self.max, factor))
        } else if self.width(p) * field_neg(p, factor) <= p {
            (field_mul(p, self.max, factor), field_mul(p, self.min, factor))
        } else {
            (1, 0)
        }
    }

    /// The constraint on a multiple.
    pub open spec fn multiple(self, p: int, factor: int) -> Range {
        let (min, max) = self.multiple_interval(p, factor);
        Range {
            mask: if exponent_of(factor) is Some && self.mask * factor < p {
                (self.mask * factor) as u64
            } else {
                Range::of_interval(min, max).mask
            },
            min,
            max,
        }
    }

    /// The constraint on the negation.
    pub open spec fn negation(self, p: int) -> Range {
        self.multiple(p, p - 1)
    }

    /// How the constraint is printed.
    pub open spec fn text(self) -> Seq<char> {
        "["@ + numeral(10, self.min as nat) + ", "@ + numeral(10, self.max as nat) + "] & 0x"@
            + numeral(16, self.mask as nat)
    }
}

/// The remainder of a number at most one modulus away.
pub proof fn lemma_wrap(p: int, x: int)
    requires
        p > 0,
        -p <= x < 2 * p,
    ensures
        x < 0 ==> x % p == x + p,
        0 <= x < p ==> x % p == x,
        p <= x ==> x % p == x - p,
{
    if x < 0 {
        lemma_mod_add_multiples_vanish(x, p);
        if x + p < p {
            lemma_small(p, x + p);
        }
    } else if x < p {
        lemma_small(p, x);
    } else {
        lemma_mod_sub_multiples_vanish(x, p);
        lemma_small(p, x - p);
    }
}

/// A value lies in an interval if it is less than the width away from the lower bound.
pub proof fn lemma_interval_distance(p: int, min: int, max: int, v: int)
    requires
        0 <= min < p,
        0 <= max < p,
        0 <= v < p,
    ensures
        in_interval(min, max, v) <==> (v - min) % p < interval_width(p, min, max),
{
    lemma_wrap(p, max + 1);
    lemma_wrap(p, max - min + 1);
    lemma_wrap(p, v - min);
}

/// An interval has at least one value, and its bounds are as far apart as its width says.
pub proof fn lemma_width(p: int, min: int, max: int)
    requires
        0 <= min < p,
        0 <= max < p,
    ensures
        1 <= interval_width(p, min, max) <= p,
        congruent(p, max - min, interval_width(p, min, max) - 1),
{
    lemma_wrap(p, max + 1);
    lemma_wrap(p, max - min + 1);
    lemma_wrap(p, max - min);
    lemma_wrap(p, interval_width(p, min, max) - 1);
}

/// The distance of the bounds determines the width.
pub proof fn lemma_width_unique(p: int, min: int, max: int, w: int)
    requires
        0 <= min < p,
        0 <= max < p,
        1 <= w <= p,
        congruent(p, max - min, w - 1),
    ensures
        interval_width(p, min, max) == w,
{
    lemma_width(p, min, max);
    lemma_congruent_close(p, interval_width(p, min, max) - 1, w - 1);
}

/// A value lies in an interval if it is `d` away from the lower bound and the upper
/// bound is at least as far away, without wrapping.
proof fn lemma_in_interval_by_distance(p: int, min: int, max: int, v: int, d: int, w: int)
    requires
        0 <= min < p,
        0 <= max < p,
        0 <= v < p,
        0 <= d < w <= p,
        congruent(p, max - min, w - 1),
        congruent(p, v - min, d),
    ensures
        in_interval(min, max, v),
{
    lemma_width_unique(p, min, max, w);
    lemma_interval_distance(p, min, max, v);
    lemma_small(p, d);
}

/// Every value is allowed where there is no constraint.
pub proof fn lemma_unconstrained_allows(v: int)
    requires
        0 <= v <= u64::MAX,
    ensures
        Range::unconstrained().allows(v),
{
    lemma_full_mask(v as u64);
}

proof fn lemma_full_mask(x: u64)
    ensures
        submask(x, u64::MAX),
{
    assert(x & 0xffff_ffff_ffff_ffff == x) by (bit_vector);
}

/// The mask of an interval covers the interval.
pub proof fn lemma_interval_mask(min: int, max: int, v: int)
    requires
        0 <= v <= u64::MAX,
        0 <= max <= u64::MAX,
        in_interval(min, max, v),
    ensures
        submask(v as u64, Range::of_interval(min, max).mask),
{
    lemma_full_mask(v as u64);
    if min <= max {
        lemma_low_mask_covers(v as u64, max as u64);
    }
}

/// A single value is all that the constraint to that value allows.
pub proof fn lemma_value_allows(v: int, w: int)
    requires
        0 <= v <= u64::MAX,
    ensures
        Range::of_value(v).allows(w) <==> v == w,
{
    let x = v as u64;
    assert(x & x == x) by (bit_vector);
}

/// The value of a constraint that has only one is the only value allowed.
pub proof fn lemma_single_value(r: Range, v: int)
    requires
        r.allows(v),
    ensures
        r.single_value() matches Some(w) ==> v == w,
{
}

/// No allowed value exceeds the bound.
pub proof fn lemma_bound(r: Range, v: int)
    requires
        0 <= v <= u64::MAX,
        r.allows(v),
    ensures
        v <= r.bound(),
{
    lemma_submask_le(v as u64, r.mask);
}

/// The sum of two allowed values is allowed by the constraint on the sum.
pub proof fn lemma_sum_allows(p: int, a: Range, b: Range, x: int, y: int)
    requires
        2 < p <= u64::MAX,
        a.within(p),
        b.within(p),
        0 <= x < p,
        0 <= y < p,
        a.allows(x),
        b.allows(y),
    ensures
        a.sum(p, b).allows(field_add(p, x, y)),
        a.sum(p, b).within(p),
{
    let s = a.sum(p, b);
    let v = field_add(p, x, y);
    lemma_field_congruent(p, x, y);
    lemma_field_congruent(p, a.min, b.min);
    lemma_field_congruent(p, a.max, b.max);
    lemma_full_mask(v as u64);
    if a.mask + b.mask < p {
        lemma_sum_within(x as u64, y as u64, a.mask, b.mask);
        lemma_small(p, x + y);
    }
    if a.width(p) + b.width(p) <= p {
        lemma_width(p, a.min, a.max);
        lemma_width(p, b.min, b.max);
        lemma_interval_distance(p, a.min, a.max, x);
        lemma_interval_distance(p, b.min, b.max, y);
        let dx = (x - a.min) % p;
        let dy = (y - b.min) % p;
        lemma_congruent_mod(p, x - a.min);
        lemma_congruent_mod(p, y - b.min);
        lemma_congruent_sub(p, v, x + y, s.min, a.min + b.min);
        lemma_congruent_add(p, dx, x - a.min, dy, y - b.min);
        lemma_congruent_sub(p, s.max, a.max + b.max, s.min, a.min + b.min);
        lemma_congruent_add(p, a.max - a.min, a.width(p) - 1, b.max - b.min, b.width(p) - 1);
        lemma_in_interval_by_distance(
            p,
            s.min,
            s.max,
            v,
            dx + dy,
            a.width(p) + b.width(p) - 1,
        );
    }
}

proof fn lemma_scaled_distance(d: int, w: int, k: int, p: int)
    requires
        0 <= d < w,
        k >= 0,
        w * k <= p,
        p > 0,
    ensures
        0 <= d * k < (w - 1) * k + 1 <= p,
{
    assert(0 <= d * k <= (w - 1) * k) by (nonlinear_arith)
        requires
            0 <= d < w,
            k >= 0,
    ;
    assert((w - 1) * k + 1 <= p) by (nonlinear_arith)
        requires
            k >= 0,
            w * k <= p,
            p > 0,
    ;
}

/// The interval of a multiple holds the multiples of the values of the interval.
proof fn lemma_multiple_interval(p: int, r: Range, factor: int, x: int)
    requires
        2 < p <= u64::MAX,
        r.within(p),
        0 <= factor < p,
        0 <= x < p,
        r.allows(x),
    ensures
        ({
            let (min, max) = r.multiple_interval(p, factor);
            &&& in_interval(min, max, field_mul(p, x, factor))
            &&& 0 <= min < p
            &&& 0 <= max < p
        }),
{
    let w = r.width(p);
    let v = field_mul(p, x, factor);
    let g = field_neg(p, factor);
    let low = field_mul(p, r.min, factor);
    let high = field_mul(p, r.max, factor);
    lemma_field_congruent(p, x, factor);
    lemma_field_congruent(p, r.min, factor);
    lemma_field_congruent(p, r.max, factor);
    lemma_field_congruent(p, factor, factor);
    lemma_width(p, r.min, r.max);
    lemma_interval_distance(p, r.min, r.max, x);
    let d = (x - r.min) % p;
    lemma_congruent_mod(p, x - r.min);
    if w * factor <= p {
        lemma_scaled_distance(d, w, factor, p);
        lemma_congruent_sub(p, v, x * factor, low, r.min * factor);
        lemma_congruent_mul(p, d, x - r.min, factor, factor);
        lemma_congruent_sub(p, high, r.max * factor, low, r.min * factor);
        lemma_congruent_mul(p, r.max - r.min, w - 1, factor, factor);
        lemma_mul_is_distributive_sub_other_way(factor, x, r.min);
        lemma_mul_is_distributive_sub_other_way(factor, r.max, r.min);
        lemma_in_interval_by_distance(p, low, high, v, d * factor, (w - 1) * factor + 1);
    } else if w * g <= p {
        let e = w - 1 - d;
        lemma_scaled_distance(e, w, g, p);
        lemma_congruent_sub(p, v, x * factor, high, r.max * factor);
        lemma_congruent_sub(p, low, r.min * factor, high, r.max * factor);
        lemma_congruent_sub(p, r.max - r.min, w - 1, d, x - r.min);
        lemma_congruent_sub(p, r.max - r.min, w - 1, x - r.min, d);
        assert(congruent(p, r.max - x, e));
        lemma_congruent_mul(p, r.max - x, e, -factor, g);
        lemma_congruent_mul(p, r.max - r.min, w - 1, -factor, g);
        assert((r.max - x) * (-factor) == x * factor - r.max * factor) by (nonlinear_arith);
        assert((r.max - r.min) * (-factor) == r.min * factor - r.max * factor) by (nonlinear_arith);
        lemma_in_interval_by_distance(p, high, low, v, e * g, (w - 1) * g + 1);
    }
}

/// A multiple of an allowed value is allowed by the constraint on the multiple.
pub proof fn lemma_multiple_allows(p: int, r: Range, factor: int, x: int)
    requires
        2 < p <= u64::MAX,
        r.within(p),
        0 <= factor < p,
        0 <= x < p,
        r.allows(x),
    ensures
        r.multiple(p, factor).allows(field_mul(p, x, factor)),
        r.multiple(p, factor).within(p),
{
    let (min, max) = r.multiple_interval(p, factor);
    let v = field_mul(p, x, factor);
    lemma_multiple_interval(p, r, factor, x);
    lemma_field_congruent(p, x, factor);
    if exponent_of(factor) is Some && r.mask * factor < p {
        lemma_exponent_bound(factor as u64);
        let e = exponent_of(factor).unwrap();
        lemma_shift_within(x as u64, r.mask, e as u64);
        lemma_submask_le(x as u64, r.mask);
        assert(0 <= x * factor <= r.mask * factor) by (nonlinear_arith)
            requires
                0 <= x <= r.mask,
                0 <= factor,
        ;
        lemma_small(p, x * factor);
    } else {
        lemma_interval_mask(min, max, v);
    }
}

/// A range constraint on the values of an expression or a variable, in executable form.
#[derive(Debug, PartialEq, Eq, Hash)]
pub struct RangeConstraint<T> {
    mask: u64,
    min: T,
    max: T,
}

impl<T: FieldElement> Copy for RangeConstraint<T> {

}

impl<T: FieldElement> Clone for RangeConstraint<T> {
    fn clone(&self) -> (r: Self)
        ensures
            r == *self,
    {
        *self
    }
}

impl<T: FieldElement> View for RangeConstraint<T> {
    type V = Range;

    closed spec fn view(&self) -> Range {
        Range { mask: self.mask, min: self.min.val(), max: self.max.val() }
    }
}

impl<T: FieldElement> RangeConstraint<T> {
    /// The bounds of a constraint are elements of the field.
    pub proof fn lemma_within(self)
        ensures
            self@.within(T::order()),
    {
        self.min.lemma_val();
        self.max.lemma_val();
    }

    /// Puts no constraint on the value.
    pub fn unconstrained() -> (r: Self)
        ensures
            r@ == Range::unconstrained(),
    {
        RangeConstraint { mask: u64::MAX, min: T::one(), max: T::zero() }
    }

    /// Allows only this value.
    pub fn from_value(value: T) -> (r: Self)
        ensures
            r@ == Range::of_value(value.val()),
    {
        RangeConstraint { mask: value.to_integer(), min: value, max: value }
    }

    /// Allows the values from `min` to `max`, wrapping where `max` is below `min`.
    pub fn from_range(min: T, max: T) -> (r: Self)
        ensures
            r@ == Range::of_interval(min.val(), max.val()),
    {
        proof {
            T::lemma_order();
            max.lemma_val();
            min.lemma_val();
            lemma_low_mask_bound(max.val() as u64);
        }
        let mask: u64 = if min.to_integer() <= max.to_integer() {
            low_mask_of(max.to_integer())
        } else {
            u64::MAX
        };
        RangeConstraint { mask, min, max }
    }

    /// Allows the values with no bits outside the mask.
    pub fn from_mask(mask: u64) -> (r: Self)
        ensures
            r@ == Range::of_mask(T::order(), mask),
    {
        proof {
            T::lemma_order();
        }
        let max: u64 = if mask < T::modulus() {
            mask
        } else {
            T::modulus() - 1
        };
        proof {
            lemma_small(T::order(), max as int);
        }
        RangeConstraint { mask, min: T::zero(), max: T::from_integer(max) }
    }

    /// A mask of the bits that the value can have.
    pub fn mask(&self) -> (r: u64)
        ensures
            r == self@.mask,
    {
        self.mask
    }

    /// The bounds of the interval.
    pub fn range(&self) -> (r: (T, T))
        ensures
            r.0.val() == self@.min,
            r.1.val() == self@.max,
    {
        (self.min, self.max)
    }

    /// A number that no allowed value exceeds.
    pub fn upper_bound(&self) -> (r: u64)
        ensures
            r == self@.bound(),
    {
        let min: u64 = self.min.to_integer();
        let max: u64 = self.max.to_integer();
        if min <= max && max < self.mask {
            max
        } else {
            self.mask
        }
    }

    /// The number of values in the interval.
    pub fn range_width(&self) -> (r: u64)
        ensures
            r == self@.width(T::order()),
    {
        let one = T::one();
        proof {
            T::lemma_order();
            self.min.lemma_val();
            self.max.lemma_val();
            let p = T::order();
            lemma_field_congruent(p, self.max.val(), self.min.val());
            lemma_field_congruent(p, crate::field::field_sub(p, self.max.val(), self.min.val()), 1);
            lemma_congruent_add(
                p,
                crate::field::field_sub(p, self.max.val(), self.min.val()),
                self.max.val() - self.min.val(),
                1,
                1,
            );
        }
        if self.max.add(one).same(self.min) {
            T::modulus()
        } else {
            self.max.sub(self.min).add(one).to_integer()
        }
    }

    /// The only value allowed, if the interval has just one.
    pub fn try_to_single_value(&self) -> (r: Option<T>)
        ensures
            match r {
                Some(v) => self@.single_value() == Some(v.val()),
                None => self@.single_value() is None,
            },
    {
        if self.min.same(self.max) {
            Some(self.min)
        } else {
            None
        }
    }

    /// Whether the value satisfies the constraint.
    pub fn allows_value(&self, value: T) -> (r: bool)
        ensures
            r == self@.allows(value.val()),
    {
        proof {
            T::lemma_order();
            value.lemma_val();
        }
        let v: u64 = value.to_integer();
        let min: u64 = self.min.to_integer();
        let max: u64 = self.max.to_integer();
        let in_range: bool = if min <= max {
            min <= v && v <= max
        } else {
            v >= min || v <= max
        };
        in_range && v & self.mask == v
    }

    /// The constraint on the sum of two expressions.
    pub fn combine_sum(&self, other: &Self) -> (r: Self)
        ensures
            r@ == self@.sum(T::order(), other@),
    {
        proof {
            T::lemma_order();
        }
        let p: u128 = T::modulus() as u128;
        let mask_sum: u128 = self.mask as u128 + other.mask as u128;
        let mask: u64 = if mask_sum >= p {
            u64::MAX
        } else {
            (mask_sum as u64) | self.mask | other.mask
        };
        if self.range_width() as u128 + other.range_width() as u128 <= p {
            RangeConstraint { mask, min: self.min.add(other.min), max: self.max.add(other.max) }
        } else {
            RangeConstraint { mask, min: T::one(), max: T::zero() }
        }
    }

    /// The constraint on a multiple of an expression.
    pub fn multiple(&self, factor: T) -> (r: Self)
        ensures
            r@ == self@.multiple(T::order(), factor.val()),
    {
        let width: u128 = self.range_width() as u128;
        let f: u128 = factor.to_integer() as u128;
        let g: u128 = factor.neg().to_integer() as u128;
        let p: u128 = T::modulus() as u128;
        proof {
            T::lemma_order();
            factor.lemma_val();
            self.lemma_within();
            lemma_width(T::order(), self@.min, self@.max);
            lemma_field_congruent(T::order(), factor.val(), 0);
            lemma_word_product(width as int, f as int);
            lemma_word_product(width as int, g as int);
            lemma_word_product(self.mask as int, f as int);
        }
        let (min, max): (T, T) = if width * f <= p {
            (self.min.mul(factor), self.max.mul(factor))
        } else if width * g <= p {
            (self.max.mul(factor), self.min.mul(factor))
        } else {
            (T::one(), T::zero())
        };
        let scaled: u128 = self.mask as u128 * f;
        let mask: u64 = if log2_exact(factor.to_integer()).is_some() && scaled < p {
            scaled as u64
        } else {
            RangeConstraint::from_range(min, max).mask
        };
        RangeConstraint { mask, min, max }
    }

    /// The constraint on the negation of an expression.
    pub fn negate(&self) -> (r: Self)
        ensures
            r@ == self@.negation(T::order()),
    {
        let minus_one = T::one().neg();
        proof {
            T::lemma_order();
            lemma_wrap(T::order(), -1);
        }
        self.multiple(minus_one)
    }

    /// Prints the constraint.
    pub fn to_string(&self) -> (r: String)
        ensures
            r@ == self@.text(),
    {
        proof {
            self.lemma_within();
        }
        let mut text = "[".to_owned();
        text.append(write_number(10, self.min.to_integer()).as_str());
        text.append(", ");
        text.append(write_number(10, self.max.to_integer()).as_str());
        text.append("] & 0x");
        text.append(write_number(16, self.mask).as_str());
        text
    }
}

impl<T: FieldElement> Default for RangeConstraint<T> {
    /// No constraint.
    fn default() -> (r: Self)
        ensures
            r@ == Range::unconstrained(),
    {
        RangeConstraint::unconstrained()
    }
}

} // verus!
