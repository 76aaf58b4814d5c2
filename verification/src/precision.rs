//! How narrow range constraints are.
use vstd::arithmetic::div_mod::*;
use vstd::arithmetic::power2::*;
use vstd::prelude::*;

use crate::bits::{lemma_exponent_unique, lemma_low_mask_bound, lemma_low_mask_least, submask};
use crate::field::{field_neg, lemma_field_congruent};
use crate::modular::{lemma_congruent_add, lemma_congruent_mod, lemma_congruent_sub, lemma_small};
use crate::range_constraint::{
    in_interval, lemma_interval_mask, lemma_width, lemma_width_unique, lemma_wrap, Range,
};
use crate::symbolic_expression::{lemma_minus_one, BinaryOperator, Symbolic};

verus! {

/// An interval goes upwards from the lower to the upper bound, around the modulus if need be,
/// and its width is the number of steps and one more.
pub proof fn lemma_interval_upwards(p: int, r: Range, v: int)
    requires
        2 < p,
        r.within(p),
        0 <= v < p,
    ensures
        in_interval(r.min, r.max, v) <==> (v - r.min) % p <= (r.max - r.min) % p,
        r.width(p) == (r.max - r.min) % p + 1,
{
    lemma_wrap(p, v - r.min);
    lemma_wrap(p, r.max - r.min);
    lemma_wrap(p, r.max + 1);
    lemma_wrap(p, r.max - r.min + 1);
}

/// No constraint leaves all bits and all values of the field.
pub proof fn lemma_unconstrained_wide(p: int)
    requires
        2 < p,
    ensures
        Range::unconstrained().width(p) == p,
        Range::unconstrained().mask == u64::MAX,
        Range::unconstrained().within(p),
{
    lemma_small(p, 1);
}

/// The interval of a sum goes from the sum of the lower bounds to the sum of the upper bounds,
/// unless it would hold all values. Where the sum of the masks is below the modulus, no other
/// bits than those of the masks and of their sum are in the mask of the sum.
pub proof fn lemma_sum_narrow(p: int, a: Range, b: Range)
    requires
        2 < p,
        a.within(p),
        b.within(p),
    ensures
        a.sum(p, b).within(p),
        a.width(p) + b.width(p) <= p ==> {
            &&& a.sum(p, b).min == (a.min + b.min) % p
            &&& a.sum(p, b).max == (a.max + b.max) % p
            &&& a.sum(p, b).width(p) == a.width(p) + b.width(p) - 1
        },
        a.width(p) + b.width(p) > p ==> a.sum(p, b).width(p) == p,
        a.mask + b.mask < p ==> a.sum(p, b).mask == ((a.mask + b.mask) as u64) | a.mask | b.mask,
        a.mask + b.mask >= p ==> a.sum(p, b).mask == u64::MAX,
{
    let s = a.sum(p, b);
    lemma_field_congruent(p, a.min, b.min);
    lemma_field_congruent(p, a.max, b.max);
    lemma_small(p, 1);
    if a.width(p) + b.width(p) <= p {
        lemma_width(p, a.min, a.max);
        lemma_width(p, b.min, b.max);
        lemma_congruent_sub(p, s.max, a.max + b.max, s.min, a.min + b.min);
        lemma_congruent_add(p, a.max - a.min, a.width(p) - 1, b.max - b.min, b.width(p) - 1);
        lemma_width_unique(p, s.min, s.max, a.width(p) + b.width(p) - 1);
    }
}

/// The interval of a negation holds exactly the negated values.
pub proof fn lemma_negation_exact(p: int, r: Range, v: int)
    requires
        2 < p,
        r.within(p),
        0 <= v < p,
    ensures
        r.negation(p).within(p),
        in_interval(r.negation(p).min, r.negation(p).max, (p - v) % p) <==> in_interval(
            r.min,
            r.max,
            v,
        ),
        r.negation(p).min == (p - r.max) % p,
        r.negation(p).max == (p - r.min) % p,
        r.negation(p).width(p) == r.width(p),
{
    let w = r.width(p);
    lemma_width(p, r.min, r.max);
    lemma_minus_one(p, r.min);
    lemma_minus_one(p, r.max);
    lemma_wrap(p, -r.min);
    lemma_wrap(p, -r.max);
    lemma_wrap(p, p - r.min);
    lemma_wrap(p, p - r.max);
    lemma_wrap(p, p - v);
    lemma_wrap(p, -(p - 1));
    assert(field_neg(p, p - 1) == 1);
    if w * (p - 1) <= p {
        assert(w == 1) by (nonlinear_arith)
            requires
                w >= 1,
                p > 2,
                w * (p - 1) <= p,
        ;
        lemma_wrap(p, r.max - r.min);
        lemma_small(p, 0);
    }
    let n = r.negation(p);
    lemma_congruent_sub(p, n.max, -r.min, n.min, -r.max);
    lemma_width_unique(p, n.min, n.max, w);
}

/// The bounds of a multiple are the multiples of the bounds, the other way round for a factor
/// in the upper half of the field, unless the interval would hold all values. A power of two
/// shifts the mask. Otherwise the mask is the least one of low bits that holds the interval.
pub proof fn lemma_multiple_narrow(p: int, r: Range, factor: int)
    requires
        2 < p <= u64::MAX,
        r.within(p),
        0 <= factor < p,
    ensures
        ({
            let m = r.multiple(p, factor);
            &&& m.within(p)
            &&& r.width(p) * factor <= p ==> {
                &&& m.min == (r.min * factor) % p
                &&& m.max == (r.max * factor) % p
            }
            &&& r.width(p) * factor > p && r.width(p) * (p - factor) <= p ==> {
                &&& m.min == (r.max * factor) % p
                &&& m.max == (r.min * factor) % p
            }
            &&& r.width(p) * factor > p && r.width(p) * (p - factor) > p ==> m.width(p) == p
            &&& forall|e: nat| #[trigger]
                pow2(e) == factor && r.mask * factor < p ==> m.mask == r.mask * factor
            &&& (forall|e: nat| #[trigger] pow2(e) == factor ==> r.mask * factor >= p) && m.min
                > m.max ==> m.mask == u64::MAX
            &&& (forall|e: nat| #[trigger] pow2(e) == factor ==> r.mask * factor >= p) && m.min
                <= m.max ==> {
                &&& m.max <= m.mask
                &&& m.max > 0 ==> m.mask < 2 * m.max
                &&& exists|k: nat| m.mask + 1 == #[trigger] pow2(k)
            }
        }),
{
    let m = r.multiple(p, factor);
    lemma_mod_bound(r.min * factor, p);
    lemma_mod_bound(r.max * factor, p);
    if factor > 0 {
        lemma_wrap(p, -factor);
    }
    assert(r.width(p) * 0 == 0);
    lemma_small(p, 1);
    assert forall|e: nat| #[trigger]
        pow2(e) == factor && r.mask * factor < p implies m.mask == r.mask * factor by {
        lemma_exponent_unique(factor, e);
    }
    if crate::bits::exponent_of(factor) is Some {
        let e = choose|e: nat| #[trigger] pow2(e) == factor;
        assert(pow2(e) == factor);
    }
    if 0 <= m.max <= u64::MAX {
        lemma_low_mask_bound(m.max as u64);
        lemma_low_mask_least(m.max as nat);
    }
}

/// How the interval of a multiple is as wide as the multiple of the interval.
pub proof fn lemma_multiple_width(p: int, r: Range, factor: int)
    requires
        2 < p <= u64::MAX,
        r.within(p),
        0 < factor < p,
    ensures
        r.width(p) * factor <= p ==> r.multiple(p, factor).width(p) == (r.width(p) - 1) * factor
            + 1,
        r.width(p) * factor > p && r.width(p) * (p - factor) <= p ==> r.multiple(
            p,
            factor,
        ).width(p) == (r.width(p) - 1) * (p - factor) + 1,
{
    let w = r.width(p);
    let m = r.multiple(p, factor);
    lemma_multiple_narrow(p, r, factor);
    lemma_width(p, r.min, r.max);
    let low = r.min * factor;
    let high = r.max * factor;
    lemma_congruent_mod(p, low);
    lemma_congruent_mod(p, high);
    if w * factor <= p {
        assert(high - low == (r.max - r.min) * factor) by (nonlinear_arith)
            requires
                low == r.min * factor,
                high == r.max * factor,
        ;
        crate::modular::lemma_congruent_mul(p, r.max - r.min, w - 1, factor, factor);
        lemma_congruent_sub(p, m.max, high, m.min, low);
        assert(1 <= (w - 1) * factor + 1 <= p) by (nonlinear_arith)
            requires
                w >= 1,
                factor >= 1,
                w * factor <= p,
        ;
        lemma_width_unique(p, m.min, m.max, (w - 1) * factor + 1);
    } else if w * (p - factor) <= p {
        let g = p - factor;
        assert(low - high == (r.max - r.min) * g + (r.min - r.max) * p) by (nonlinear_arith)
            requires
                low == r.min * factor,
                high == r.max * factor,
                g == p - factor,
        ;
        crate::modular::lemma_congruent_multiple(p, (r.max - r.min) * g, r.min - r.max);
        crate::modular::lemma_congruent_mul(p, r.max - r.min, w - 1, g, g);
        lemma_congruent_sub(p, m.max, low, m.min, high);
        assert(1 <= (w - 1) * g + 1 <= p) by (nonlinear_arith)
            requires
                w >= 1,
                g >= 1,
                w * g <= p,
        ;
        lemma_width_unique(p, m.min, m.max, (w - 1) * g + 1);
    }
}

/// The constraint to a mask allows exactly the values without other bits, and its interval
/// ends at the largest of them or of the field.
pub proof fn lemma_of_mask_exact(p: int, mask: u64, v: int)
    requires
        2 < p <= u64::MAX,
        0 <= v < p,
    ensures
        Range::of_mask(p, mask).allows(v) <==> submask(v as u64, mask),
        Range::of_mask(p, mask).mask == mask,
        Range::of_mask(p, mask).min == 0,
        mask < p ==> Range::of_mask(p, mask).max == mask,
        mask >= p ==> Range::of_mask(p, mask).max == p - 1,
        Range::of_mask(p, mask).within(p),
{
    if submask(v as u64, mask) {
        crate::bits::lemma_submask_le(v as u64, mask);
    }
}

/// The constraint to an interval allows exactly its values, and has the least mask of low bits
/// that holds them.
pub proof fn lemma_of_interval_exact(min: int, max: int, v: int)
    requires
        0 <= min <= u64::MAX,
        0 <= max <= u64::MAX,
        0 <= v <= u64::MAX,
    ensures
        Range::of_interval(min, max).allows(v) <==> in_interval(min, max, v),
        Range::of_interval(min, max).min == min,
        Range::of_interval(min, max).max == max,
        min <= max ==> {
            &&& max <= Range::of_interval(min, max).mask
            &&& max > 0 ==> Range::of_interval(min, max).mask < 2 * max
            &&& exists|k: nat| Range::of_interval(min, max).mask + 1 == #[trigger] pow2(k)
        },
{
    lemma_low_mask_bound(max as u64);
    lemma_low_mask_least(max as nat);
    if in_interval(min, max, v) {
        lemma_interval_mask(min, max, v);
    }
}

/// A constraint has a single value exactly if its interval has width one, and the value is
/// the only one in the interval.
pub proof fn lemma_single_value_exact(p: int, r: Range, v: int)
    requires
        2 < p,
        r.within(p),
        0 <= v < p,
    ensures
        r.single_value() is Some <==> r.width(p) == 1,
        r.single_value() matches Some(w) ==> (in_interval(r.min, r.max, v) <==> v == w),
{
    lemma_interval_upwards(p, r, v);
    lemma_wrap(p, r.max - r.min);
    lemma_wrap(p, v - r.min);
}

/// The bound is at most the mask and at most the end of an interval that does not wrap.
pub proof fn lemma_bound_least(r: Range)
    ensures
        r.bound() <= r.mask,
        r.min <= r.max ==> r.bound() <= r.max,
        r.bound() == r.mask || r.bound() == r.max,
{
}

/// The bounds of the constraint on an expression are elements of the field.
pub proof fn lemma_range_within<K>(s: Symbolic<K>, p: int)
    requires
        2 < p,
        s.wf(p),
    ensures
        s.range(p).within(p),
    decreases s,
{
    match s {
        Symbolic::Concrete(_) => {},
        Symbolic::Symbol(_, _) => {},
        Symbolic::Binary(l, _, r) => {
            lemma_range_within(*l, p);
            lemma_range_within(*r, p);
            lemma_sum_narrow(p, l.range(p), r.range(p));
        },
        Symbolic::Negation(e) => {
            lemma_range_within(*e, p);
            lemma_negation_exact(p, e.range(p), 0);
        },
    }
}

/// An expression is known to be nonzero exactly if zero is not in the interval of its
/// constraint.
pub proof fn lemma_nonzero_by_interval<K>(s: Symbolic<K>, p: int)
    ensures
        s.is_nonzero(p) <==> !in_interval(s.range(p).min, s.range(p).max, 0),
{
    let m = s.range(p).mask;
    assert(0u64 & m == 0u64) by (bit_vector);
}

/// The constraint on a number allows just the number, and that on a symbol is its own.
pub proof fn lemma_leaf_range<K>(n: int, k: K, r: Range, p: int, v: int)
    requires
        0 <= n < p <= u64::MAX,
    ensures
        Symbolic::<K>::Concrete(n).range(p).allows(v) <==> v == n,
        Symbolic::<K>::Concrete(n).range(p).min == n,
        Symbolic::<K>::Concrete(n).range(p).max == n,
        Symbolic::<K>::Concrete(n).range(p).mask == n,
        Range::of_value(n) == Symbolic::<K>::Concrete(n).range(p),
        Symbolic::<K>::Concrete(n).is_nonzero(p) <==> n != 0,
        Symbolic::Symbol(k, r).range(p) == r,
{
    crate::range_constraint::lemma_value_allows(n, v);
    lemma_nonzero_by_interval(Symbolic::<K>::Concrete(n), p);
}

/// There is no constraint on products and quotients.
pub proof fn lemma_product_range<K>(a: Symbolic<K>, b: Symbolic<K>, p: int)
    requires
        2 < p,
    ensures
        ({
            let product = Symbolic::Binary(Box::new(a), BinaryOperator::Mul, Box::new(b));
            let quotient = Symbolic::Binary(Box::new(a), BinaryOperator::Div, Box::new(b));
            &&& product.range(p).width(p) == p && product.range(p).mask == u64::MAX
            &&& quotient.range(p).width(p) == p && quotient.range(p).mask == u64::MAX
        }),
{
    lemma_unconstrained_wide(p);
}

/// The interval of a sum of expressions, whatever they are, goes from the sum of the lower
/// bounds to the sum of the upper bounds, unless it would hold all values.
pub proof fn lemma_plus_narrow<K>(a: Symbolic<K>, b: Symbolic<K>, p: int)
    requires
        2 < p <= u64::MAX,
        a.wf(p),
        b.wf(p),
    ensures
        a.range(p).width(p) + b.range(p).width(p) <= p ==> {
            &&& a.plus(p, b).range(p).min == (a.range(p).min + b.range(p).min) % p
            &&& a.plus(p, b).range(p).max == (a.range(p).max + b.range(p).max) % p
        },
{
    lemma_range_within(a, p);
    lemma_range_within(b, p);
    lemma_sum_narrow(p, a.range(p), b.range(p));
    lemma_small(p, a.range(p).min);
    lemma_small(p, a.range(p).max);
    lemma_small(p, b.range(p).min);
    lemma_small(p, b.range(p).max);
}

/// The interval of the negation of an expression, whatever it is, holds exactly the negated
/// values.
pub proof fn lemma_negated_exact<K>(a: Symbolic<K>, p: int, v: int)
    requires
        2 < p <= u64::MAX,
        a.wf(p),
        0 <= v < p,
    ensures
        in_interval(a.negated(p).range(p).min, a.negated(p).range(p).max, (p - v) % p)
            <==> in_interval(a.range(p).min, a.range(p).max, v),
{
    lemma_range_within(a, p);
    lemma_negation_exact(p, a.range(p), v);
    lemma_wrap(p, p - v);
    let w = (p - v) % p;
    lemma_wrap(p, p - w);
    match a {
        Symbolic::Concrete(n) => {
            lemma_wrap(p, -n);
        },
        Symbolic::Negation(e) => {
            lemma_range_within(*e, p);
            lemma_negation_exact(p, e.range(p), w);
            if e.number() is Some {
                lemma_negation_exact(p, a.range(p), v);
            }
        },
        _ => {},
    }
}

/// The expression is made of numbers and symbols by sums and negations, and no interval of a
/// symbol wraps.
pub open spec fn signed_sum<K>(s: Symbolic<K>) -> bool
    decreases s,
{
    match s {
        Symbolic::Concrete(_) => true,
        Symbolic::Symbol(_, r) => r.min <= r.max,
        Symbolic::Binary(l, op, r) => op == BinaryOperator::Add && signed_sum(*l) && signed_sum(*r),
        Symbolic::Negation(e) => signed_sum(*e),
    }
}

/// The least and the greatest value of a signed sum, as integers.
pub open spec fn extremes<K>(s: Symbolic<K>) -> (int, int)
    decreases s,
{
    match s {
        Symbolic::Concrete(n) => (n, n),
        Symbolic::Symbol(_, r) => (r.min, r.max),
        Symbolic::Binary(l, _, r) => (
            extremes(*l).0 + extremes(*r).0,
            extremes(*l).1 + extremes(*r).1,
        ),
        Symbolic::Negation(e) => (-extremes(*e).1, -extremes(*e).0),
    }
}

/// The constraint on a signed sum has its extremes as bounds, unless it would hold all values.
/// So it is known to be nonzero where the integers between the extremes are below the modulus
/// and all positive or all negative.
pub proof fn lemma_signed_sum_narrow<K>(s: Symbolic<K>, p: int)
    requires
        2 < p <= u64::MAX,
        s.wf(p),
        signed_sum(s),
        extremes(s).1 - extremes(s).0 + 1 < p,
    ensures
        extremes(s).0 <= extremes(s).1,
        s.range(p).min == extremes(s).0 % p,
        s.range(p).max == extremes(s).1 % p,
        s.range(p).width(p) == extremes(s).1 - extremes(s).0 + 1,
        0 < extremes(s).0 && extremes(s).1 < p ==> s.is_nonzero(p),
        -p < extremes(s).0 && extremes(s).1 < 0 ==> s.is_nonzero(p),
    decreases s,
{
    let (low, high) = extremes(s);
    lemma_extremes_ordered(s);
    lemma_range_within(s, p);
    match s {
        Symbolic::Concrete(n) => {
            lemma_small(p, n);
        },
        Symbolic::Symbol(_, r) => {
            lemma_small(p, r.min);
            lemma_small(p, r.max);
        },
        Symbolic::Binary(l, _, r) => {
            lemma_extremes_ordered(*l);
            lemma_extremes_ordered(*r);
            lemma_signed_sum_narrow(*l, p);
            lemma_signed_sum_narrow(*r, p);
            lemma_range_within(*l, p);
            lemma_range_within(*r, p);
            lemma_sum_narrow(p, l.range(p), r.range(p));
            let (ll, lh) = extremes(*l);
            let (rl, rh) = extremes(*r);
            lemma_congruent_mod(p, ll);
            lemma_congruent_mod(p, rl);
            lemma_congruent_mod(p, lh);
            lemma_congruent_mod(p, rh);
            lemma_congruent_add(p, ll % p, ll, rl % p, rl);
            lemma_congruent_add(p, lh % p, lh, rh % p, rh);
        },
        Symbolic::Negation(e) => {
            lemma_signed_sum_narrow(*e, p);
            lemma_range_within(*e, p);
            lemma_negation_exact(p, e.range(p), 0);
            let (el, eh) = extremes(*e);
            lemma_congruent_mod(p, el);
            lemma_congruent_mod(p, eh);
            lemma_congruent_sub(p, p, 0, eh % p, eh);
            lemma_congruent_sub(p, p, 0, el % p, el);
            lemma_mod_self_0(p);
            lemma_small(p, 0);
        },
    }
    lemma_congruent_mod(p, low);
    lemma_congruent_mod(p, high);
    let r = s.range(p);
    lemma_congruent_sub(p, r.max, high, r.min, low);
    lemma_width_unique(p, r.min, r.max, high - low + 1);
    lemma_nonzero_by_interval(s, p);
    if 0 < low && high < p {
        lemma_small(p, low);
        lemma_small(p, high);
    }
    if -p < low && high < 0 {
        lemma_wrap(p, low);
        lemma_wrap(p, high);
    }
}

proof fn lemma_extremes_ordered<K>(s: Symbolic<K>)
    requires
        signed_sum(s),
    ensures
        extremes(s).0 <= extremes(s).1,
    decreases s,
{
    match s {
        Symbolic::Concrete(_) => {},
        Symbolic::Symbol(_, _) => {},
        Symbolic::Binary(l, _, r) => {
            lemma_extremes_ordered(*l);
            lemma_extremes_ordered(*r);
        },
        Symbolic::Negation(e) => {
            lemma_extremes_ordered(*e);
        },
    }
}

} // verus!
