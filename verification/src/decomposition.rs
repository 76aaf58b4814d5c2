//! Why variables can be read off the bits of a number.
use vstd::arithmetic::div_mod::*;
use vstd::arithmetic::power2::*;
use vstd::prelude::*;

use crate::bits::{lemma_submask_le, submask};
use crate::effect::components_sum;
use crate::field::{field_mul, lemma_no_zero_divisors, lemma_quotient};
use crate::modular::{
    congruent, is_prime, lemma_congruent_add, lemma_congruent_close, lemma_congruent_mod,
    lemma_congruent_sub, lemma_small,
};
use crate::range_constraint::{lemma_bound, lemma_multiple_allows};
use crate::solution::{
    aligned, components, covered, decomposes, fits, mask_of, may_wrap, separate, signed_total,
    unshifted, Candidate,
};
use crate::symbolic_expression::assigns;

verus! {

/// The range is one of the field, and so is the power of two.
pub open spec fn candidate_wf<K>(p: int, c: Candidate<K>) -> bool {
    &&& c.range.within(p)
    &&& c.exponent < 64
    &&& pow2(c.exponent) < p
}

pub open spec fn candidates_wf<K>(p: int, s: Seq<Candidate<K>>) -> bool {
    forall|i: int| 0 <= i < s.len() ==> candidate_wf(p, #[trigger] s[i])
}

/// The shifted values of the variables, which may have wrapped around the modulus.
pub open spec fn shifted<K>(p: int, s: Seq<Candidate<K>>, env: spec_fn(K) -> int) -> Seq<u64> {
    Seq::new(
        s.len(),
        |i: int| field_mul(p, env(s[i].variable), pow2(s[i].exponent) as int) as u64,
    )
}

/// The bits of the negative candidates, as a number.
pub open spec fn negative_bits<K>(p: int, s: Seq<Candidate<K>>) -> int
    decreases s.len(),
{
    if s.len() == 0 {
        0
    } else {
        negative_bits(p, s.drop_last()) + (if s.last().is_negative {
            mask_of(p, s.last()) as int
        } else {
            0
        })
    }
}

/// A number with the bits of the negative candidates flipped: all signs are the same then.
pub open spec fn unsigned<K>(p: int, s: Seq<Candidate<K>>, n: int) -> u64 {
    ((n + negative_bits(p, s)) % p) as u64
}

/// The bits that the candidates have in an unsigned number.
pub open spec fn bits_of<K>(p: int, s: Seq<Candidate<K>>, t: u64) -> Seq<u64> {
    Seq::new(
        s.len(),
        |i: int|
            if s[i].is_negative {
                mask_of(p, s[i]) & !t
            } else {
                mask_of(p, s[i]) & t
            },
    )
}

proof fn lemma_separate_parts<K>(p: int, s: Seq<Candidate<K>>)
    requires
        s.len() > 0,
        separate(p, s),
    ensures
        separate(p, s.drop_last()),
        covered(p, s) == covered(p, s.drop_last()) + mask_of(p, s.last()),
        forall|i: int|
            0 <= i < s.len() - 1 ==> mask_of(p, #[trigger] s[i]) & mask_of(p, s.last()) == 0,
{
    let a = covered(p, s.drop_last());
    let m = mask_of(p, s.last());
    assert(a | m == a + m) by (bit_vector)
        requires
            m & a == 0,
    ;
    assert forall|i: int| 0 <= i < s.len() - 1 implies mask_of(p, #[trigger] s[i]) & m == 0 by {
        let b = mask_of(p, s[i]);
        lemma_mask_covered(p, s.drop_last(), i);
        assert(s.drop_last()[i] == s[i]);
        assert(b & m == 0) by (bit_vector)
            requires
                m & a == 0,
                b & a == b,
        ;
    }
}

/// The bits of a candidate are among all bits.
pub proof fn lemma_mask_covered<K>(p: int, s: Seq<Candidate<K>>, i: int)
    requires
        0 <= i < s.len(),
    ensures
        submask(mask_of(p, s[i]), covered(p, s)),
    decreases s.len(),
{
    let a = covered(p, s.drop_last());
    let m = mask_of(p, s.last());
    if i == s.len() - 1 {
        assert(m & (a | m) == m) by (bit_vector);
    } else {
        lemma_mask_covered(p, s.drop_last(), i);
        let b = mask_of(p, s[i]);
        assert(s.drop_last()[i] == s[i]);
        assert(b & (a | m) == b) by (bit_vector)
            requires
                b & a == b,
        ;
    }
}

proof fn lemma_fits_front<K>(p: int, s: Seq<Candidate<K>>, bits: Seq<u64>)
    requires
        s.len() > 0,
        fits(p, s, bits),
    ensures
        fits(p, s.drop_last(), bits.drop_last()),
        submask(bits.last(), mask_of(p, s.last())),
        bits.last() <= mask_of(p, s.last()),
{
    assert forall|i: int| 0 <= i < s.len() - 1 implies submask(
        #[trigger] bits.drop_last()[i],
        mask_of(p, s.drop_last()[i]),
    ) by {
        assert(bits[i] == bits.drop_last()[i]);
    }
    assert(bits[s.len() - 1] == bits.last());
    lemma_submask_le(bits.last(), mask_of(p, s.last()));
}

/// The bits, with those of negative candidates flipped within their masks.
spec fn flipped<K>(p: int, s: Seq<Candidate<K>>, bits: Seq<u64>) -> Seq<u64> {
    Seq::new(
        s.len(),
        |i: int|
            if s[i].is_negative {
                mask_of(p, s[i]) & !bits[i]
            } else {
                bits[i]
            },
    )
}

/// The sum of bits without signs.
spec fn plain_total(bits: Seq<u64>) -> int
    decreases bits.len(),
{
    if bits.len() == 0 {
        0
    } else {
        plain_total(bits.drop_last()) + bits.last()
    }
}

/// Bits of separate masks can be read off their sum.
proof fn lemma_plain_total<K>(p: int, s: Seq<Candidate<K>>, bits: Seq<u64>)
    requires
        separate(p, s),
        fits(p, s, bits),
    ensures
        0 <= plain_total(bits) <= covered(p, s),
        submask(plain_total(bits) as u64, covered(p, s)),
        forall|i: int|
            0 <= i < s.len() ==> (plain_total(bits) as u64) & mask_of(p, s[i])
                == #[trigger] bits[i],
    decreases s.len(),
{
    if s.len() > 0 {
        lemma_separate_parts(p, s);
        lemma_fits_front(p, s, bits);
        lemma_plain_total(p, s.drop_last(), bits.drop_last());
        let front = plain_total(bits.drop_last()) as u64;
        let last = bits.last();
        let total = plain_total(bits) as u64;
        let a = covered(p, s.drop_last());
        let m = mask_of(p, s.last());
        let c = covered(p, s);
        assert(total & m == last && total & c == total && front & m == 0) by (bit_vector)
            requires
                front & a == front,
                last & m == last,
                m & a == 0,
                total == front + last,
                c == a | m,
        ;
        assert forall|i: int| 0 <= i < s.len() implies total & mask_of(p, s[i])
            == #[trigger] bits[i] by {
            if i < s.len() - 1 {
                let b = mask_of(p, s[i]);
                let x = bits[i];
                assert(bits.drop_last()[i] == x);
                assert(s.drop_last()[i] == s[i]);
                assert(front & b == x);
                assert(total & b == x) by (bit_vector)
                    requires
                        front & a == front,
                        last & m == last,
                        m & a == 0,
                        total == front + last,
                        b & m == 0,
                        front & b == x,
                ;
            } else {
                assert(bits[i] == last);
            }
        }
    } else {
        assert(0u64 & 0u64 == 0u64) by (bit_vector);
    }
}

/// Flipping the negative bits adds all of them to the signed sum.
proof fn lemma_flipped<K>(p: int, s: Seq<Candidate<K>>, bits: Seq<u64>)
    requires
        fits(p, s, bits),
    ensures
        fits(p, s, flipped(p, s, bits)),
        plain_total(flipped(p, s, bits)) == signed_total(s, bits) + negative_bits(p, s),
    decreases s.len(),
{
    let f = flipped(p, s, bits);
    assert forall|i: int| 0 <= i < s.len() implies submask(#[trigger] f[i], mask_of(p, s[i])) by {
        let m = mask_of(p, s[i]);
        let x = bits[i];
        assert((m & !x) & m == m & !x) by (bit_vector);
        assert(submask(bits[i], m));
    }
    if s.len() > 0 {
        lemma_fits_front(p, s, bits);
        lemma_flipped(p, s.drop_last(), bits.drop_last());
        assert(f.drop_last() =~= flipped(p, s.drop_last(), bits.drop_last()));
        let m = mask_of(p, s.last());
        let x = bits.last();
        assert(m & !x == m - x) by (bit_vector)
            requires
                x & m == x,
        ;
    }
}

/// The bits of separate masks in a number add up to the bits of all of them.
proof fn lemma_parts_of<K>(p: int, s: Seq<Candidate<K>>, t: u64)
    requires
        separate(p, s),
    ensures
        fits(p, s, bits_of(p, s, t)),
        plain_total(flipped(p, s, bits_of(p, s, t))) == (t & covered(p, s)),
    decreases s.len(),
{
    let bits = bits_of(p, s, t);
    let f = flipped(p, s, bits);
    assert forall|i: int| 0 <= i < s.len() implies submask(
        #[trigger] bits[i],
        mask_of(p, s[i]),
    ) by {
        let m = mask_of(p, s[i]);
        assert((m & !t) & m == m & !t && (m & t) & m == m & t) by (bit_vector);
    }
    if s.len() > 0 {
        let d = s.drop_last();
        lemma_parts_of(p, d, t);
        assert(bits.drop_last() =~= bits_of(p, d, t));
        assert(f.drop_last() =~= flipped(p, d, bits.drop_last()));
        let a = covered(p, d);
        let m = mask_of(p, s.last());
        assert((t & (a | m)) == (t & a) + (m & t) && m & !(m & !t) == m & t) by (bit_vector)
            requires
                m & a == 0,
        ;
    } else {
        assert(t & 0 == 0) by (bit_vector);
    }
}

/// Bits of separate masks whose signed sum is the number are those of the unsigned number.
pub proof fn lemma_bits_determined<K>(p: int, s: Seq<Candidate<K>>, n: int, bits: Seq<u64>)
    requires
        0 < p <= u64::MAX,
        separate(p, s),
        covered(p, s) < p,
        fits(p, s, bits),
        signed_total(s, bits) % p == n,
    ensures
        submask(unsigned(p, s, n), covered(p, s)),
        bits == bits_of(p, s, unsigned(p, s, n)),
{
    let f = flipped(p, s, bits);
    let t = unsigned(p, s, n);
    let total = signed_total(s, bits);
    let negative = negative_bits(p, s);
    lemma_flipped(p, s, bits);
    lemma_plain_total(p, s, f);
    lemma_congruent_mod(p, total);
    lemma_congruent_add(p, n, total, negative, negative);
    lemma_congruent_mod(p, n + negative);
    lemma_congruent_close(p, (n + negative) % p, plain_total(f));
    let read = bits_of(p, s, t);
    assert forall|i: int| 0 <= i < s.len() implies #[trigger] bits[i] == read[i] by {
        let m = mask_of(p, s[i]);
        let x = bits[i];
        assert(submask(bits[i], m));
        assert(t & m == f[i]);
        if s[i].is_negative {
            assert(m & !t == x) by (bit_vector)
                requires
                    x & m == x,
                    t & m == m & !x,
            ;
        } else {
            assert(m & t == x) by (bit_vector)
                requires
                    t & m == x,
            ;
        }
    }
    assert(bits =~= read);
}

/// A number is a signed sum of shifted values within separate masks exactly if the unsigned
/// number has no other bits and the bits of every candidate are those of a shifted value.
/// There is no other choice of bits.
pub proof fn lemma_decomposition<K>(p: int, s: Seq<Candidate<K>>, n: int)
    requires
        0 < p <= u64::MAX,
        0 <= n < p,
        separate(p, s),
        covered(p, s) < p,
    ensures
        fits(p, s, bits_of(p, s, unsigned(p, s, n))),
        decomposes(p, s, n, bits_of(p, s, unsigned(p, s, n))) <==> submask(
            unsigned(p, s, n),
            covered(p, s),
        ) && aligned(p, s, bits_of(p, s, unsigned(p, s, n))),
        forall|bits: Seq<u64>| #[trigger]
            decomposes(p, s, n, bits) ==> bits == bits_of(p, s, unsigned(p, s, n)),
{
    let t = unsigned(p, s, n);
    let read = bits_of(p, s, t);
    let negative = negative_bits(p, s);
    assert forall|bits: Seq<u64>| #[trigger] decomposes(p, s, n, bits) implies bits == read by {
        lemma_bits_determined(p, s, n, bits);
    }
    if decomposes(p, s, n, read) {
        lemma_bits_determined(p, s, n, read);
    }
    lemma_parts_of(p, s, t);
    if submask(t, covered(p, s)) {
        lemma_flipped(p, s, read);
        lemma_congruent_mod(p, n + negative);
        lemma_congruent_sub(p, t as int, n + negative, negative, negative);
        lemma_small(p, n);
    }
}

/// An element is determined by its multiple.
proof fn lemma_factor_cancels(p: int, x: int, y: int, f: int)
    requires
        is_prime(p),
        0 <= x < p,
        0 <= y < p,
        0 < f < p,
        field_mul(p, x, f) == field_mul(p, y, f),
    ensures
        x == y,
{
    lemma_congruent_sub(p, x * f, y * f, y * f, y * f);
    lemma_small(p, 0);
    assert(x * f - y * f == (x - y) * f) by (nonlinear_arith);
    lemma_no_zero_divisors(p, x - y, f);
    lemma_small(p, f);
    lemma_congruent_close(p, x - y, 0);
}

/// The value that has given bits when it is shifted is the only one.
pub proof fn lemma_unshifted(p: int, bits: u64, exponent: nat)
    requires
        is_prime(p),
        bits < p,
        pow2(exponent) < p,
    ensures
        0 <= unshifted(p, bits, exponent) < p,
        field_mul(p, unshifted(p, bits, exponent), pow2(exponent) as int) == bits,
        forall|x: int|
            0 <= x < p && #[trigger] field_mul(p, x, pow2(exponent) as int) == bits ==> x
                == unshifted(p, bits, exponent),
{
    let b = bits as int;
    let f = pow2(exponent) as int;
    let u = unshifted(p, bits, exponent);
    lemma_pow2_pos(exponent);
    lemma_small(p, b);
    lemma_small(p, f);
    if b % f == 0 {
        lemma_fundamental_div_mod(b, f);
        assert(u * f == b && 0 <= u <= b) by (nonlinear_arith)
            requires
                b == f * u,
                f >= 1,
                b >= 0,
        ;
    } else {
        lemma_quotient(p, b, f);
    }
    assert forall|x: int| 0 <= x < p && #[trigger] field_mul(p, x, f) == b implies x == u by {
        lemma_factor_cancels(p, x, u, f);
    }
}

/// A shifted value of a variable within its range has only bits of the mask. It is a multiple
/// of the power of two where it cannot wrap.
proof fn lemma_shifted_value<K>(p: int, c: Candidate<K>, x: int)
    requires
        2 < p <= u64::MAX,
        candidate_wf(p, c),
        0 <= x < p,
        c.range.allows(x),
    ensures
        0 <= field_mul(p, x, pow2(c.exponent) as int) < p,
        submask(field_mul(p, x, pow2(c.exponent) as int) as u64, mask_of(p, c)),
        may_wrap(p, c) || field_mul(p, x, pow2(c.exponent) as int) % (pow2(c.exponent) as int)
            == 0,
{
    let f = pow2(c.exponent) as int;
    lemma_pow2_pos(c.exponent);
    lemma_mod_bound(x * f, p);
    lemma_multiple_allows(p, c.range, f, x);
    if !may_wrap(p, c) {
        lemma_bound(c.range, x);
        assert(0 <= x * f <= c.range.bound() * f) by (nonlinear_arith)
            requires
                0 <= x <= c.range.bound(),
                f > 0,
        ;
        lemma_small(p, x * f);
        lemma_mod_multiples_basic(x, f);
    }
}

/// Bits that the variables have when they are shifted add up to the sum of the components.
pub proof fn lemma_shifted_sum<K>(
    p: int,
    s: Seq<Candidate<K>>,
    bits: Seq<u64>,
    env: spec_fn(K) -> int,
)
    requires
        0 < p,
        bits.len() == s.len(),
        forall|i: int|
            0 <= i < s.len() ==> #[trigger] bits[i] == field_mul(
                p,
                env(s[i].variable),
                pow2(s[i].exponent) as int,
            ),
    ensures
        congruent(p, signed_total(s, bits), components_sum(components(p, s), env)),
    decreases s.len(),
{
    if s.len() > 0 {
        let d = s.drop_last();
        let b = bits.drop_last();
        let n = s.len() - 1;
        assert forall|i: int| 0 <= i < d.len() implies #[trigger] b[i] == field_mul(
            p,
            env(d[i].variable),
            pow2(d[i].exponent) as int,
        ) by {
            assert(bits[i] == field_mul(p, env(s[i].variable), pow2(s[i].exponent) as int));
        }
        lemma_shifted_sum(p, d, b, env);
        assert(components(p, s).drop_last() =~= components(p, d));
        let x = env(s[n].variable);
        let f = pow2(s[n].exponent) as int;
        assert(bits[n] == field_mul(p, x, f));
        assert(x * f == f * x) by (nonlinear_arith);
        lemma_congruent_mod(p, x * f);
        let total = signed_total(d, b);
        let sum = components_sum(components(p, d), env);
        if s[n].is_negative {
            lemma_congruent_sub(p, total, sum, bits[n] as int, x * f);
        } else {
            lemma_congruent_add(p, total, sum, bits[n] as int, x * f);
        }
    }
}

/// Shifted values of variables within their ranges are bits of the masks, and add up to the
/// sum of the components.
pub proof fn lemma_shifted<K>(p: int, s: Seq<Candidate<K>>, env: spec_fn(K) -> int)
    requires
        2 < p <= u64::MAX,
        candidates_wf(p, s),
        assigns(p, env),
        forall|i: int| 0 <= i < s.len() ==> (#[trigger] s[i]).range.allows(env(s[i].variable)),
    ensures
        fits(p, s, shifted(p, s, env)),
        aligned(p, s, shifted(p, s, env)),
        forall|i: int|
            0 <= i < s.len() ==> #[trigger] shifted(p, s, env)[i] == field_mul(
                p,
                env(s[i].variable),
                pow2(s[i].exponent) as int,
            ),
        congruent(
            p,
            signed_total(s, shifted(p, s, env)),
            components_sum(components(p, s), env),
        ),
{
    let bits = shifted(p, s, env);
    assert forall|i: int| 0 <= i < s.len() implies ({
        &&& submask(#[trigger] bits[i], mask_of(p, s[i]))
        &&& bits[i] == field_mul(p, env(s[i].variable), pow2(s[i].exponent) as int)
        &&& may_wrap(p, s[i]) || bits[i] as int % (pow2(s[i].exponent) as int) == 0
    }) by {
        assert(candidate_wf(p, s[i]));
        lemma_shifted_value(p, s[i], env(s[i].variable));
    }
    lemma_shifted_sum(p, s, bits, env);
}

/// Bits within masks that are together below the modulus are elements of the field.
pub proof fn lemma_bits_small<K>(p: int, s: Seq<Candidate<K>>, bits: Seq<u64>, i: int)
    requires
        fits(p, s, bits),
        covered(p, s) < p,
        0 <= i < s.len(),
    ensures
        bits[i] < p,
{
    assert(submask(bits[i], mask_of(p, s[i])));
    lemma_submask_le(bits[i], mask_of(p, s[i]));
    lemma_mask_covered(p, s, i);
    lemma_submask_le(mask_of(p, s[i]), covered(p, s));
}

} // verus!
