//! Bit masks of machine words.
use vstd::arithmetic::power2::*;
use vstd::bits::*;
use vstd::prelude::*;

verus! {

/// All bits of `x` are bits of `mask`.
pub open spec fn submask(x: u64, mask: u64) -> bool {
    x & mask == x
}

/// The smallest mask of the form `2^k - 1` that is at least `max`.
pub open spec fn low_mask(max: nat) -> nat
    decreases max,
{
    if max == 0 {
        0
    } else {
        2 * low_mask(max / 2) + 1
    }
}

pub proof fn lemma_low_mask_bound(max: u64)
    ensures
        max <= low_mask(max as nat) <= u64::MAX,
{
    lemma2_to64_rest();
    lemma_low_mask_power(max as nat, 64);
}

proof fn lemma_low_mask_power(max: nat, k: nat)
    requires
        max < pow2(k),
    ensures
        max <= low_mask(max) < pow2(k),
    decreases k,
{
    if max > 0 {
        if k == 0 {
            lemma2_to64();
        } else {
            lemma_pow2_unfold(k);
            lemma_low_mask_power(max / 2, (k - 1) as nat);
        }
    }
}

/// The low mask is one less than a power of two, and no smaller one is at least `max`.
pub proof fn lemma_low_mask_least(max: nat)
    ensures
        max <= low_mask(max),
        max > 0 ==> low_mask(max) < 2 * max,
        exists|k: nat| low_mask(max) + 1 == #[trigger] pow2(k),
    decreases max,
{
    if max == 0 {
        lemma2_to64();
        assert(low_mask(max) + 1 == pow2(0));
    } else {
        lemma_low_mask_least(max / 2);
        let k = choose|k: nat| low_mask(max / 2) + 1 == #[trigger] pow2(k);
        lemma_pow2_unfold(k + 1);
        assert(low_mask(max) + 1 == pow2(k + 1));
    }
}

/// Every number up to `max` lies within the low mask of `max`.
pub proof fn lemma_low_mask_covers(x: u64, max: u64)
    requires
        x <= max,
    ensures
        submask(x, low_mask(max as nat) as u64),
    decreases max,
{
    lemma_low_mask_bound(max);
    if max == 0 {
        assert(x & 0 == 0) by (bit_vector);
    } else {
        lemma_low_mask_covers(x / 2, max / 2);
        lemma_low_mask_bound(max / 2);
        let h = low_mask((max / 2) as nat) as u64;
        let m = low_mask(max as nat) as u64;
        assert(x & m == x) by (bit_vector)
            requires
                m == 2 * h + 1,
                (x / 2) & h == x / 2,
        ;
    }
}

/// Bits of a sum show in the sum of the masks or in one of the masks.
pub proof fn lemma_sum_within(x: u64, y: u64, a: u64, b: u64)
    requires
        submask(x, a),
        submask(y, b),
        a + b <= u64::MAX,
    ensures
        x <= a,
        y <= b,
        submask((x + y) as u64, ((a + b) as u64) | a | b),
{
    assert(x <= a) by (bit_vector)
        requires
            x & a == x,
    ;
    assert(y <= b) by (bit_vector)
        requires
            y & b == y,
    ;
    let s = (x + y) as u64;
    let t = (a + b) as u64;
    assert(s & (t | a | b) == s) by (bit_vector)
        requires
            x & a == x,
            y & b == y,
            s == x + y,
            t == a + b,
    ;
}

pub proof fn lemma_submask_le(x: u64, mask: u64)
    requires
        submask(x, mask),
    ensures
        x <= mask,
{
    assert(x <= mask) by (bit_vector)
        requires
            x & mask == x,
    ;
}

/// Shifting keeps a number within its mask.
pub proof fn lemma_shift_within(x: u64, mask: u64, e: u64)
    requires
        submask(x, mask),
        e < 64,
        mask * pow2(e as nat) <= u64::MAX,
    ensures
        x * pow2(e as nat) <= u64::MAX,
        submask((x * pow2(e as nat)) as u64, (mask * pow2(e as nat)) as u64),
{
    lemma_submask_le(x, mask);
    assert(x * pow2(e as nat) <= mask * pow2(e as nat)) by (nonlinear_arith)
        requires
            x <= mask,
            pow2(e as nat) >= 0,
    ;
    lemma_u64_shl_is_mul(x, e);
    lemma_u64_shl_is_mul(mask, e);
    assert((x << e) & (mask << e) == (x << e)) by (bit_vector)
        requires
            x & mask == x,
    ;
}

/// The exponent of a power of two.
pub open spec fn exponent_of(n: int) -> Option<nat> {
    if exists|e: nat| pow2(e) == n {
        Some(choose|e: nat| pow2(e) == n)
    } else {
        None
    }
}

pub proof fn lemma_exponent_unique(n: int, e: nat)
    requires
        pow2(e) == n,
    ensures
        exponent_of(n) == Some(e),
{
    let c = choose|e: nat| pow2(e) == n;
    if c < e {
        lemma_pow2_strictly_increases(c, e);
    } else if e < c {
        lemma_pow2_strictly_increases(e, c);
    }
}

/// The exponent of a word that is a power of two is below the word size.
pub proof fn lemma_exponent_bound(n: u64)
    ensures
        exponent_of(n as int) matches Some(e) ==> e < 64 && pow2(e) == n,
{
    if let Some(e) = exponent_of(n as int) {
        lemma2_to64_rest();
        if e > 64 {
            lemma_pow2_strictly_increases(64, e);
        }
    }
}

/// The exponent `e` if `n` is `2^e`.
pub fn log2_exact(n: u64) -> (r: Option<u64>)
    ensures
        match r {
            Some(e) => exponent_of(n as int) == Some(e as nat),
            None => exponent_of(n as int) is None,
        },
{
    let mut e: u64 = 0;
    while e < 64
        invariant
            e <= 64,
            forall|k: nat| k < e ==> #[trigger] pow2(k) != n,
        decreases 64 - e,
    {
        proof {
            lemma_u64_pow2_no_overflow(e as nat);
            lemma_u64_shl_is_mul(1, e);
        }
        if n == 1u64 << e {
            proof {
                lemma_exponent_unique(n as int, e as nat);
            }
            return Some(e);
        }
        e += 1;
    }
    proof {
        lemma_exponent_bound(n);
    }
    None
}

/// The low mask of a number, see [`low_mask`].
pub fn low_mask_of(max: u64) -> (r: u64)
    ensures
        r == low_mask(max as nat),
    decreases max,
{
    proof {
        lemma_low_mask_bound(max);
    }
    if max == 0 {
        0
    } else {
        2 * low_mask_of(max / 2) + 1
    }
}

} // verus!
