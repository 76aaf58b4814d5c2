//! Arithmetic modulo a number, and a criterion for primality.
use vstd::arithmetic::div_mod::*;
use vstd::arithmetic::mul::*;
use vstd::arithmetic::power::*;
use vstd::arithmetic::power2::*;
use vstd::prelude::*;
use vstd::relations::injective_on;
use vstd::set_lib::*;

verus! {

/// `a` and `b` leave the same remainder modulo `m`.
pub open spec fn congruent(m: int, a: int, b: int) -> bool {
    a % m == b % m
}

/// `n` has no divisor strictly between one and itself.
pub open spec fn is_prime(n: int) -> bool {
    &&& n > 1
    &&& forall|d: int| 1 < d < n ==> #[trigger] (n % d) != 0
}

pub proof fn lemma_congruent_add(m: int, a: int, b: int, c: int, d: int)
    requires
        m > 0,
        congruent(m, a, b),
        congruent(m, c, d),
    ensures
        congruent(m, a + c, b + d),
{
    lemma_add_mod_noop(a, c, m);
    lemma_add_mod_noop(b, d, m);
}

pub proof fn lemma_congruent_sub(m: int, a: int, b: int, c: int, d: int)
    requires
        m > 0,
        congruent(m, a, b),
        congruent(m, c, d),
    ensures
        congruent(m, a - c, b - d),
{
    lemma_sub_mod_noop(a, c, m);
    lemma_sub_mod_noop(b, d, m);
}

pub proof fn lemma_congruent_mul(m: int, a: int, b: int, c: int, d: int)
    requires
        m > 0,
        congruent(m, a, b),
        congruent(m, c, d),
    ensures
        congruent(m, a * c, b * d),
{
    lemma_mul_mod_noop_general(a, c, m);
    lemma_mul_mod_noop_general(b, d, m);
}

pub proof fn lemma_congruent_mod(m: int, a: int)
    requires
        m > 0,
    ensures
        congruent(m, a % m, a),
        0 <= a % m < m,
{
    lemma_mod_twice(a, m);
    lemma_mod_bound(a, m);
}

pub proof fn lemma_small(m: int, a: int)
    requires
        0 <= a < m,
    ensures
        a % m == a,
{
    lemma_small_mod(a as nat, m as nat);
}

/// Two numbers less than `m` apart are congruent only if they are equal.
pub proof fn lemma_congruent_close(m: int, a: int, b: int)
    requires
        m > 0,
        congruent(m, a, b),
        -m < a - b < m,
    ensures
        a == b,
{
    lemma_mod_equivalence(a, b, m);
    let d = a - b;
    if d > 0 {
        lemma_small(m, d);
    } else if d < 0 {
        lemma_mod_add_multiples_vanish(d, m);
        lemma_small(m, d + m);
    }
}

/// Adding a multiple of the modulus changes nothing.
pub proof fn lemma_congruent_multiple(m: int, a: int, k: int)
    requires
        m > 0,
    ensures
        congruent(m, a + k * m, a),
        congruent(m, a + m * k, a),
{
    lemma_mod_multiples_vanish(k, a, m);
    lemma_mul_is_commutative(k, m);
}

/// Congruence modulo `m` carries over to every divisor of `m`.
pub proof fn lemma_congruent_divisor(m: int, d: int, a: int, b: int)
    requires
        m > 0,
        d > 0,
        m % d == 0,
        congruent(m, a, b),
    ensures
        congruent(d, a, b),
{
    let k = a / m - b / m;
    let q = m / d;
    lemma_fundamental_div_mod(a, m);
    lemma_fundamental_div_mod(b, m);
    lemma_fundamental_div_mod(m, d);
    assert(a == b + k * q * d) by (nonlinear_arith)
        requires
            a == m * (a / m) + a % m,
            b == m * (b / m) + b % m,
            a % m == b % m,
            m == d * q,
            k == a / m - b / m,
    ;
    lemma_congruent_multiple(d, b, k * q);
}

proof fn lemma_pow_congruent(m: int, a: int, b: int, e: nat)
    requires
        m > 0,
        congruent(m, a, b),
    ensures
        congruent(m, pow(a, e), pow(b, e)),
{
    lemma_pow_mod_noop(a, e, m);
    lemma_pow_mod_noop(b, e, m);
}

proof fn lemma_pow_minus_one(k: nat)
    ensures
        pow(-1, 2 * k + 1) == -1,
    decreases k,
{
    reveal(pow);
    if k == 0 {
        assert(pow(-1, 1) == -1 * pow(-1, 0));
    } else {
        lemma_pow_minus_one((k - 1) as nat);
        assert(pow(-1, 2 * k + 1) == -1 * pow(-1, (2 * k) as nat));
        assert(pow(-1, (2 * k) as nat) == -1 * pow(-1, (2 * k - 1) as nat));
        assert(2 * ((k - 1) as nat) + 1 == (2 * k - 1) as nat);
    }
}

/// `b` squared `k` times over, modulo `m`.
pub open spec fn square_chain(m: int, b: int, k: nat) -> int
    decreases k,
{
    if k == 0 {
        b % m
    } else {
        square_chain(m, (b * b) % m, (k - 1) as nat)
    }
}

/// One step of evaluating a chain of squares.
pub proof fn lemma_square_step(m: int, b: int, c: int, k: nat)
    requires
        k > 0,
        (b * b) % m == c,
    ensures
        square_chain(m, b, k) == square_chain(m, c, (k - 1) as nat),
{
}

proof fn lemma_square_chain_pow(m: int, b: int, k: nat)
    requires
        m > 0,
    ensures
        square_chain(m, b, k) == pow(b, pow2(k)) % m,
    decreases k,
{
    if k == 0 {
        lemma_pow1(b);
        lemma2_to64();
    } else {
        let c = (b * b) % m;
        lemma_square_chain_pow(m, c, (k - 1) as nat);
        lemma_pow_mod_noop(b * b, pow2((k - 1) as nat), m);
        lemma_pow2_unfold(k);
        lemma_square_is_pow2(b);
        lemma_pow_multiplies(b, 2, pow2((k - 1) as nat));
    }
}

/// Where repeated squaring of `b` reaches minus one after `s - 1` steps, no smaller
/// power than `2^s` is one.
proof fn lemma_order(r: int, b: int, s: nat, k: nat)
    requires
        r > 2,
        s >= 1,
        congruent(r, pow(b, pow2((s - 1) as nat)), -1),
        0 < k < pow2(s),
    ensures
        !congruent(r, pow(b, k), 1),
    decreases s,
{
    if congruent(r, pow(b, k), 1) {
        let e = pow2((s - 1) as nat);
        if k % 2 == 1 {
            let h = (k / 2) as nat;
            assert(k == 2 * h + 1);
            lemma_pow_congruent(r, pow(b, e), -1, k);
            lemma_pow_minus_one(h);
            lemma_pow_congruent(r, pow(b, k), 1, e);
            lemma1_pow(e);
            lemma_pow_multiplies(b, e, k);
            lemma_pow_multiplies(b, k, e);
            lemma_mul_is_commutative(e as int, k as int);
            assert(congruent(r, -1, 1));
            lemma_congruent_close(r, -1, 1);
        } else {
            let h = (k / 2) as nat;
            assert(k == 2 * h);
            if s == 1 {
                lemma2_to64();
            } else {
                lemma_square_is_pow2(b);
                lemma_pow_multiplies(b, 2, h);
                lemma_pow2_unfold(s);
                lemma_pow2_unfold((s - 1) as nat);
                lemma_pow_multiplies(b, 2, pow2((s - 2) as nat));
                lemma_order(r, b * b, (s - 1) as nat, h);
            }
        }
    }
}

/// A modulus in which repeated squaring reaches minus one after `s - 1` steps exceeds `2^s`.
proof fn lemma_modulus_exceeds(r: int, b: int, s: nat)
    requires
        r > 2,
        s >= 1,
        congruent(r, pow(b, pow2((s - 1) as nat)), -1),
    ensures
        r > pow2(s),
{
    let n = pow2(s);
    let e = pow2((s - 1) as nat);
    lemma_pow2_unfold(s);
    lemma_pow2_pos(s);
    lemma_pow_adds(b, e, e);
    lemma_congruent_mul(r, pow(b, e), -1, pow(b, e), -1);
    assert(congruent(r, pow(b, n), 1));
    lemma_small(r, 1);
    let f = |i: int| pow(b, i as nat) % r;
    let domain = set_int_range(0, n as int);
    lemma_int_range(0, n as int);
    assert forall|i: int| 0 <= i < n implies 1 <= #[trigger] f(i) < r by {
        lemma_mod_bound(pow(b, i as nat), r);
        if f(i) == 0 {
            lemma_pow_adds(b, i as nat, (n - i) as nat);
            lemma_small(r, 0);
            let rest = pow(b, (n - i) as nat);
            lemma_congruent_mul(r, pow(b, i as nat), 0, rest, rest);
        }
    }
    assert forall|i: int, j: int| 0 <= i < j < n implies #[trigger] f(i) != #[trigger] f(j) by {
        if f(i) == f(j) {
            let c = pow(b, (n - i) as nat);
            lemma_congruent_mul(r, pow(b, i as nat), pow(b, j as nat), c, c);
            lemma_pow_adds(b, i as nat, (n - i) as nat);
            lemma_pow_adds(b, j as nat, (n - i) as nat);
            lemma_pow_adds(b, n, (j - i) as nat);
            lemma_congruent_mul(r, pow(b, n), 1, pow(b, (j - i) as nat), pow(b, (j - i) as nat));
            assert(congruent(r, pow(b, (j - i) as nat), 1));
            lemma_order(r, b, s, (j - i) as nat);
        }
    }
    assert(injective_on(f, domain)) by {
        assert forall|i: int, j: int|
            domain.contains(i) && domain.contains(j) && #[trigger] f(i) == #[trigger] f(j) implies i
            == j by {
            if i < j {
                assert(f(i) != f(j));
            } else if j < i {
                assert(f(j) != f(i));
            }
        }
    }
    let image = domain.map(f);
    lemma_map_size(domain, image, f);
    lemma_int_range(1, r);
    assert(image.subset_of(set_int_range(1, r)));
    lemma_len_subset(image, set_int_range(1, r));
}

/// An odd number below `(2^s + 1)^2` is prime where some number squared `s - 1` times over
/// is minus one.
pub proof fn lemma_prime_by_squares(n: int, b: int, s: nat)
    requires
        n > 2,
        n % 2 == 1,
        s >= 1,
        n < (pow2(s) + 1) * (pow2(s) + 1),
        square_chain(n, b, (s - 1) as nat) == n - 1,
    ensures
        is_prime(n),
{
    let e = pow2((s - 1) as nat);
    lemma_square_chain_pow(n, b, (s - 1) as nat);
    lemma_mod_add_multiples_vanish(-1, n);
    lemma_small(n, n - 1);
    assert(congruent(n, pow(b, e), -1));
    assert forall|d: int| 1 < d < n implies #[trigger] (n % d) != 0 by {
        if n % d == 0 {
            let m = n / d;
            lemma_fundamental_div_mod(n, d);
            assert(n == d * m);
            assert(1 < m < n) by (nonlinear_arith)
                requires
                    n == d * m,
                    1 < d < n,
                    n > 2,
            ;
            lemma_mod_multiples_basic(d, m);
            lemma_mul_is_commutative(d, m);
            assert(d != 2 && m != 2) by (nonlinear_arith)
                requires
                    n == d * m,
                    n % 2 == 1,
            ;
            lemma_congruent_divisor(n, d, pow(b, e), -1);
            lemma_congruent_divisor(n, m, pow(b, e), -1);
            lemma_modulus_exceeds(d, b, s);
            lemma_modulus_exceeds(m, b, s);
            assert(d * m >= (pow2(s) + 1) * (pow2(s) + 1)) by (nonlinear_arith)
                requires
                    d >= pow2(s) + 1,
                    m >= pow2(s) + 1,
            ;
        }
    }
}

/// Modulo a prime every number but the multiples of it has an inverse.
pub proof fn lemma_inverse_exists(p: int, b: int) -> (x: int)
    requires
        is_prime(p),
        0 < b < p,
    ensures
        0 <= x < p,
        (b * x) % p == 1,
    decreases b,
{
    if b == 1 {
        lemma_small(p, 1);
        1
    } else {
        let q = p / b;
        let r = p % b;
        lemma_fundamental_div_mod(p, b);
        lemma_mod_bound(p, b);
        let y = lemma_inverse_exists(p, r);
        let x = (-(q * y)) % p;
        lemma_congruent_mod(p, -(q * y));
        lemma_congruent_mul(p, b, b, x, -(q * y));
        assert(b * (-(q * y)) == r * y + (-y) * p) by (nonlinear_arith)
            requires
                p == b * q + r,
        ;
        lemma_congruent_multiple(p, r * y, -y);
        x
    }
}

} // verus!
