//! Prime fields whose elements fit a machine word.
use vstd::arithmetic::div_mod::*;
use vstd::arithmetic::mul::*;
use vstd::prelude::*;

use crate::modular::{
    congruent, is_prime, lemma_congruent_mod, lemma_congruent_mul, lemma_congruent_multiple,
    lemma_inverse_exists, lemma_small,
};

verus! {

/// The sum of two elements of the field with `p` elements.
pub open spec fn field_add(p: int, a: int, b: int) -> int {
    (a + b) % p
}

/// The difference of two elements.
pub open spec fn field_sub(p: int, a: int, b: int) -> int {
    (a - b) % p
}

/// The additive inverse of an element.
pub open spec fn field_neg(p: int, a: int) -> int {
    (-a) % p
}

/// The product of two elements.
pub open spec fn field_mul(p: int, a: int, b: int) -> int {
    (a * b) % p
}

/// The multiplicative inverse of a nonzero element; zero for zero.
pub open spec fn field_inverse(p: int, b: int) -> int {
    if b % p == 0 {
        0
    } else {
        choose|x: int| 0 <= x < p && #[trigger] (b * x) % p == 1
    }
}

/// The quotient of two elements.
pub open spec fn field_quotient(p: int, a: int, b: int) -> int {
    field_mul(p, a, field_inverse(p, b))
}

/// An element of a prime field of at most 64 bits, represented by the integers
/// below the modulus.
pub trait FieldElement: Sized + Copy {
    /// The number of elements, a prime.
    spec fn order() -> int;

    /// The integer that represents the element.
    spec fn val(self) -> int;

    proof fn lemma_order()
        ensures
            is_prime(Self::order()),
            2 < Self::order() <= u64::MAX,
    ;

    proof fn lemma_val(self)
        ensures
            0 <= self.val() < Self::order(),
    ;

    /// The number of elements of the field.
    fn modulus() -> (r: u64)
        ensures
            r == Self::order(),
    ;

    /// The element that an integer stands for.
    fn from_integer(n: u64) -> (r: Self)
        ensures
            r.val() == n as int % Self::order(),
    ;

    /// The integer below the modulus that represents the element.
    fn to_integer(self) -> (r: u64)
        ensures
            r == self.val(),
    ;

    /// The element zero.
    fn zero() -> (r: Self)
        ensures
            r.val() == 0,
    {
        proof {
            Self::lemma_order();
            lemma_small(Self::order(), 0);
        }
        Self::from_integer(0)
    }

    /// The element one.
    fn one() -> (r: Self)
        ensures
            r.val() == 1,
    {
        proof {
            Self::lemma_order();
            lemma_small(Self::order(), 1);
        }
        Self::from_integer(1)
    }

    /// Whether two elements are the same.
    fn same(self, other: Self) -> (r: bool)
        ensures
            r == (self.val() == other.val()),
    {
        self.to_integer() == other.to_integer()
    }

    /// Whether the element is at most half the modulus, and so printed without a sign.
    fn is_in_lower_half(self) -> (r: bool)
        ensures
            r == (self.val() <= (Self::order() - 1) / 2),
    {
        proof {
            Self::lemma_order();
        }
        self.to_integer() <= (Self::modulus() - 1) / 2
    }

    fn add(self, other: Self) -> (r: Self)
        ensures
            r.val() == field_add(Self::order(), self.val(), other.val()),
    {
        proof {
            Self::lemma_order();
            self.lemma_val();
            other.lemma_val();
            lemma_mod_bound(self.val() + other.val(), Self::order());
            lemma_mod_twice(self.val() + other.val(), Self::order());
        }
        let p: u128 = Self::modulus() as u128;
        let sum: u128 = (self.to_integer() as u128 + other.to_integer() as u128) % p;
        Self::from_integer(sum as u64)
    }

    fn neg(self) -> (r: Self)
        ensures
            r.val() == field_neg(Self::order(), self.val()),
    {
        proof {
            Self::lemma_order();
            self.lemma_val();
            let p = Self::order();
            lemma_mod_add_multiples_vanish(-self.val(), p);
        }
        Self::from_integer(Self::modulus() - self.to_integer())
    }

    fn sub(self, other: Self) -> (r: Self)
        ensures
            r.val() == field_sub(Self::order(), self.val(), other.val()),
    {
        proof {
            Self::lemma_order();
            self.lemma_val();
            other.lemma_val();
            let p = Self::order();
            lemma_mod_add_multiples_vanish(self.val() - other.val(), p);
            lemma_mod_bound(self.val() - other.val(), p);
            lemma_mod_twice(self.val() - other.val(), p);
        }
        let p: u128 = Self::modulus() as u128;
        let difference: u128 = (self.to_integer() as u128 + p - other.to_integer() as u128) % p;
        Self::from_integer(difference as u64)
    }

    fn mul(self, other: Self) -> (r: Self)
        ensures
            r.val() == field_mul(Self::order(), self.val(), other.val()),
    {
        proof {
            Self::lemma_order();
            self.lemma_val();
            other.lemma_val();
            lemma_word_product(self.val(), other.val());
            lemma_mod_bound(self.val() * other.val(), Self::order());
            lemma_mod_twice(self.val() * other.val(), Self::order());
        }
        let p: u128 = Self::modulus() as u128;
        let product: u128 = (self.to_integer() as u128 * other.to_integer() as u128) % p;
        Self::from_integer(product as u64)
    }

    /// The multiplicative inverse of a nonzero element.
    fn inverse(self) -> (r: Self)
        requires
            self.val() != 0,
        ensures
            r.val() == field_inverse(Self::order(), self.val()),
    {
        proof {
            Self::lemma_order();
            self.lemma_val();
        }
        let ghost order = Self::order();
        let p: u64 = Self::modulus();
        let mut acc: u64 = 1;
        let mut b: u64 = self.to_integer();
        let ghost start = b as int;
        proof {
            lemma_small(order, start);
        }
        while b != 1
            invariant
                order == Self::order(),
                p == order,
                is_prime(order),
                2 < order <= u64::MAX,
                0 < b < p,
                acc < p,
                congruent(order, acc * start, b as int),
            decreases b,
        {
            let q: u64 = p / b;
            let r: u64 = p % b;
            proof {
                lemma_fundamental_div_mod(p as int, b as int);
                lemma_mod_bound(p as int, b as int);
                assert(r != 0) by {
                    assert(order % (b as int) != 0);
                }
                assert(0 < q <= p) by (nonlinear_arith)
                    requires
                        p == b * q + r,
                        0 < b < p,
                        0 <= r < b,
                        q >= 0,
                ;
                lemma_word_product(acc as int, p - q);
                let m = order;
                lemma_congruent_mod(m, acc * (p - q));
                lemma_congruent_mul(m, (acc * (p - q)) % m, acc * (p - q), start, start);
                assert(acc * (p - q) * start == (acc * start) * (p - q)) by (nonlinear_arith);
                lemma_congruent_mul(m, acc * start, b as int, p - q, p - q);
                assert(b * (p - q) == r + (b - 1) * m) by (nonlinear_arith)
                    requires
                        p == b * q + r,
                        m == p,
                ;
                lemma_congruent_multiple(m, r as int, b - 1);
            }
            acc = ((acc as u128 * (p - q) as u128) % (p as u128)) as u64;
            b = r;
        }
        proof {
            lemma_small(order, 1);
            lemma_mul_is_commutative(acc as int, start);
            lemma_inverse_unique(order, self.val(), acc as int);
            lemma_small(order, acc as int);
        }
        Self::from_integer(acc)
    }

    fn div(self, other: Self) -> (r: Self)
        requires
            other.val() != 0,
        ensures
            r.val() == field_quotient(Self::order(), self.val(), other.val()),
    {
        self.mul(other.inverse())
    }
}

/// The product of two words fits a double word.
pub proof fn lemma_word_product(a: int, b: int)
    requires
        0 <= a <= u64::MAX,
        0 <= b <= u64::MAX,
    ensures
        0 <= a * b <= u128::MAX,
{
    assert(0 <= a * b <= u64::MAX * u64::MAX) by (nonlinear_arith)
        requires
            0 <= a <= u64::MAX,
            0 <= b <= u64::MAX,
    ;
    assert(u64::MAX * u64::MAX <= u128::MAX) by (nonlinear_arith);
}

/// The inverse of a nonzero element is below the modulus, and is one.
pub proof fn lemma_inverse(p: int, b: int)
    requires
        is_prime(p),
        b % p != 0,
    ensures
        0 <= field_inverse(p, b) < p,
        (b * field_inverse(p, b)) % p == 1,
{
    let c = b % p;
    lemma_mod_bound(b, p);
    let x = lemma_inverse_exists(p, c);
    lemma_mul_mod_noop_left(b, x, p);
    assert(0 <= x < p && (b * x) % p == 1);
}

/// There is only one inverse.
pub proof fn lemma_inverse_unique(p: int, b: int, x: int)
    requires
        is_prime(p),
        0 <= x < p,
        (b * x) % p == 1,
    ensures
        b % p != 0,
        field_inverse(p, b) == x,
{
    let m = p;
    lemma_small(m, 1);
    lemma_small(m, 0);
    if b % p == 0 {
        lemma_congruent_mul(m, b, 0, x, x);
        assert(false);
    }
    lemma_inverse(p, b);
    let y = field_inverse(p, b);
    lemma_congruent_mul(m, b * x, 1, y, y);
    lemma_congruent_mul(m, b * y, 1, x, x);
    assert((b * x) * y == (b * y) * x) by (nonlinear_arith);
    lemma_small(m, x);
    lemma_small(m, y);
}

/// A quotient times its divisor is the dividend.
pub proof fn lemma_quotient(p: int, a: int, b: int)
    requires
        is_prime(p),
        b % p != 0,
    ensures
        field_mul(p, field_quotient(p, a, b), b) == a % p,
        0 <= field_quotient(p, a, b) < p,
{
    let m = p;
    let x = field_inverse(p, b);
    lemma_inverse(p, b);
    lemma_small(m, 1);
    lemma_congruent_mod(m, a * x);
    lemma_congruent_mul(m, (a * x) % p, a * x, b, b);
    assert((a * x) * b == (b * x) * a) by (nonlinear_arith);
    lemma_congruent_mul(m, b * x, 1, a, a);
}

/// Of a product of two elements that is zero, one factor is zero.
pub proof fn lemma_no_zero_divisors(p: int, a: int, b: int)
    requires
        is_prime(p),
        (a * b) % p == 0,
    ensures
        a % p == 0 || b % p == 0,
{
    if a % p != 0 {
        let m = p;
        let x = field_inverse(p, a);
        lemma_inverse(p, a);
        lemma_small(m, 0);
        lemma_small(m, 1);
        lemma_congruent_mul(m, a * b, 0, x, x);
        lemma_congruent_mul(m, a * x, 1, b, b);
        assert((a * b) * x == (a * x) * b) by (nonlinear_arith);
    }
}

/// The operations are the ones on integers, up to multiples of the modulus.
pub proof fn lemma_field_congruent(p: int, a: int, b: int)
    requires
        p > 0,
    ensures
        congruent(p, field_add(p, a, b), a + b),
        congruent(p, field_sub(p, a, b), a - b),
        congruent(p, field_neg(p, a), -a),
        congruent(p, field_mul(p, a, b), a * b),
        0 <= field_add(p, a, b) < p,
        0 <= field_sub(p, a, b) < p,
        0 <= field_neg(p, a) < p,
        0 <= field_mul(p, a, b) < p,
{
    let m = p;
    lemma_congruent_mod(m, a + b);
    lemma_congruent_mod(m, a - b);
    lemma_congruent_mod(m, -(a));
    lemma_congruent_mod(m, a * b);
}

} // verus!
