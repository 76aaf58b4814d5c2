//! The field modulo `2^31 - 2^24 + 1`.
use vstd::arithmetic::div_mod::*;
use vstd::arithmetic::power2::*;
use vstd::prelude::*;

use crate::field::FieldElement;
use crate::modular::{
    is_prime, lemma_prime_by_squares, lemma_small, lemma_square_step, square_chain,
};

verus! {

/// The modulus `2^31 - 2^24 + 1`.
pub const ORDER: u32 = 0x7f00_0001;

/// An element of the field.
#[derive(Clone, Copy, Debug, PartialEq, Eq, Structural, Hash)]
pub struct KoalaBearField {
    value: u32,
}

/// The modulus is prime: squaring a root of unity leads to minus one.
proof fn lemma_order_is_prime()
    ensures
        is_prime(ORDER as int),
{
    let m = ORDER as int;
    assert(square_chain(m, 1791270792, 23) == m - 1) by {
        lemma_square_step(m, 1791270792, 1760025929, 23);
        lemma_square_step(m, 1760025929, 542991299, 22);
        lemma_square_step(m, 542991299, 1213133211, 21);
        lemma_square_step(m, 1213133211, 1364057261, 20);
        lemma_square_step(m, 1364057261, 339671193, 19);
        lemma_square_step(m, 339671193, 1816824389, 18);
        lemma_square_step(m, 1816824389, 373019801, 17);
        lemma_square_step(m, 373019801, 1848593786, 16);
        lemma_square_step(m, 1848593786, 1168510561, 15);
        lemma_square_step(m, 1168510561, 1047035213, 14);
        lemma_square_step(m, 1047035213, 809067698, 13);
        lemma_square_step(m, 809067698, 1989134074, 12);
        lemma_square_step(m, 1989134074, 2000983452, 11);
        lemma_square_step(m, 2000983452, 860702919, 10);
        lemma_square_step(m, 860702919, 665670555, 9);
        lemma_square_step(m, 665670555, 392596362, 8);
        lemma_square_step(m, 392596362, 699882112, 7);
        lemma_square_step(m, 699882112, 1548376985, 6);
        lemma_square_step(m, 1548376985, 170455089, 5);
        lemma_square_step(m, 170455089, 148625052, 4);
        lemma_square_step(m, 148625052, 1748172362, 3);
        lemma_square_step(m, 1748172362, 2113994754, 2);
        lemma_square_step(m, 2113994754, 2130706432, 1);
        lemma_small(m, m - 1);
    }
    lemma2_to64();
    assert((pow2(24) + 1) * (pow2(24) + 1) == 0x1000001 * 0x1000001);
    lemma_prime_by_squares(ORDER as int, 1791270792, 24);
}

impl KoalaBearField {
    /// The value is reduced.
    #[verifier::type_invariant]
    spec fn reduced(self) -> bool {
        self.value < ORDER
    }
}

impl FieldElement for KoalaBearField {
    open spec fn order() -> int {
        ORDER as int
    }

    closed spec fn val(self) -> int {
        self.value as int % (ORDER as int)
    }

    proof fn lemma_order() {
        lemma_order_is_prime();
        assert(Self::order() == ORDER as int);
    }

    proof fn lemma_val(self) {
        lemma_mod_bound(self.value as int, ORDER as int);
    }

    fn modulus() -> (r: u64) {
        ORDER as u64
    }

    fn from_integer(n: u64) -> (r: Self) {
        proof {
            lemma_mod_twice(n as int, ORDER as int);
        }
        KoalaBearField { value: (n % (ORDER as u64)) as u32 }
    }

    fn to_integer(self) -> (r: u64) {
        proof {
            use_type_invariant(self);
            lemma_small(ORDER as int, self.value as int);
        }
        self.value as u64
    }
}

impl From<u64> for KoalaBearField {
    /// The element that an integer stands for.
    fn from(n: u64) -> (r: Self)
        ensures
            r.val() == n as int % Self::order(),
    {
        Self::from_integer(n)
    }
}

impl vstd::std_specs::convert::FromSpecImpl<u64> for KoalaBearField {
    open spec fn obeys_from_spec() -> bool {
        false
    }

    open spec fn from_spec(n: u64) -> Self {
        arbitrary()
    }
}

} // verus!
