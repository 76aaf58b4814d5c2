//! The field modulo `2^64 - 2^32 + 1`.
use vstd::arithmetic::div_mod::*;
use vstd::arithmetic::power2::*;
use vstd::prelude::*;

use crate::field::FieldElement;
use crate::modular::{
    is_prime, lemma_prime_by_squares, lemma_small, lemma_square_step, square_chain,
};

verus! {

/// The modulus `2^64 - 2^32 + 1`.
pub const ORDER: u64 = 0xffff_ffff_0000_0001;

/// An element of the field.
#[derive(Clone, Copy, Debug, PartialEq, Eq, Structural, Hash)]
pub struct GoldilocksField {
    value: u64,
}

/// The modulus is prime: squaring a root of unity leads to minus one.
proof fn lemma_order_is_prime()
    ensures
        is_prime(ORDER as int),
{
    let m = ORDER as int;
    assert(square_chain(m, 1753635133440165772, 31) == m - 1) by {
        lemma_square_step(m, 1753635133440165772, 4614640910117430873, 31);
        lemma_square_step(m, 4614640910117430873, 9123114210336311365, 30);
        lemma_square_step(m, 9123114210336311365, 16116352524544190054, 29);
        lemma_square_step(m, 16116352524544190054, 6414415596519834757, 28);
        lemma_square_step(m, 6414415596519834757, 1213594585890690845, 27);
        lemma_square_step(m, 1213594585890690845, 17096174751763063430, 26);
        lemma_square_step(m, 17096174751763063430, 5456943929260765144, 25);
        lemma_square_step(m, 5456943929260765144, 9713644485405565297, 24);
        lemma_square_step(m, 9713644485405565297, 16905767614792059275, 23);
        lemma_square_step(m, 16905767614792059275, 5416168637041100469, 22);
        lemma_square_step(m, 5416168637041100469, 17654865857378133588, 21);
        lemma_square_step(m, 17654865857378133588, 3511170319078647661, 20);
        lemma_square_step(m, 3511170319078647661, 18146160046829613826, 19);
        lemma_square_step(m, 18146160046829613826, 9306717745644682924, 18);
        lemma_square_step(m, 9306717745644682924, 12380578893860276750, 17);
        lemma_square_step(m, 12380578893860276750, 6115771955107415310, 16);
        lemma_square_step(m, 6115771955107415310, 17776499369601055404, 15);
        lemma_square_step(m, 17776499369601055404, 16207902636198568418, 14);
        lemma_square_step(m, 16207902636198568418, 1532612707718625687, 13);
        lemma_square_step(m, 1532612707718625687, 17492915097719143606, 12);
        lemma_square_step(m, 17492915097719143606, 455906449640507599, 11);
        lemma_square_step(m, 455906449640507599, 11353340290879379826, 10);
        lemma_square_step(m, 11353340290879379826, 1803076106186727246, 9);
        lemma_square_step(m, 1803076106186727246, 13797081185216407910, 8);
        lemma_square_step(m, 13797081185216407910, 17870292113338400769, 7);
        lemma_square_step(m, 17870292113338400769, 549755813888, 6);
        lemma_square_step(m, 549755813888, 70368744161280, 5);
        lemma_square_step(m, 70368744161280, 17293822564807737345, 4);
        lemma_square_step(m, 17293822564807737345, 18446744069397807105, 3);
        lemma_square_step(m, 18446744069397807105, 281474976710656, 2);
        lemma_square_step(m, 281474976710656, 18446744069414584320, 1);
        lemma_small(m, m - 1);
    }
    lemma2_to64();
    assert((pow2(32) + 1) * (pow2(32) + 1) == 0x100000001 * 0x100000001);
    lemma_prime_by_squares(ORDER as int, 1753635133440165772, 32);
}

impl GoldilocksField {
    /// The value is reduced.
    #[verifier::type_invariant]
    spec fn reduced(self) -> bool {
        self.value < ORDER
    }
}

impl FieldElement for GoldilocksField {
    open spec fn order() -> int {
        ORDER as int
    }

    closed spec fn val(self) -> int {
        self.value as int % (ORDER as int)
    }

    proof fn lemma_order() {
        lemma_order_is_prime();
        assert(Self::order() == ORDER as int);
    }

    proof fn lemma_val(self) {
        lemma_mod_bound(self.value as int, ORDER as int);
    }

    fn modulus() -> (r: u64) {
        ORDER
    }

    fn from_integer(n: u64) -> (r: Self) {
        proof {
            lemma_mod_twice(n as int, ORDER as int);
        }
        GoldilocksField { value: n % ORDER }
    }

    fn to_integer(self) -> (r: u64) {
        proof {
            use_type_invariant(self);
            lemma_small(ORDER as int, self.value as int);
        }
        self.value
    }
}

impl From<u64> for GoldilocksField {
    /// The element that an integer stands for.
    fn from(n: u64) -> (r: Self)
        ensures
            r.val() == n as int % Self::order(),
    {
        Self::from_integer(n)
    }
}

impl vstd::std_specs::convert::FromSpecImpl<u64> for GoldilocksField {
    open spec fn obeys_from_spec() -> bool {
        false
    }

    open spec fn from_spec(n: u64) -> Self {
        arbitrary()
    }
}

} // verus!
