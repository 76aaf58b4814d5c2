//! The concrete parameters of the prover over the KoalaBear field.
use p3_challenger::DuplexChallenger;
use p3_commit::ExtensionMmcs;
use p3_dft::Radix2DitParallel;
use p3_field::extension::BinomialExtensionField;
use p3_field::{AbstractField, Field, PrimeField32};
use p3_fri::{FriConfig, TwoAdicFriPcs};
use p3_koala_bear::{DiffusionMatrixKoalaBear, KoalaBear};
use p3_merkle_tree::FieldMerkleTreeMmcs;
use p3_poseidon2::{poseidon2_round_numbers_128, Poseidon2, Poseidon2ExternalMatrixGeneral};
use p3_symmetric::{PaddingFreeSponge, TruncatedPermutation};
use p3_uni_stark::StarkConfig;
use vstd::arithmetic::power2::*;
use vstd::prelude::*;

use crate::field::FieldElement;
use crate::koala_bear::{KoalaBearField, ORDER};
use crate::modular::lemma_small;

verus! {

/// The degree of the S-box of the permutation.
pub const D: u64 = 3;

/// The width of the permutation.
pub const WIDTH: usize = 16;

/// The permutation that hashing, compression and the challenger are built on.
pub type Perm = Poseidon2<
    KoalaBear,
    Poseidon2ExternalMatrixGeneral,
    DiffusionMatrixKoalaBear,
    WIDTH,
    D,
>;

/// The degree of the extension field that challenges are drawn from.
pub const DEGREE: usize = 4;

/// The field that challenges are drawn from.
pub type FriChallenge = BinomialExtensionField<KoalaBear, DEGREE>;

/// The number of elements that the sponge takes in at a time.
pub const RATE: usize = 8;

/// The number of elements of a hash.
pub const OUT: usize = 8;

/// The hash function of the leaves.
pub type Hash = PaddingFreeSponge<Perm, WIDTH, RATE, OUT>;

/// The number of digests that are compressed into one.
pub const N: usize = 2;

/// The number of elements of a digest that is compressed.
pub const CHUNK: usize = 8;

/// The compression function of the inner nodes.
pub type Compress = TruncatedPermutation<Perm, N, CHUNK, WIDTH>;

/// The number of elements of a digest.
pub const DIGEST_ELEMS: usize = 8;

/// The commitments to values.
pub type ValMmcs = FieldMerkleTreeMmcs<
    <KoalaBear as Field>::Packing,
    <KoalaBear as Field>::Packing,
    Hash,
    Compress,
    DIGEST_ELEMS,
>;

/// The commitments to challenges.
pub type ChallengeMmcs = ExtensionMmcs<KoalaBear, FriChallenge, ValMmcs>;

/// The discrete Fourier transform.
pub type Dft = Radix2DitParallel;

/// The polynomial commitment scheme.
pub type MyPcs = TwoAdicFriPcs<KoalaBear, Dft, ValMmcs, ChallengeMmcs>;

/// The logarithm of the largest degree: the field has roots of unity of order `2^24`, and
/// of no higher power of two.
pub const LOG_MAX_DEGREE: usize = 24;

/// The logarithm of the blowup factor.
pub const FRI_LOG_BLOWUP: usize = 1;

/// The number of queries.
pub const FRI_NUM_QUERIES: usize = 100;

/// The bits of work that a proof has to show.
pub const FRI_PROOF_OF_WORK_BITS: usize = 16;

/// `p3_koala_bear::KoalaBear`, an element of the field.
#[verifier::external_type_specification]
#[verifier::external_body]
pub struct ExKoalaBear(KoalaBear);

/// `p3_poseidon2::Poseidon2ExternalMatrixGeneral`, a linear layer.
#[verifier::external_type_specification]
#[verifier::external_body]
pub struct ExPoseidon2ExternalMatrixGeneral(Poseidon2ExternalMatrixGeneral);

/// `p3_koala_bear::DiffusionMatrixKoalaBear`, a linear layer.
#[verifier::external_type_specification]
#[verifier::external_body]
pub struct ExDiffusionMatrixKoalaBear(DiffusionMatrixKoalaBear);

/// `p3_dft::Radix2DitParallel`, a discrete Fourier transform.
#[verifier::external_type_specification]
#[verifier::external_body]
pub struct ExRadix2DitParallel(Radix2DitParallel);

/// `p3_poseidon2::Poseidon2`, a permutation.
#[verifier::external_type_specification]
#[verifier::external_body]
#[verifier::reject_recursive_types(F)]
#[verifier::reject_recursive_types(MdsLight)]
#[verifier::reject_recursive_types(Diffusion)]
pub struct ExPoseidon2<F, MdsLight, Diffusion, const W: usize, const S: u64>(
    Poseidon2<F, MdsLight, Diffusion, W, S>,
);

/// `p3_field::extension::BinomialExtensionField`, an extension field.
#[verifier::external_type_specification]
#[verifier::external_body]
#[verifier::reject_recursive_types(AF)]
pub struct ExBinomialExtensionField<AF, const E: usize>(BinomialExtensionField<AF, E>);

/// `p3_symmetric::PaddingFreeSponge`, a hash function.
#[verifier::external_type_specification]
#[verifier::external_body]
#[verifier::reject_recursive_types(P)]
pub struct ExPaddingFreeSponge<P, const W: usize, const R: usize, const O: usize>(
    PaddingFreeSponge<P, W, R, O>,
);

/// `p3_symmetric::TruncatedPermutation`, a compression function.
#[verifier::external_type_specification]
#[verifier::external_body]
#[verifier::reject_recursive_types(InnerP)]
pub struct ExTruncatedPermutation<InnerP, const I: usize, const L: usize, const W: usize>(
    TruncatedPermutation<InnerP, I, L, W>,
);

/// `p3_merkle_tree::FieldMerkleTreeMmcs`, commitments by Merkle trees.
#[verifier::external_type_specification]
#[verifier::external_body]
#[verifier::reject_recursive_types(P)]
#[verifier::reject_recursive_types(PW)]
#[verifier::reject_recursive_types(H)]
#[verifier::reject_recursive_types(C)]
pub struct ExFieldMerkleTreeMmcs<P, PW, H, C, const L: usize>(
    FieldMerkleTreeMmcs<P, PW, H, C, L>,
);

/// `p3_commit::ExtensionMmcs`, commitments to elements of an extension field.
#[verifier::external_type_specification]
#[verifier::external_body]
#[verifier::reject_recursive_types(F)]
#[verifier::reject_recursive_types(EF)]
#[verifier::reject_recursive_types(InnerMmcs)]
pub struct ExExtensionMmcs<F, EF, InnerMmcs>(ExtensionMmcs<F, EF, InnerMmcs>);

/// `p3_fri::TwoAdicFriPcs`, a polynomial commitment scheme.
#[verifier::external_type_specification]
#[verifier::external_body]
#[verifier::reject_recursive_types(Val)]
#[verifier::reject_recursive_types(Transform)]
#[verifier::reject_recursive_types(InputMmcs)]
#[verifier::reject_recursive_types(FriMmcs)]
pub struct ExTwoAdicFriPcs<Val, Transform, InputMmcs, FriMmcs>(
    TwoAdicFriPcs<Val, Transform, InputMmcs, FriMmcs>,
);

/// The challenger, a `p3_challenger::DuplexChallenger`. That type is bounded by a trait of
/// `p3_symmetric`, so it has no declaration of its own here.
#[verifier::external_body]
pub struct FriChallenger {
    pub inner: DuplexChallenger<KoalaBear, Perm, WIDTH, RATE>,
}

/// The configuration, a `p3_uni_stark::StarkConfig`, which names the challenger.
#[verifier::external_body]
pub struct Config {
    pub inner: StarkConfig<MyPcs, FriChallenge, DuplexChallenger<KoalaBear, Perm, WIDTH, RATE>>,
}

/// The element that `KoalaBear::from_canonical_u32` gives for an integer below the modulus.
pub uninterp spec fn element(n: u32) -> KoalaBear;

/// `KoalaBear::from_canonical_u32` of the crate `p3_koala_bear`. The claim is that the
/// result depends on the integer alone. It is for integers below the modulus only.
#[verifier::external_body]
fn p3_element(n: u32) -> (r: KoalaBear)
    requires
        n < ORDER,
    ensures
        r == element(n),
{
    KoalaBear::from_canonical_u32(n)
}

/// `KoalaBear::as_canonical_u32` of the crate `p3_koala_bear`. The claim is that the result
/// is the one integer below the modulus that the element is made of.
#[verifier::external_body]
fn p3_canonical(e: KoalaBear) -> (r: u32)
    ensures
        r < ORDER,
        element(r) == e,
        forall|n: u32| n < ORDER && #[trigger] element(n) == e ==> n == r,
{
    e.as_canonical_u32()
}

/// The numbers of external and internal rounds for 128 bits of security over a field of 31
/// bits.
pub open spec fn round_numbers(width: usize, d: u64) -> (usize, usize) {
    if width == 16 {
        if d == 3 {
            (8, 20)
        } else if d == 5 {
            (8, 14)
        } else {
            (8, 13)
        }
    } else {
        if d == 3 {
            (8, 23)
        } else if d == 5 {
            (8, 22)
        } else {
            (8, 21)
        }
    }
}

/// `poseidon2_round_numbers_128` of the crate `p3_poseidon2`, for the field `KoalaBear`. The
/// claim is that it returns the numbers of its table for widths of 16 and 24 and S-boxes of
/// the odd degrees from 3 to 11. It panics on all other arguments.
#[verifier::external_body]
fn p3_round_numbers(width: usize, d: u64) -> (r: (usize, usize))
    requires
        width == 16 || width == 24,
        d == 3 || d == 5 || d == 7 || d == 9 || d == 11,
    ensures
        r == round_numbers(width, d),
{
    poseidon2_round_numbers_128::<KoalaBear>(width, d)
}

/// The permutation that `Poseidon2::new` makes of round constants, with the linear layers
/// `Poseidon2ExternalMatrixGeneral` and `DiffusionMatrixKoalaBear`.
pub uninterp spec fn poseidon2(
    rounds_f: usize,
    external: Seq<[KoalaBear; 16]>,
    rounds_p: usize,
    internal: Seq<KoalaBear>,
) -> Perm;

/// `Poseidon2::new` of the crate `p3_poseidon2`, with the two linear layers of the field. The
/// claim is that the result depends on the numbers of rounds and the constants alone.
#[verifier::external_body]
fn p3_permutation(
    rounds_f: usize,
    external: Vec<[KoalaBear; 16]>,
    rounds_p: usize,
    internal: Vec<KoalaBear>,
) -> (r: Perm)
    ensures
        r == poseidon2(rounds_f, external@, rounds_p, internal@),
{
    Perm::new(
        rounds_f,
        external,
        Poseidon2ExternalMatrixGeneral,
        rounds_p,
        internal,
        DiffusionMatrixKoalaBear::default(),
    )
}

/// The hash function that `PaddingFreeSponge::new` makes of a permutation.
pub uninterp spec fn sponge(permutation: Perm) -> Hash;

/// `PaddingFreeSponge::new` of the crate `p3_symmetric`, on a copy of the permutation. The
/// claim is that the result depends on the permutation alone.
#[verifier::external_body]
fn p3_sponge(permutation: &Perm) -> (r: Hash)
    ensures
        r == sponge(*permutation),
{
    Hash::new(permutation.clone())
}

/// The compression function that `TruncatedPermutation::new` makes of a permutation.
pub uninterp spec fn compression(permutation: Perm) -> Compress;

/// `TruncatedPermutation::new` of the crate `p3_symmetric`, on a copy of the permutation. The
/// claim is that the result depends on the permutation alone.
#[verifier::external_body]
fn p3_compression(permutation: &Perm) -> (r: Compress)
    ensures
        r == compression(*permutation),
{
    Compress::new(permutation.clone())
}

/// The commitments that `FieldMerkleTreeMmcs::new` makes of a hash and a compression
/// function.
pub uninterp spec fn value_commitments(hash: Hash, compress: Compress) -> ValMmcs;

/// `FieldMerkleTreeMmcs::new` of the crate `p3_merkle_tree`. The claim is that the result
/// depends on the two functions alone.
#[verifier::external_body]
fn p3_value_commitments(hash: Hash, compress: Compress) -> (r: ValMmcs)
    ensures
        r == value_commitments(hash, compress),
{
    ValMmcs::new(hash, compress)
}

/// The commitments that `ExtensionMmcs::new` makes of commitments to values.
pub uninterp spec fn challenge_commitments(inner: ValMmcs) -> ChallengeMmcs;

/// `ExtensionMmcs::new` of the crate `p3_commit`, on a copy of the commitments to values. The
/// claim is that the result depends on these alone.
#[verifier::external_body]
fn p3_challenge_commitments(inner: &ValMmcs) -> (r: ChallengeMmcs)
    ensures
        r == challenge_commitments(*inner),
{
    ChallengeMmcs::new(inner.clone())
}

/// The scheme that `TwoAdicFriPcs::new` makes of a degree bound, commitments to values and
/// the fields of a `FriConfig`, with the transform `Radix2DitParallel`.
pub uninterp spec fn commitment_scheme(
    log_max_degree: usize,
    values: ValMmcs,
    log_blowup: usize,
    num_queries: usize,
    proof_of_work_bits: usize,
    challenges: ChallengeMmcs,
) -> MyPcs;

/// `TwoAdicFriPcs::new` of the crate `p3_fri`, with a `FriConfig` of the given fields and the
/// transform of the crate `p3_dft`. The claim is that the result depends on the arguments
/// alone.
#[verifier::external_body]
fn p3_commitment_scheme(
    log_max_degree: usize,
    values: ValMmcs,
    log_blowup: usize,
    num_queries: usize,
    proof_of_work_bits: usize,
    challenges: ChallengeMmcs,
) -> (r: MyPcs)
    ensures
        r == commitment_scheme(
            log_max_degree,
            values,
            log_blowup,
            num_queries,
            proof_of_work_bits,
            challenges,
        ),
{
    let fri_config = FriConfig { log_blowup, num_queries, proof_of_work_bits, mmcs: challenges };
    MyPcs::new(log_max_degree, Dft::default(), values, fri_config)
}

/// The challenger that `DuplexChallenger::new` makes of a permutation.
pub uninterp spec fn challenger(permutation: Perm) -> FriChallenger;

/// `DuplexChallenger::new` of the crate `p3_challenger`, on a copy of the permutation. The
/// claim is that the result depends on the permutation alone.
#[verifier::external_body]
fn p3_challenger(permutation: &Perm) -> (r: FriChallenger)
    ensures
        r == challenger(*permutation),
{
    FriChallenger { inner: DuplexChallenger::new(permutation.clone()) }
}

/// The configuration that `StarkConfig::new` makes of a commitment scheme.
pub uninterp spec fn configuration(pcs: MyPcs) -> Config;

/// `StarkConfig::new` of the crate `p3_uni_stark`. The claim is that the result depends on
/// the commitment scheme alone.
#[verifier::external_body]
fn p3_configuration(pcs: MyPcs) -> (r: Config)
    ensures
        r == configuration(pcs),
{
    Config { inner: StarkConfig::new(pcs) }
}

/// How the parameters fit together: the state of the permutation has the rate and a digest as
/// capacity, two digests are compressed to one, and the multiplicative group of the field has
/// the largest domain as subgroup and none twice as large. The queries and the work of a proof
/// are worth 116 bits together.
pub proof fn lemma_parameters()
    ensures
        WIDTH == RATE + DIGEST_ELEMS,
        WIDTH == N * CHUNK,
        OUT == DIGEST_ELEMS,
        CHUNK == DIGEST_ELEMS,
        (ORDER - 1) % (pow2(LOG_MAX_DEGREE as nat) as int) == 0,
        (ORDER - 1) % (pow2(LOG_MAX_DEGREE as nat + 1) as int) != 0,
        FRI_NUM_QUERIES * FRI_LOG_BLOWUP + FRI_PROOF_OF_WORK_BITS == 116,
{
    lemma2_to64();
    lemma_pow2_unfold(25);
    assert(pow2(24) == 0x100_0000);
    assert(pow2(25) == 0x200_0000);
    assert(LOG_MAX_DEGREE as nat + 1 == 25);
}

/// The numbers of external and internal rounds of the permutation.
pub fn rounds() -> (r: (usize, usize))
    ensures
        r == (8usize, 20usize),
{
    p3_round_numbers(WIDTH, D)
}

/// The permutation with these round constants, one for each round.
pub fn permutation(external: Vec<[KoalaBear; 16]>, internal: Vec<KoalaBear>) -> (r: Perm)
    requires
        external@.len() == 8,
        internal@.len() == 20,
    ensures
        r == poseidon2(8, external@, 20, internal@),
{
    let (rounds_f, rounds_p): (usize, usize) = rounds();
    p3_permutation(rounds_f, external, rounds_p, internal)
}

/// What values are committed to with, all by the same permutation.
pub open spec fn commitments_by(permutation: Perm) -> ValMmcs {
    value_commitments(sponge(permutation), compression(permutation))
}

/// The polynomial commitment scheme of the prover, with commitments by the permutation.
pub fn get_pcs(permutation: &Perm) -> (r: MyPcs)
    ensures
        r == commitment_scheme(
            24,
            commitments_by(*permutation),
            1,
            100,
            16,
            challenge_commitments(commitments_by(*permutation)),
        ),
{
    let hash = p3_sponge(permutation);
    let compress = p3_compression(permutation);
    let val_mmcs = p3_value_commitments(hash, compress);
    let challenge_mmcs = p3_challenge_commitments(&val_mmcs);
    p3_commitment_scheme(
        LOG_MAX_DEGREE,
        val_mmcs,
        FRI_LOG_BLOWUP,
        FRI_NUM_QUERIES,
        FRI_PROOF_OF_WORK_BITS,
        challenge_mmcs,
    )
}

/// The challenger of the prover, with the permutation.
pub fn get_challenger(permutation: &Perm) -> (r: FriChallenger)
    ensures
        r == challenger(*permutation),
{
    p3_challenger(permutation)
}

/// The configuration of the prover, with commitments by the permutation.
pub fn get_config(permutation: &Perm) -> (r: Config)
    ensures
        r == configuration(
            commitment_scheme(
                24,
                commitments_by(*permutation),
                1,
                100,
                16,
                challenge_commitments(commitments_by(*permutation)),
            ),
        ),
{
    p3_configuration(get_pcs(permutation))
}

impl KoalaBearField {
    /// The element as the prover has it.
    pub fn into_p3_field(self) -> (r: KoalaBear)
        ensures
            r == element(self.val() as u32),
    {
        proof {
            self.lemma_val();
        }
        p3_element(self.to_integer() as u32)
    }

    /// The element that the prover has. It is the one that [`Self::into_p3_field`] maps to
    /// `e`.
    pub fn from_p3_field(e: KoalaBear) -> (r: Self)
        ensures
            element(r.val() as u32) == e,
            forall|f: KoalaBearField|
                #[trigger] element(f.val() as u32) == e ==> f.val() == r.val(),
    {
        let n: u32 = p3_canonical(e);
        let r = Self::from_integer(n as u64);
        proof {
            lemma_small(ORDER as int, n as int);
            assert forall|f: KoalaBearField| #[trigger] element(f.val() as u32) == e implies f.val()
                == r.val() by {
                f.lemma_val();
                assert(f.val() as u32 == n);
            }
        }
        r
    }

    /// The largest degree of constraints. Evaluations can only be had where the commitment
    /// has them, so the bound follows from the blowup factor.
    pub fn degree_bound() -> (r: usize)
        ensures
            r == 3,
            r == pow2(FRI_LOG_BLOWUP as nat) + 1,
    {
        proof {
            lemma2_to64();
        }
        let one: usize = 1;
        assert(1usize << 1usize == 2) by (bit_vector);
        (one << FRI_LOG_BLOWUP) + 1
    }
}

} // verus!
