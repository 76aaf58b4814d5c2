use p3_field::{AbstractField, PrimeField32};
use p3_koala_bear::KoalaBear;
use p3_symmetric::Permutation;
use p3_uni_stark::StarkGenericConfig;

use quadratic_jit::koala_bear::KoalaBearField;
use quadratic_jit::params::{get_challenger, get_config, get_pcs, permutation, rounds};

fn constants() -> (Vec<[KoalaBear; 16]>, Vec<KoalaBear>) {
    let external = (0..8)
        .map(|i| [KoalaBear::from_canonical_u32(i + 1); 16])
        .collect();
    let internal = (0..20).map(KoalaBear::from_canonical_u32).collect();
    (external, internal)
}

#[test]
fn elements_are_converted() {
    assert_eq!(
        KoalaBearField::from(5).into_p3_field(),
        KoalaBear::from_canonical_u32(5)
    );
    assert_eq!(
        KoalaBearField::from(0x7f00_0000).into_p3_field(),
        -KoalaBear::one()
    );
    assert_eq!(
        KoalaBearField::from_p3_field(KoalaBear::from_canonical_u32(123456)),
        KoalaBearField::from(123456)
    );
}

#[test]
fn conversions_undo_each_other() {
    for n in [0, 1, 2, 77, 0x7f00_0000] {
        let f = KoalaBearField::from(n);
        assert_eq!(KoalaBearField::from_p3_field(f.into_p3_field()), f);
        let e = KoalaBear::from_canonical_u32(n as u32);
        assert_eq!(KoalaBearField::from_p3_field(e).into_p3_field(), e);
        assert_eq!(f.into_p3_field().as_canonical_u32() as u64, n);
    }
}

#[test]
fn round_numbers_of_the_permutation() {
    assert_eq!(rounds(), (8, 20));
}

#[test]
fn the_degree_bound_follows_the_blowup() {
    assert_eq!(KoalaBearField::degree_bound(), 3);
}

#[test]
fn the_permutation_uses_its_constants() {
    let (external, internal) = constants();
    let zeros = [KoalaBear::zero(); 16];
    let a = permutation(external.clone(), internal.clone()).permute(zeros);
    let b = permutation(external.clone(), internal.clone()).permute(zeros);
    assert_eq!(a, b);
    assert_ne!(a, zeros);
    let mut other = internal;
    other[19] = KoalaBear::from_canonical_u32(1000);
    assert_ne!(a, permutation(external, other).permute(zeros));
}

#[test]
fn the_commitment_scheme_has_the_parameters() {
    let (external, internal) = constants();
    let pcs = get_pcs(&permutation(external, internal));
    let fri = pcs.fri_config();
    assert_eq!(fri.log_blowup, 1);
    assert_eq!(fri.num_queries, 100);
    assert_eq!(fri.proof_of_work_bits, 16);
    assert_eq!(fri.blowup() + 1, KoalaBearField::degree_bound());
}

#[test]
fn the_configuration_has_the_commitment_scheme() {
    let (external, internal) = constants();
    let config = get_config(&permutation(external, internal)).inner;
    let fri = config.pcs().fri_config();
    assert_eq!(fri.log_blowup, 1);
    assert_eq!(fri.num_queries, 100);
    assert_eq!(fri.proof_of_work_bits, 16);
}

#[test]
fn the_challenger_starts_empty_with_the_permutation() {
    let (external, internal) = constants();
    let perm = permutation(external, internal);
    let challenger = get_challenger(&perm).inner;
    let zeros = [KoalaBear::zero(); 16];
    assert_eq!(challenger.sponge_state, zeros);
    assert!(challenger.input_buffer.is_empty() && challenger.output_buffer.is_empty());
    assert_eq!(challenger.permutation.permute(zeros), perm.permute(zeros));
}
