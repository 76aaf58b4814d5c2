use quadratic_jit::bits::{log2_exact, low_mask_of};
use quadratic_jit::field::FieldElement;
use quadratic_jit::goldilocks::GoldilocksField;
use quadratic_jit::koala_bear::KoalaBearField;

const GOLDILOCKS: u64 = 0xffff_ffff_0000_0001;
const KOALA_BEAR: u64 = 0x7f00_0001;

fn g(n: u64) -> GoldilocksField {
    GoldilocksField::from(n)
}

fn k(n: u64) -> KoalaBearField {
    KoalaBearField::from(n)
}

#[test]
fn moduli() {
    assert_eq!(GoldilocksField::modulus(), GOLDILOCKS);
    assert_eq!(KoalaBearField::modulus(), KOALA_BEAR);
}

#[test]
fn integers_are_reduced() {
    assert_eq!(g(GOLDILOCKS).to_integer(), 0);
    assert_eq!(g(u64::MAX).to_integer(), 0xffff_fffe);
    assert_eq!(k(KOALA_BEAR + 5).to_integer(), 5);
    assert_eq!(k(KOALA_BEAR - 1).to_integer(), KOALA_BEAR - 1);
}

#[test]
fn field_operations() {
    assert_eq!(g(GOLDILOCKS - 1).add(g(3)), g(2));
    assert_eq!(g(2).sub(g(5)), g(GOLDILOCKS - 3));
    assert_eq!(g(1).neg(), g(GOLDILOCKS - 1));
    assert_eq!(g(0).neg(), g(0));
    assert_eq!(g(1 << 63).mul(g(2)), g(0xffff_ffff));
    assert_eq!(k(KOALA_BEAR - 1).mul(k(KOALA_BEAR - 1)), k(1));
}

#[test]
fn division_undoes_multiplication() {
    assert_eq!(g(2).inverse(), g(GOLDILOCKS / 2 + 1));
    assert_eq!(g(10).div(g(5)), g(2));
    for n in 1..100 {
        assert_eq!(g(n).mul(g(n).inverse()), g(1));
        assert_eq!(k(n).mul(k(n).inverse()), k(1));
        assert_eq!(g(77).div(g(n)).mul(g(n)), g(77));
    }
}

#[test]
fn halves() {
    assert!(g((GOLDILOCKS - 1) / 2).is_in_lower_half());
    assert!(!g((GOLDILOCKS - 1) / 2 + 1).is_in_lower_half());
}

#[test]
fn exact_logarithms() {
    assert_eq!(log2_exact(0), None);
    assert_eq!(log2_exact(1), Some(0));
    assert_eq!(log2_exact(0x100), Some(8));
    assert_eq!(log2_exact(0x101), None);
    assert_eq!(log2_exact(1 << 63), Some(63));
}

#[test]
fn low_masks() {
    assert_eq!(low_mask_of(0), 0);
    assert_eq!(low_mask_of(1), 1);
    assert_eq!(low_mask_of(4), 7);
    assert_eq!(low_mask_of(u64::MAX), u64::MAX);
}
