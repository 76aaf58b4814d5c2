use quadratic_jit::field::FieldElement;
use quadratic_jit::goldilocks::GoldilocksField;
use quadratic_jit::range_constraint::RangeConstraint;

const P: u64 = 0xffff_ffff_0000_0001;

type Rc = RangeConstraint<GoldilocksField>;

fn g(n: u64) -> GoldilocksField {
    GoldilocksField::from(n)
}

#[test]
fn constraints_are_printed() {
    assert_eq!(Rc::from_value(g(7)).to_string(), "[7, 7] & 0x7");
    assert_eq!(Rc::from_range(g(3), g(9)).to_string(), "[3, 9] & 0xf");
    assert_eq!(Rc::from_mask(0xff00).to_string(), "[0, 65280] & 0xff00");
    assert_eq!(
        Rc::unconstrained().to_string(),
        "[1, 0] & 0xffffffffffffffff"
    );
    assert_eq!(Rc::default(), Rc::unconstrained());
}

#[test]
fn widths() {
    assert_eq!(Rc::unconstrained().range_width(), P);
    assert_eq!(Rc::from_value(g(7)).range_width(), 1);
    assert_eq!(Rc::from_range(g(3), g(9)).range_width(), 7);
    assert_eq!(Rc::from_range(g(P - 1), g(1)).range_width(), 3);
}

#[test]
fn only_values_of_the_interval_and_the_mask_are_allowed() {
    let wrapping = Rc::from_range(g(P - 1), g(1));
    assert!(wrapping.allows_value(g(0)));
    assert!(wrapping.allows_value(g(P - 1)));
    assert!(!wrapping.allows_value(g(2)));
    let mask = Rc::from_mask(0b101);
    assert!(mask.allows_value(g(4)));
    assert!(!mask.allows_value(g(2)));
    assert!(!mask.allows_value(g(8)));
}

#[test]
fn single_values() {
    assert_eq!(Rc::from_value(g(5)).try_to_single_value(), Some(g(5)));
    assert_eq!(Rc::from_range(g(5), g(6)).try_to_single_value(), None);
}

#[test]
fn sums() {
    let a = Rc::from_range(g(3), g(9));
    let b = Rc::from_value(g(16));
    assert_eq!(a.combine_sum(&b).to_string(), "[19, 25] & 0x1f");
    assert_eq!(
        Rc::unconstrained().combine_sum(&b).to_string(),
        "[1, 0] & 0xffffffffffffffff"
    );
}

#[test]
fn multiples() {
    let a = Rc::from_mask(0xff);
    assert_eq!(a.multiple(g(0x100)).to_string(), "[0, 65280] & 0xff00");
    assert_eq!(a.multiple(g(3)).to_string(), "[0, 765] & 0x3ff");
    assert_eq!(
        a.negate().to_string(),
        "[18446744069414584066, 0] & 0xffffffffffffffff"
    );
}

#[test]
fn derived_constraints_allow_derived_values() {
    let a = Rc::from_range(g(P - 2), g(4));
    let b = Rc::from_mask(0b1010);
    for x in [P - 2, P - 1, 0, 1, 4] {
        for y in [0, 2, 8, 10] {
            assert!(a.allows_value(g(x)) && b.allows_value(g(y)));
            assert!(a.combine_sum(&b).allows_value(g(x).add(g(y))));
        }
        for f in [0, 1, 2, 3, 100, P - 1, P - 7, P / 2] {
            assert!(a.multiple(g(f)).allows_value(g(x).mul(g(f))));
        }
        assert!(a.negate().allows_value(g(x).neg()));
    }
}
