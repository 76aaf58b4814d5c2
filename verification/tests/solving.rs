use std::collections::HashMap;

use quadratic_jit::effect::Effect;
use quadratic_jit::field::FieldElement;
use quadratic_jit::goldilocks::GoldilocksField;
use quadratic_jit::quadratic_symbolic_expression::QuadraticSymbolicExpression;
use quadratic_jit::range_constraint::RangeConstraint;
use quadratic_jit::solution::Error;
use quadratic_jit::solve::{ProcessResult, RangeConstraintProvider};
use quadratic_jit::variable_update::VariableUpdate;

const P: u64 = 0xffff_ffff_0000_0001;

type Qse = QuadraticSymbolicExpression<GoldilocksField, &'static str>;
type Rc = RangeConstraint<GoldilocksField>;

struct Ranges(HashMap<&'static str, Rc>);

impl RangeConstraintProvider<GoldilocksField, &'static str> for Ranges {
    fn get(&self, var: &&'static str) -> Rc {
        self.0.get(var).cloned().unwrap_or_default()
    }
}

fn ranges(list: &[(&'static str, Rc)]) -> Ranges {
    Ranges(list.iter().cloned().collect())
}

fn g(n: u64) -> GoldilocksField {
    GoldilocksField::from(n)
}

fn number(n: u64) -> Qse {
    Qse::from(g(n))
}

fn unknown(name: &'static str) -> Qse {
    Qse::from_unknown_variable(name)
}

fn text(effect: &Effect<GoldilocksField, &'static str>) -> String {
    match effect {
        Effect::Assignment(v, e) => format!("{v} = {}", e.to_string()),
        Effect::RangeConstraint(v, rc) => format!("{v}: {}", rc.to_string()),
        Effect::Assertion(a) => format!(
            "{} {} {}",
            a.lhs.to_string(),
            if a.expected_equal { "==" } else { "!=" },
            a.rhs.to_string()
        ),
        Effect::BitDecomposition(d) => format!(
            "{} = {}",
            d.value.to_string(),
            d.components
                .iter()
                .map(|c| format!(
                    "{}{} << {} & {:x}",
                    if c.is_negative { "-" } else { "+" },
                    c.variable,
                    c.exponent,
                    c.bit_mask
                ))
                .collect::<Vec<_>>()
                .join(" ")
        ),
    }
}

fn texts(result: &ProcessResult<GoldilocksField, &'static str>) -> Vec<String> {
    result.effects.iter().map(text).collect()
}

#[test]
fn results() {
    let r: ProcessResult<GoldilocksField, &'static str> = ProcessResult::default();
    assert!(!r.complete && r.effects.is_empty());
    let r: ProcessResult<GoldilocksField, &'static str> = ProcessResult::empty();
    assert!(!r.complete && r.effects.is_empty());
    let r: ProcessResult<GoldilocksField, &'static str> = ProcessResult::complete(vec![]);
    assert!(r.complete && r.effects.is_empty());
}

#[test]
fn a_nonzero_number_is_unsatisfiable() {
    let r = number(1).solve(&ranges(&[]));
    assert_eq!(r.unwrap_err(), Error::ConstraintUnsatisfiable);
}

#[test]
fn a_known_expression_that_cannot_be_zero_is_unsatisfiable() {
    let mut e = Qse::from_known_symbol("a", Default::default()) + number(1);
    assert!(e.solve(&ranges(&[])).unwrap().complete);
    e.apply_update(&VariableUpdate {
        variable: "a",
        known: true,
        range_constraint: RangeConstraint::from_mask(0xff),
    });
    assert_eq!(
        e.solve(&ranges(&[])).unwrap_err(),
        Error::ConstraintUnsatisfiable
    );
}

#[test]
fn quadratic_equations_are_left_alone() {
    let r = (unknown("x") * unknown("y")).solve(&ranges(&[])).unwrap();
    assert!(!r.complete && r.effects.is_empty());
}

#[test]
fn one_variable_with_a_number() {
    let r = (unknown("x") * number(3) - number(21))
        .solve(&ranges(&[]))
        .unwrap();
    assert!(r.complete);
    assert_eq!(texts(&r), ["x = 7"]);
}

#[test]
fn one_variable_with_an_unconstrained_coefficient() {
    let a = Qse::from_known_symbol("a", Default::default());
    let r = (unknown("x") * a.clone() - number(5))
        .solve(&ranges(&[]))
        .unwrap();
    assert!(r.complete);
    assert_eq!(texts(&r), ["a != 0", "x = (-5 / -a)"]);
    let r = (unknown("x") * a.clone() + a).solve(&ranges(&[])).unwrap();
    assert!(!r.complete && r.effects.is_empty());
}

#[test]
fn bits_of_a_number_are_assigned_by_exponent() {
    let byte = Rc::from_mask(0xff);
    // The order of the exponents is not that of the names.
    let e = unknown("a") * number(0x100) + unknown("b") - number(0x1234);
    let r = e.solve(&ranges(&[("a", byte), ("b", byte)])).unwrap();
    assert!(r.complete);
    assert_eq!(texts(&r), ["b = 52", "a = 18"]);
}

#[test]
fn variables_with_the_same_exponent_stay_in_order() {
    let e = unknown("a") + unknown("b") + Qse::from_known_symbol("k", Default::default());
    let r = e
        .solve(&ranges(&[
            ("a", Rc::from_mask(0b0101)),
            ("b", Rc::from_mask(0b1010)),
        ]))
        .unwrap();
    assert_eq!(texts(&r), ["k = -a << 0 & 5 -b << 0 & a"]);
}

#[test]
fn bits_with_signs() {
    let byte = Rc::from_mask(0xff);
    // a - 256 * b = 3 - 256 * 7
    let e = unknown("a") - unknown("b") * number(0x100) - number(3) + number(0x700);
    let r = e.solve(&ranges(&[("a", byte), ("b", byte)])).unwrap();
    assert_eq!(texts(&r), ["a = 3", "b = 7"]);
}

#[test]
fn positional_ranges() {
    let byte = Rc::from_mask(0xff);
    let e = unknown("a") * number(0x100) + unknown("b") - number(0x1234);
    let r = e.solve_with(&vec![byte, byte]).unwrap();
    assert_eq!(texts(&r), ["b = 52", "a = 18"]);
    let r = e.solve_bit_decomposition(&vec![byte, byte]).unwrap();
    assert_eq!(texts(&r), ["b = 52", "a = 18"]);
    let r = e.solve_affine(&vec![byte, byte]).unwrap();
    assert_eq!(texts(&r), ["b = 52", "a = 18"]);
    let effect = e.transfer_constraints(&vec![byte, Rc::default()]).unwrap();
    assert_eq!(
        text(&effect),
        "b: [18446744069414523701, 4660] & 0xffffffffffffffff"
    );
}

#[test]
fn too_large_a_number_conflicts_with_the_ranges() {
    let byte = Rc::from_mask(0xff);
    let e = unknown("a") + unknown("b") * number(0x100) - number(0x10000);
    let constraints = ranges(&[("a", byte), ("b", byte)]);
    assert_eq!(
        e.solve(&constraints).unwrap_err(),
        Error::ConflictingRangeConstraints
    );
    assert_eq!(
        (-&e).solve(&constraints).unwrap_err(),
        Error::ConflictingRangeConstraints
    );
}

#[test]
fn a_number_with_foreign_bits_conflicts_with_the_ranges() {
    let e = unknown("a") + unknown("b") * number(0x100) - number(0x1034);
    let constraints = ranges(&[("a", Rc::from_mask(0xff)), ("b", Rc::from_mask(0xf))]);
    assert_eq!(
        e.solve(&constraints).unwrap_err(),
        Error::ConflictingRangeConstraints
    );
}

#[test]
fn negated_equations_have_the_same_assignments() {
    let byte = Rc::from_mask(0xff);
    let constraints = ranges(&[("a", byte), ("b", byte), ("c", byte)]);
    let e = unknown("a") * number(0x100) - unknown("b") + unknown("c") * number(0x10000)
        - number(0x123456);
    let r = e.solve(&constraints).unwrap();
    assert!(r.complete);
    assert_eq!(texts(&r), ["b = 170", "a = 53", "c = 18"]);
    assert_eq!(texts(&(-&e).solve(&constraints).unwrap()), texts(&r));
}

#[test]
fn overlapping_bits_are_not_decomposed() {
    let byte = Rc::from_mask(0xff);
    let e = unknown("a") * number(0x10) + unknown("b") - number(0x123);
    let r = e.solve(&ranges(&[("a", byte), ("b", byte)])).unwrap();
    assert!(!r.complete);
    assert_eq!(
        texts(&r),
        [
            "b: [18446744069414580532, 291] & 0xffffffffffffffff",
            "b: [18446744069414580532, 291] & 0xffffffffffffffff"
        ]
    );
}

#[test]
fn bits_that_reach_the_modulus_are_not_decomposed() {
    let e = unknown("a") * number(1 << 32) + unknown("b") - number(5);
    let word = Rc::from_mask(0xffff_ffff);
    let r = e.solve(&ranges(&[("a", word), ("b", word)])).unwrap();
    assert!(!r.complete);
}

#[test]
fn coefficients_have_to_be_powers_of_two() {
    let byte = Rc::from_mask(0xff);
    let e = unknown("a") * number(0x300) + unknown("b") * number(5) - number(5);
    let r = e.solve(&ranges(&[("a", byte), ("b", byte)])).unwrap();
    assert!(!r.complete && r.effects.is_empty());
}

#[test]
fn symbolic_coefficients_are_not_decomposed() {
    let byte = Rc::from_mask(0xff);
    let k = Qse::from_known_symbol("k", Default::default());
    let e = unknown("a") * k + unknown("b");
    let r = e.solve(&ranges(&[("a", byte), ("b", byte)])).unwrap();
    assert!(!r.complete && r.effects.is_empty());
}

#[test]
fn the_widest_variable_gets_the_constraint() {
    // x - y - z = 0
    let e = unknown("x") - unknown("y") - unknown("z");
    let r = e
        .solve(&ranges(&[
            ("x", Rc::from_mask(0xff)),
            ("y", Rc::from_range(g(1), g(4))),
        ]))
        .unwrap();
    assert!(!r.complete);
    assert_eq!(
        texts(&r),
        [
            "z: [18446744069414584317, 254] & 0xffffffffffffffff",
            "z: [18446744069414584317, 254] & 0xffffffffffffffff"
        ]
    );
}

#[test]
fn transferred_constraints_hold_of_solutions() {
    let e = unknown("x") - unknown("y") * number(3) - unknown("z") + number(2);
    let constraints = ranges(&[("y", Rc::from_range(g(2), g(5))), ("z", Rc::from_mask(0b101))]);
    let r = e.solve(&constraints).unwrap();
    assert_eq!(r.effects.len(), 2);
    for y in 2..=5 {
        for z in [0, 1, 4, 5] {
            let x = g(3 * y + z).sub(g(2));
            for effect in &r.effects {
                let Effect::RangeConstraint(v, rc) = effect else {
                    panic!("range constraint expected");
                };
                assert_eq!(*v, "x");
                assert!(rc.allows_value(x));
            }
        }
    }
}

#[test]
fn complete_results_are_about_all_variables() {
    let byte = Rc::from_mask(0xff);
    let e = unknown("a") * number(0x100) + unknown("b") + unknown("c") * number(0x10000);
    let constraints = ranges(&[("a", byte), ("b", byte), ("c", byte)]);
    let r = e.solve(&constraints).unwrap();
    assert!(r.complete);
    assert_eq!(texts(&r), ["b = 0", "a = 0", "c = 0"]);
}

#[test]
fn assignments_solve_the_equation() {
    let byte = Rc::from_mask(0xff);
    for n in [0u64, 1, 0xff, 0x100, 0xabcd, 0xffff] {
        let e = unknown("a") * number(0x100) + unknown("b") - number(n);
        let r = e.solve(&ranges(&[("a", byte), ("b", byte)])).unwrap();
        let mut solved = e.clone();
        for effect in r.effects {
            let Effect::Assignment(variable, value) = effect else {
                panic!("assignment expected");
            };
            solved.apply_update(&VariableUpdate {
                variable,
                known: true,
                range_constraint: Rc::from_value(value.try_to_number().unwrap()),
            });
        }
        assert_eq!(solved.to_string(), "0");
    }
}

#[test]
fn variables_that_wrap_are_read_off_bits() {
    // 2 * a + 4 * b = 1 has the solution a = (p + 1) / 2, b = 0.
    let half = P / 2 + 1;
    let e = unknown("a") * number(2) + unknown("b") * number(4) - number(1);
    let constraints = ranges(&[("a", Rc::from_value(g(half))), ("b", Rc::from_mask(1))]);
    let r = e.solve(&constraints).unwrap();
    assert!(r.complete);
    assert_eq!(texts(&r), ["a = -9223372034707292160", "b = 0"]);
    // 2^31 * a + 2^40 * b = 2^32 - 1 has the solution a = 2^33, b = 0.
    let e = unknown("a") * number(1 << 31) + unknown("b") * number(1 << 40)
        - number((1 << 32) - 1);
    let constraints = ranges(&[("a", Rc::from_value(g(1 << 33))), ("b", Rc::from_mask(1))]);
    let r = e.solve(&constraints).unwrap();
    assert!(r.complete);
    assert_eq!(texts(&r), ["a = 8589934592", "b = 0"]);
    // The same with a constant that is no number.
    let e = e + Qse::from_known_symbol("k", Default::default());
    let r = e.solve(&constraints).unwrap();
    assert!(r.complete && r.effects.len() == 1);
    match &r.effects[0] {
        Effect::BitDecomposition(d) => {
            let masks: Vec<(&str, u64, u64)> = d
                .components
                .iter()
                .map(|c| (c.variable, c.exponent, c.bit_mask))
                .collect();
            assert_eq!(masks, [("a", 31, (1 << 32) - 1), ("b", 40, 1 << 40)]);
        }
        _ => panic!(),
    }
}

#[test]
fn numbers_that_wrapping_variables_do_not_reach_conflict_with_the_ranges() {
    // 2 * x is 1 or 3, and 4 * y is 0 or 4.
    let x = Rc::from_range(g(P / 2 + 1), g(P / 2 + 2));
    assert_eq!(x.multiple(g(2)).mask(), 3);
    let constraints = ranges(&[("x", x), ("y", Rc::from_mask(1))]);
    let sum = unknown("x") * number(2) + unknown("y") * number(4);
    for n in [0, 1, 2, 8, 99] {
        let e = sum.clone() + number(n + 1);
        assert_eq!(
            e.solve(&constraints).unwrap_err(),
            Error::ConflictingRangeConstraints
        );
    }
    for (n, y) in [(1, 0), (5, 1)] {
        let r = (sum.clone() - number(n)).solve(&constraints).unwrap();
        assert!(r.complete);
        assert_eq!(
            texts(&r),
            ["x = -9223372034707292160".to_string(), format!("y = {y}")]
        );
    }
    let r = (sum.clone() - number(7)).solve(&constraints).unwrap();
    assert_eq!(texts(&r), ["x = -9223372034707292159", "y = 1"]);
}

#[test]
fn a_bit_decomposition_is_given_up_in_three_cases() {
    let bit = Rc::from_mask(1);
    // A coefficient that is no power of two.
    let e = unknown("x") + unknown("y") * number(3) - number(1);
    let r = e.solve_bit_decomposition(&vec![bit, bit]).unwrap();
    assert!(!r.complete && r.effects.is_empty());
    // Two masks that share a bit.
    let e = unknown("x") + unknown("y") * number(2) - number(1);
    let r = e.solve_bit_decomposition(&vec![Rc::from_mask(3), bit]).unwrap();
    assert!(!r.complete && r.effects.is_empty());
    // Masks that reach the modulus together.
    let e = unknown("x") + unknown("y") * number(1 << 32) - number(1);
    let word = Rc::from_mask(0xffff_ffff);
    let r = e.solve_bit_decomposition(&vec![word, word]).unwrap();
    assert!(!r.complete && r.effects.is_empty());
    // Otherwise it is not.
    let r = e.solve_bit_decomposition(&vec![bit, bit]).unwrap();
    assert!(r.complete);
    assert_eq!(texts(&r), ["x = 1", "y = 0"]);
}

#[test]
fn bits_below_a_shift_conflict_with_the_ranges() {
    // A mask of all bits on a small interval: the mask of the multiple covers low bits.
    let wide = Rc::from_range(g(P - 1), g(4)).combine_sum(&Rc::from_value(g(1)));
    assert_eq!(wide.to_string(), "[0, 5] & 0xffffffffffffffff");
    let constraints = ranges(&[("a", wide), ("b", Rc::from_mask(1))]);
    let sum = unknown("a") * number(4) + unknown("b") * number(32);
    let r = (sum.clone() - number(52)).solve(&constraints).unwrap();
    assert!(r.complete);
    assert_eq!(texts(&r), ["a = 5", "b = 1"]);
    assert_eq!(
        (sum - number(33)).solve(&constraints).unwrap_err(),
        Error::ConflictingRangeConstraints
    );
}

#[test]
fn bits_beyond_half_the_field_are_read() {
    let e = unknown("x") + unknown("y") * number(1 << 62) - number((1 << 63) - 1);
    let constraints = ranges(&[
        ("x", Rc::from_mask((1 << 62) - 1)),
        ("y", Rc::from_mask(1)),
    ]);
    let r = e.solve(&constraints).unwrap();
    assert_eq!(texts(&r), ["x = 4611686018427387903", "y = 1"]);

    let e = unknown("a") + unknown("b") * number(1 << 32) - number((1 << 63) - 1);
    let constraints = ranges(&[
        ("a", Rc::from_mask(0xffff_ffff)),
        ("b", Rc::from_mask(0x7fff_ffff)),
    ]);
    let r = e.solve(&constraints).unwrap();
    assert!(r.complete);
    assert_eq!(texts(&r), ["a = 4294967295", "b = 2147483647"]);
}

#[test]
fn interleaved_bits_with_signs_are_read() {
    let constraints = ranges(&[("x", Rc::from_mask(0b101)), ("y", Rc::from_mask(1))]);
    for x in [0, 1, 4, 5] {
        for y in [0, 1] {
            let e = unknown("x") - unknown("y") * number(2) - number(x) + number(2 * y);
            let r = e.solve(&constraints).unwrap();
            assert!(r.complete);
            assert_eq!(texts(&r), [format!("x = {x}"), format!("y = {y}")]);
        }
    }
}

#[test]
fn transferred_constraints_do_not_need_the_range_of_the_variable() {
    // x = y + 1, where the range given for the variable in question is wrong.
    let e = unknown("x") - unknown("y") - number(1);
    let effect = e
        .transfer_constraints(&vec![Rc::from_value(g(0)), Rc::from_value(g(9))])
        .unwrap();
    assert_eq!(
        text(&effect),
        "y: [18446744069414584320, 18446744069414584320] & 0xffffffff00000000"
    );
    let effect = e
        .transfer_constraints(&vec![Rc::from_range(g(0), g(1)), Rc::from_value(g(9))])
        .unwrap();
    assert_eq!(text(&effect), "x: [10, 10] & 0xf");
}

struct Unasked;

impl RangeConstraintProvider<GoldilocksField, &'static str> for Unasked {
    fn get(&self, var: &&'static str) -> Rc {
        panic!("asked for {var}");
    }
}

#[test]
fn ranges_are_asked_for_several_variables_only() {
    assert!(number(0).solve(&Unasked).unwrap().complete);
    assert!((unknown("x") + number(1)).solve(&Unasked).unwrap().complete);
    let quadratic = unknown("x") * unknown("y") + unknown("x") + unknown("z");
    assert!(!quadratic.solve(&Unasked).unwrap().complete);
}
