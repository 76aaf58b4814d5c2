use quadratic_jit::field::FieldElement;
use quadratic_jit::goldilocks::GoldilocksField;
use quadratic_jit::quadratic_symbolic_expression::QuadraticSymbolicExpression;
use quadratic_jit::range_constraint::RangeConstraint;
use quadratic_jit::symbolic_expression::SymbolicExpression;
use quadratic_jit::variable_update::VariableUpdate;

type Qse = QuadraticSymbolicExpression<GoldilocksField, &'static str>;

fn g(n: u64) -> GoldilocksField {
    GoldilocksField::from(n)
}

fn unknown(name: &'static str) -> Qse {
    Qse::from_unknown_variable(name)
}

fn known(name: &'static str) -> Qse {
    Qse::from_known_symbol(name, RangeConstraint::default())
}

fn number(n: u64) -> Qse {
    Qse::from(g(n))
}

fn assign(e: &mut Qse, variable: &'static str, n: u64) {
    e.apply_update(&VariableUpdate {
        variable,
        known: true,
        range_constraint: RangeConstraint::from_value(g(n)),
    });
}

/// The value under `x = 5`, `y = 11`, `a = 3` and `b = -1`.
fn value(e: &Qse) -> GoldilocksField {
    let mut e = e.clone();
    assign(&mut e, "x", 5);
    assign(&mut e, "y", 11);
    assign(&mut e, "a", 3);
    assign(&mut e, "b", GoldilocksField::modulus() - 1);
    e.try_to_known().unwrap().try_to_number().unwrap()
}

fn samples() -> Vec<Qse> {
    vec![
        number(0),
        number(7),
        known("a"),
        unknown("x"),
        unknown("x") * unknown("y") + known("a"),
        (unknown("x") + known("a")) * (unknown("y") - known("b")) * known("b"),
        unknown("x") * known("a") - unknown("y") * number(4) + number(1),
        unknown("x") * unknown("x") - unknown("x") * unknown("y"),
    ]
}

#[test]
fn operations_have_the_value_of_the_operations() {
    for l in samples() {
        for r in samples() {
            let (a, b) = (value(&l), value(&r));
            assert_eq!(value(&(&l + &r)), a.add(b));
            assert_eq!(value(&(&l - &r)), a.sub(b));
            assert_eq!(value(&(l.clone() + r.clone())), a.add(b));
            assert_eq!(value(&(l.clone() - r.clone())), a.sub(b));
            assert_eq!(value(&(l.clone() * r.clone())), a.mul(b));
            let mut sum = l.clone();
            sum += r.clone();
            assert_eq!(value(&sum), a.add(b));
        }
        assert_eq!(value(&-&l), value(&l).neg());
        assert_eq!(value(&-l.clone()), value(&l).neg());
    }
}

#[test]
fn scaling_by_known_expressions() {
    let a = SymbolicExpression::from_symbol("a", RangeConstraint::default());
    let e = unknown("x") * unknown("y") + unknown("y");
    assert_eq!((e.clone() * &a).to_string(), "(a * x) * (y) + a * y");
    assert_eq!((e.clone() * a.clone()).to_string(), "(a * x) * (y) + a * y");
    let mut scaled = e.clone();
    scaled *= &a;
    assert_eq!(scaled.to_string(), "(a * x) * (y) + a * y");
    scaled *= &SymbolicExpression::from_number(g(0));
    assert_eq!(scaled.to_string(), "0");
}

#[test]
fn linear_terms_cancel() {
    let e = unknown("x") + unknown("y");
    assert_eq!((&e - &unknown("x")).to_string(), "y");
    assert_eq!((&e - &e).to_string(), "0");
    assert!((&e - &e).try_to_known().is_some());
}

#[test]
fn negation_keeps_second_factors() {
    let e = -(unknown("x") * unknown("y") + number(3));
    assert_eq!(e.to_string(), "(-x) * (y) + -3");
}

#[test]
fn updates_keep_the_value() {
    for e in samples() {
        let mut updated = e.clone();
        updated.apply_update(&VariableUpdate {
            variable: "x",
            known: true,
            range_constraint: RangeConstraint::from_range(g(2), g(8)),
        });
        updated.apply_update(&VariableUpdate {
            variable: "y",
            known: false,
            range_constraint: RangeConstraint::from_mask(0xf),
        });
        assert_eq!(value(&updated), value(&e));
    }
}

#[test]
fn known_variables_are_not_unknown() {
    for e in samples() {
        let before: Vec<&str> = e.referenced_unknown_variables().into_iter().copied().collect();
        let mut updated = e.clone();
        assign(&mut updated, "x", 5);
        let after = updated.referenced_unknown_variables();
        assert!(!after.contains(&&"x"));
        for v in after {
            assert!(before.contains(v));
        }
    }
}

#[test]
fn known_expressions_have_no_unknowns() {
    for e in samples() {
        assert_eq!(
            e.try_to_known().is_some(),
            e.referenced_unknown_variables().is_empty()
        );
    }
}

#[test]
fn variables_are_listed_in_order() {
    let e = (unknown("y") + known("a")) * unknown("x") + unknown("z") * known("b")
        + unknown("c")
        + known("d");
    assert_eq!(e.to_string(), "(y + a) * (x) + c + b * z + d");
    assert_eq!(
        e.referenced_variables(),
        vec![&"y", &"a", &"x", &"c", &"z", &"b", &"d"]
    );
    assert_eq!(
        e.referenced_unknown_variables(),
        vec![&"y", &"x", &"c", &"z"]
    );
}

#[test]
fn values_depend_on_referenced_variables_only() {
    let mut e = unknown("x") * known("a") + number(1);
    let text = e.to_string();
    assign(&mut e, "other", 9);
    assert_eq!(e.to_string(), text);
}

#[test]
fn constraints_of_unknown_variables_change_nothing() {
    let mut e = unknown("x") * known("a") + known("a");
    e.apply_update(&VariableUpdate {
        variable: "x",
        known: false,
        range_constraint: RangeConstraint::from_value(g(3)),
    });
    assert_eq!(e.to_string(), "a * x + a");
}

#[test]
fn products_that_vanish_are_dropped() {
    let mut e = (unknown("x") * known("a")) * unknown("y") + unknown("z");
    assert!(e.is_quadratic());
    assign(&mut e, "a", 0);
    assert!(!e.is_quadratic());
    assert_eq!(e.to_string(), "z");
}

#[test]
fn numbers_name_variables() {
    let e = QuadraticSymbolicExpression::<GoldilocksField, u64>::from_unknown_variable(12)
        * QuadraticSymbolicExpression::from(g(3))
        - QuadraticSymbolicExpression::from_unknown_variable(7);
    assert_eq!(e.to_string(), "-7 + 3 * 12");
}
