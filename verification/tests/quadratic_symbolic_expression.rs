use std::collections::HashMap;

use itertools::Itertools;

use quadratic_jit::effect::{BitDecomposition, Effect};
use quadratic_jit::goldilocks::GoldilocksField;
use quadratic_jit::quadratic_symbolic_expression::QuadraticSymbolicExpression;
use quadratic_jit::range_constraint::RangeConstraint;
use quadratic_jit::solve::RangeConstraintProvider;
use quadratic_jit::variable_update::VariableUpdate;

type Qse = QuadraticSymbolicExpression<GoldilocksField, &'static str>;

fn number(n: u64) -> Qse {
    Qse::from(GoldilocksField::from(n))
}

struct NoRangeConstraints;

impl RangeConstraintProvider<GoldilocksField, &'static str> for NoRangeConstraints {
    fn get(&self, _var: &&'static str) -> RangeConstraint<GoldilocksField> {
        RangeConstraint::default()
    }
}

struct Constraints(HashMap<&'static str, RangeConstraint<GoldilocksField>>);

impl RangeConstraintProvider<GoldilocksField, &'static str> for Constraints {
    fn get(&self, var: &&'static str) -> RangeConstraint<GoldilocksField> {
        self.0.get(var).cloned().unwrap_or_default()
    }
}

#[test]
fn test_mul() {
    let x = Qse::from_unknown_variable("X");
    let y = Qse::from_unknown_variable("Y");
    let a = Qse::from_known_symbol("A", RangeConstraint::default());
    let t = x * y + a;
    assert_eq!(t.to_string(), "(X) * (Y) + A");
}

#[test]
fn test_add() {
    let x = Qse::from_unknown_variable("X");
    let y = Qse::from_unknown_variable("Y");
    let a = Qse::from_unknown_variable("A");
    let b = Qse::from_known_symbol("B", RangeConstraint::default());
    let t: Qse = x * y - a + b;
    assert_eq!(t.to_string(), "(X) * (Y) + -A + B");
    assert_eq!(
        (t.clone() + t).to_string(),
        "(X) * (Y) + (X) * (Y) + -2 * A + (B + B)"
    );
}

#[test]
fn test_mul_by_known() {
    let x = Qse::from_unknown_variable("X");
    let y = Qse::from_unknown_variable("Y");
    let a = Qse::from_known_symbol("A", RangeConstraint::default());
    let b = Qse::from_known_symbol("B", RangeConstraint::default());
    let t: Qse = (x * y + a) * b;
    assert_eq!(t.to_string(), "(B * X) * (Y) + (A * B)");
}

#[test]
fn test_mul_by_zero() {
    let x = Qse::from_unknown_variable("X");
    let y = Qse::from_unknown_variable("Y");
    let a = Qse::from_known_symbol("A", RangeConstraint::default());
    let zero = number(0);
    let t: Qse = x * y + a;
    assert_eq!(t.to_string(), "(X) * (Y) + A");
    assert_eq!((t.clone() * zero).to_string(), "0");
}

#[test]
fn test_apply_update() {
    let x = Qse::from_unknown_variable("X");
    let y = Qse::from_unknown_variable("Y");
    let a = Qse::from_known_symbol("A", RangeConstraint::default());
    let b = Qse::from_known_symbol("B", RangeConstraint::default());
    let mut t: Qse = (x * y + a) * b;
    assert_eq!(t.to_string(), "(B * X) * (Y) + (A * B)");
    t.apply_update(&VariableUpdate {
        variable: "B",
        known: true,
        range_constraint: RangeConstraint::from_value(7.into()),
    });
    assert!(t.is_quadratic());
    assert_eq!(t.to_string(), "(7 * X) * (Y) + (A * 7)");
    t.apply_update(&VariableUpdate {
        variable: "X",
        known: true,
        range_constraint: RangeConstraint::from_range(1.into(), 2.into()),
    });
    assert!(!t.is_quadratic());
    assert_eq!(t.to_string(), "(X * 7) * Y + (A * 7)");
    t.apply_update(&VariableUpdate {
        variable: "Y",
        known: true,
        range_constraint: RangeConstraint::from_value(3.into()),
    });
    assert!(t.try_to_known().is_some());
    assert_eq!(t.to_string(), "((A * 7) + (3 * (X * 7)))");
}

#[test]
fn test_apply_update_inner_zero() {
    let x = Qse::from_unknown_variable("X");
    let y = Qse::from_unknown_variable("Y");
    let a = Qse::from_known_symbol("A", RangeConstraint::default());
    let b = Qse::from_known_symbol("B", RangeConstraint::default());
    let mut t: Qse = (x * a + y) * b;
    assert_eq!(t.to_string(), "(A * B) * X + B * Y");
    t.apply_update(&VariableUpdate {
        variable: "B",
        known: true,
        range_constraint: RangeConstraint::from_value(7.into()),
    });
    assert_eq!(t.to_string(), "(A * 7) * X + 7 * Y");
    t.apply_update(&VariableUpdate {
        variable: "A",
        known: true,
        range_constraint: RangeConstraint::from_value(0.into()),
    });
    assert_eq!(t.to_string(), "7 * Y");
}

#[test]
fn unsolvable() {
    let r = number(10).solve(&NoRangeConstraints);
    assert!(r.is_err());
}

#[test]
fn unsolvable_with_vars() {
    let x = &Qse::from_known_symbol("X", Default::default());
    let y = &Qse::from_known_symbol("Y", Default::default());
    let mut constr = x + y - GoldilocksField::from(10).into();
    // We cannot solve it, but we can also not learn anything new from it.
    let result = constr.solve(&NoRangeConstraints).unwrap();
    assert!(result.complete && result.effects.is_empty());
    // But if we know the values, we can be sure there is a conflict.
    assert!(number(10).solve(&NoRangeConstraints).is_err());

    // The same with range constraints that disallow zero.
    constr.apply_update(&VariableUpdate {
        variable: "X",
        known: true,
        range_constraint: RangeConstraint::from_value(5.into()),
    });
    constr.apply_update(&VariableUpdate {
        variable: "Y",
        known: true,
        range_constraint: RangeConstraint::from_range(100.into(), 102.into()),
    });
    assert!(number(10).solve(&NoRangeConstraints).is_err());
}

#[test]
fn solvable_without_vars() {
    let constr = number(0);
    let result = constr.solve(&NoRangeConstraints).unwrap();
    assert!(result.complete && result.effects.is_empty());
}

#[test]
fn solve_simple_eq() {
    let y = Qse::from_known_symbol("y", Default::default());
    let x = Qse::from_unknown_variable("X");
    // 2 * X + 7 * y - 10 = 0
    let two = number(2);
    let seven = number(7);
    let ten = number(10);
    let constr = two * x + seven * y - ten;
    let result = constr.solve(&NoRangeConstraints).unwrap();
    assert!(result.complete);
    assert_eq!(result.effects.len(), 1);
    let Effect::Assignment(var, expr) = &result.effects[0] else {
        panic!("Expected assignment");
    };
    assert_eq!(var.to_string(), "X");
    assert_eq!(expr.to_string(), "(((7 * y) + -10) / -2)");
}

#[test]
fn solve_div_by_range_constrained_var() {
    let y = Qse::from_known_symbol("y", Default::default());
    let z = Qse::from_known_symbol("z", Default::default());
    let x = Qse::from_unknown_variable("X");
    // z * X + 7 * y - 10 = 0
    let seven = number(7);
    let ten = number(10);
    let mut constr = z * x + seven * y - ten.clone();
    // If we do not range-constrain z, we cannot solve since we don't know if it might be zero.
    let result = constr.solve(&NoRangeConstraints).unwrap();
    assert!(!result.complete && result.effects.is_empty());
    let z_rc = RangeConstraint::from_range(1.into(), 2.into());
    let range_constraints = Constraints(HashMap::from([("z", z_rc.clone())]));
    // Just solving without applying the update to the known symbolic expressions
    // does not help either. Note that the argument `&range_constraints` to
    // `solve()` is only used for unknown variables and not for known variables.
    // For the latter to take effect, we need to call `apply_update`.
    let result = constr.solve(&range_constraints).unwrap();
    assert!(!result.complete && result.effects.is_empty());
    constr.apply_update(&VariableUpdate {
        variable: "z",
        known: true,
        range_constraint: z_rc.clone(),
    });
    // Now it should work.
    let result = constr.solve(&range_constraints).unwrap();
    assert!(result.complete);
    let effects = result.effects;
    let Effect::Assignment(var, expr) = &effects[0] else {
        panic!("Expected assignment");
    };
    assert_eq!(var.to_string(), "X");
    assert_eq!(expr.to_string(), "(((7 * y) + -10) / -z)");
}

#[test]
fn solve_bit_decomposition() {
    let rc = RangeConstraint::from_mask(0xff);
    // First try without range constrain on a, but on b and c.
    let a = Qse::from_unknown_variable("a");
    let b = Qse::from_unknown_variable("b");
    let c = Qse::from_unknown_variable("c");
    let z = Qse::from_known_symbol("Z", Default::default());
    // a * 0x100 - b * 0x10000 + c * 0x1000000 + 10 + Z = 0
    let ten = number(10);
    let mut constr: Qse =
        a * number(0x100) - b * number(0x10000) + c * number(0x1000000) + ten.clone() + z.clone();
    // Without range constraints on a, this is not solvable.
    let mut range_constraints =
        Constraints(HashMap::from([("b", rc.clone()), ("c", rc.clone())]));
    constr.apply_update(&VariableUpdate {
        variable: "b",
        known: false,
        range_constraint: rc.clone(),
    });
    constr.apply_update(&VariableUpdate {
        variable: "c",
        known: false,
        range_constraint: rc.clone(),
    });
    let result = constr.solve(&range_constraints).unwrap();
    assert!(!result.complete && result.effects.is_empty());
    // Now add the range constraint on a, it should be solvable.
    range_constraints.0.insert("a", rc.clone());
    constr.apply_update(&VariableUpdate {
        variable: "a",
        known: false,
        range_constraint: rc.clone(),
    });
    let result = constr.solve(&range_constraints).unwrap();
    assert!(result.complete);

    let [effect] = &result.effects[..] else {
        panic!();
    };
    let Effect::BitDecomposition(BitDecomposition { value, components }) = effect else {
        panic!();
    };
    let value = value.to_string();
    assert_eq!(value, "(10 + Z)");
    let formatted = components
        .iter()
        .map(|c| {
            format!(
                "{} = (({value} & 0x{:0x}) >> {}){};\n",
                c.variable,
                c.bit_mask,
                c.exponent,
                if c.is_negative { " [negative]" } else { "" }
            )
        })
        .join("");

    assert_eq!(
        formatted,
        "\
a = (((10 + Z) & 0xff00) >> 8) [negative];
b = (((10 + Z) & 0xff0000) >> 16);
c = (((10 + Z) & 0xff000000) >> 24) [negative];
"
    );
}

#[test]
fn solve_constraint_transfer() {
    let rc = RangeConstraint::from_mask(0xff);
    let a = Qse::from_unknown_variable("a");
    let b = Qse::from_unknown_variable("b");
    let c = Qse::from_unknown_variable("c");
    let z = Qse::from_unknown_variable("Z");
    let range_constraints = Constraints(HashMap::from([
        ("a", rc.clone()),
        ("b", rc.clone()),
        ("c", rc.clone()),
    ]));
    // a * 0x100 + b * 0x10000 + c * 0x1000000 + 10 - Z = 0
    let ten = number(10);
    let constr =
        a * number(0x100) + b * number(0x10000) + c * number(0x1000000) + ten.clone() - z.clone();
    let result = constr.solve(&range_constraints).unwrap();
    assert!(!result.complete);
    let effects = result
        .effects
        .into_iter()
        .map(|effect| match effect {
            Effect::RangeConstraint(v, rc) => format!("{v}: {};\n", rc.to_string()),
            _ => panic!(),
        })
        .format("")
        .to_string();
    // It appears twice because we solve the positive and the negated equation.
    // Note that the negated version has a different bit mask.
    assert_eq!(
        effects,
        "Z: [10, 4294967050] & 0xffffff0a;
Z: [10, 4294967050] & 0xffffffff;
"
    );
}
