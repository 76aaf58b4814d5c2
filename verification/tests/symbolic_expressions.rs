use quadratic_jit::field::FieldElement;
use quadratic_jit::goldilocks::GoldilocksField;
use quadratic_jit::range_constraint::RangeConstraint;
use quadratic_jit::symbolic_expression::SymbolicExpression;
use quadratic_jit::variable_update::VariableUpdate;

type Expr = SymbolicExpression<GoldilocksField, &'static str>;

fn g(n: u64) -> GoldilocksField {
    GoldilocksField::from(n)
}

fn number(n: u64) -> Expr {
    Expr::from_number(g(n))
}

fn symbol(name: &'static str) -> Expr {
    Expr::from_symbol(name, RangeConstraint::default())
}

fn update(
    variable: &'static str,
    range_constraint: RangeConstraint<GoldilocksField>,
) -> VariableUpdate<GoldilocksField, &'static str> {
    VariableUpdate {
        variable,
        known: true,
        range_constraint,
    }
}

#[test]
fn numbers_are_computed() {
    assert_eq!(number(3).add(&number(4)).to_string(), "7");
    assert_eq!(number(3).mul(&number(4)).to_string(), "12");
    assert_eq!(number(3).neg().to_string(), "-3");
    assert_eq!(number(12).field_div(&number(4)).to_string(), "3");
}

#[test]
fn neutral_elements_disappear() {
    let x = symbol("x");
    assert_eq!(x.add(&number(0)).to_string(), "x");
    assert_eq!(number(0).add(&x).to_string(), "x");
    assert_eq!(x.mul(&number(1)).to_string(), "x");
    assert_eq!(x.mul(&number(0)).to_string(), "0");
    assert_eq!(number(1).neg().mul(&x).to_string(), "-x");
    assert_eq!(x.neg().neg().to_string(), "x");
    assert_eq!(x.field_div(&number(1)).to_string(), "x");
    assert_eq!(x.field_div(&number(1).neg()).to_string(), "-x");
    assert_eq!(number(0).field_div(&x).to_string(), "0");
}

#[test]
fn division_by_zero_stays() {
    assert_eq!(symbol("x").field_div(&number(0)).to_string(), "(x / 0)");
}

#[test]
fn operations_are_printed_in_brackets() {
    let e = symbol("a").add(&symbol("b")).mul(&number(5)).field_div(&symbol("c"));
    assert_eq!(e.to_string(), "(((a + b) * 5) / c)");
    assert_eq!(e.referenced_symbols(), vec![&"a", &"b", &"c"]);
}

#[test]
fn symbols_with_one_value_are_numbers() {
    let e = Expr::from_symbol("x", RangeConstraint::from_value(g(9)));
    assert_eq!(e.try_to_number(), Some(g(9)));
}

#[test]
fn updates_simplify() {
    let mut e = symbol("a").add(&symbol("b")).mul(&symbol("a"));
    e.apply_update(&update("a", RangeConstraint::from_value(g(2))));
    assert_eq!(e.to_string(), "((2 + b) * 2)");
    e.apply_update(&update("b", RangeConstraint::from_value(g(5))));
    assert_eq!(e.try_to_number(), Some(g(14)));
}

#[test]
fn ranges_of_expressions() {
    let byte = Expr::from_symbol("b", RangeConstraint::from_mask(0xff));
    let e = byte.add(&number(1));
    assert_eq!(e.range_constraint().to_string(), "[1, 256] & 0x1ff");
    assert!(e.is_known_nonzero());
    assert!(!byte.is_known_nonzero());
    assert!(e.neg().is_known_nonzero());
    assert!(!e.mul(&byte).is_known_nonzero());
    assert!(!number(0).is_known_nonzero());
    assert!(number(1).is_known_one() && number(1).neg().is_known_minus_one());
}

#[test]
fn negative_numbers_are_printed_with_a_sign() {
    let half = (GoldilocksField::modulus() - 1) / 2;
    assert_eq!(number(half).to_string(), "9223372034707292160");
    assert_eq!(number(half + 1).to_string(), "-9223372034707292160");
}
