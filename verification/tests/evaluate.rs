use std::collections::HashMap;
use unit_calc::error::EvalError;
use unit_calc::eval::{evaluate, process_eq, resolve};
use unit_calc::symbols::SymbolTable;
use value_unit::ValueUnit;

fn plain(value: f64) -> ValueUnit {
    ValueUnit::new(value, HashMap::new())
}

fn with_unit(value: f64, unit: &str, power: i8) -> ValueUnit {
    ValueUnit::new(value, HashMap::from([(unit.to_string(), power)]))
}

fn run(text: &str) -> Result<ValueUnit, EvalError> {
    process_eq(&SymbolTable::new(), text.to_string())
}

#[test]
fn adds_two_numbers() {
    assert_eq!(run("2 + 3"), Ok(plain(5.0)));
}

#[test]
fn brackets_come_first() {
    assert_eq!(run("( 2 + 3 ) * 4"), Ok(plain(20.0)));
}

#[test]
fn power_and_root() {
    assert_eq!(run("2 ^ 3"), Ok(plain(8.0)));
    let root = run("8 ^ 0.5").unwrap();
    assert!((root.value - 2.8284271247461903).abs() < 1e-12);
    assert_eq!(root, plain(8.0f64.powf(0.5)));
}

#[test]
fn multiplication_before_addition() {
    assert_eq!(run("2 + 3 * 4"), Ok(plain(14.0)));
}

#[test]
fn division_from_the_left() {
    assert_eq!(run("8 / 2 / 2"), Ok(plain(2.0)));
}

#[test]
fn closing_bracket_without_opening() {
    assert_eq!(run("5 )"), Err(EvalError::UnmatchedClosingBracket));
}

#[test]
fn variables_are_looked_up() {
    let mut table = SymbolTable::new();
    table.insert("x".to_string(), plain(5.0));
    assert_eq!(process_eq(&table, "x + 1".to_string()), Ok(plain(6.0)));
    table.insert("x".to_string(), plain(10.0));
    assert_eq!(process_eq(&table, "x + 1".to_string()), Ok(plain(11.0)));
}

#[test]
fn units_that_differ_are_not_added() {
    assert_eq!(run("1 m + 1 kg"), Err(EvalError::UnitMismatch));
    assert_eq!(run("1 m - 1 kg"), Err(EvalError::UnitMismatch));
}

#[test]
fn units_are_combined() {
    assert_eq!(run("6 m / 2 s"), Ok(ValueUnit::new(
        3.0,
        HashMap::from([("m".to_string(), 1), ("s".to_string(), -1)]),
    )));
    assert_eq!(run("2 m * 3 m"), Ok(with_unit(6.0, "m", 2)));
    assert_eq!(run("2 m ^ 3"), Ok(with_unit(8.0, "m", 3)));
    assert_eq!(run("4 m^2 ^ 0.5"), Ok(with_unit(2.0, "m", 1)));
}

#[test]
fn operator_without_spaces_is_text() {
    assert_eq!(run("2+3"), Err(EvalError::InvalidLiteral));
    assert_eq!(run("2 +3"), Ok(with_unit(2.0, "+3", 1)));
    assert_eq!(run("5 m s^-2"), Ok(ValueUnit::new(
        5.0,
        HashMap::from([("m".to_string(), 1), ("s".to_string(), -2)]),
    )));
    assert_eq!(run("-5"), Ok(plain(-5.0)));
}

#[test]
fn empty_operands_are_invalid() {
    assert_eq!(run(""), Err(EvalError::InvalidLiteral));
    assert_eq!(run("   "), Err(EvalError::InvalidLiteral));
    assert_eq!(run("2 + "), Err(EvalError::InvalidLiteral));
    assert_eq!(run("( )"), Err(EvalError::InvalidLiteral));
}

#[test]
fn first_error_from_the_left() {
    assert_eq!(run("x + 5 )"), Err(EvalError::InvalidLiteral));
    assert_eq!(run("5 ) + x"), Err(EvalError::UnmatchedClosingBracket));
    assert_eq!(run("1 m + 1 kg + x"), Err(EvalError::InvalidLiteral));
}

#[test]
fn nested_brackets() {
    assert_eq!(run("( ( 1 + 2 ) * ( 3 + 4 ) ) - 1"), Ok(plain(20.0)));
    assert_eq!(run("2 * ( 3 + ( 4 * 5 ) )"), Ok(plain(46.0)));
    assert_eq!(run("( 2 + 3"), Ok(plain(5.0)));
    assert_eq!(run("( 2 + 3 ) )"), Err(EvalError::UnmatchedClosingBracket));
}

#[test]
fn fixed_order_of_kinds() {
    // Division is folded before multiplication, subtraction before addition.
    assert_eq!(run("2 * 6 / 3"), Ok(plain(4.0)));
    assert_eq!(run("8 / 2 * 4"), Ok(plain(16.0)));
    assert_eq!(run("1 + 2 - 3"), Ok(plain(0.0)));
    assert_eq!(run("10 - 2 + 3"), Ok(plain(11.0)));
    assert_eq!(run("10 - 3 - 2"), Ok(plain(5.0)));
    assert_eq!(run("2 ^ 3 ^ 2"), Ok(plain(64.0)));
    assert_eq!(run("2 * 3 ^ 2"), Ok(plain(18.0)));
}

#[test]
fn exponents_are_rounded() {
    assert_eq!(run("2 ^ 2.5"), Ok(plain(8.0)));
    assert_eq!(run("2 ^ -1"), Ok(plain(0.5)));
    assert_eq!(run("16 ^ 0.25"), Ok(plain(2.0)));
    assert_eq!(run("27 ^ 0.33"), Ok(plain(3.0)));
}

#[test]
fn variable_names_are_trimmed() {
    let mut table = SymbolTable::new();
    table.insert("speed".to_string(), with_unit(3.0, "m", 1));
    assert_eq!(process_eq(&table, "  speed  *  2 ".to_string()), Ok(with_unit(6.0, "m", 1)));
    assert_eq!(process_eq(&table, "( speed + speed ) * speed".to_string()), Ok(with_unit(18.0, "m", 2)));
    assert_eq!(process_eq(&table, "Speed".to_string()), Err(EvalError::InvalidLiteral));
}

#[test]
fn evaluating_twice_gives_the_same() {
    let mut table = SymbolTable::new();
    table.insert("g".to_string(), with_unit(9.81, "m", 1));
    let first = process_eq(&table, "( g * 2 ) ^ 2 + 1 m^2".to_string());
    let second = process_eq(&table, "( g * 2 ) ^ 2 + 1 m^2".to_string());
    assert!(first.is_ok());
    assert_eq!(first, second);
}

#[test]
fn resolves_variables_before_literals() {
    let mut table = SymbolTable::new();
    table.insert("k".to_string(), plain(3.0));
    let text: Vec<char> = " k ".chars().collect();
    assert_eq!(resolve(&table, &text), Ok(plain(3.0)));
    let text: Vec<char> = " 7 k ".chars().collect();
    assert_eq!(resolve(&table, &text), Ok(with_unit(7.0, "k", 1)));
    let text: Vec<char> = "k k".chars().collect();
    assert_eq!(resolve(&table, &text), Err(EvalError::InvalidLiteral));
    let text: Vec<char> = "".chars().collect();
    assert_eq!(resolve(&table, &text), Err(EvalError::InvalidLiteral));
    let text: Vec<char> = "1 m^x".chars().collect();
    assert_eq!(resolve(&table, &text), Err(EvalError::InvalidLiteral));
    let text: Vec<char> = "k * ( k + 1 )".chars().collect();
    assert_eq!(evaluate(&table, &text), Ok(plain(12.0)));
}

#[test]
fn brackets_around_an_expression_change_nothing() {
    for text in ["2 + 3 * 4", "8 / 2 / 2", "1 m + 1 kg", "x", "( 1 + 2 ) * 3", ""] {
        let inside = run(text);
        let around = run(&format!("({})", text));
        assert_eq!(inside, around, "{:?}", text);
    }
}

#[test]
fn derived_units_are_spread() {
    assert_eq!(run("1 N"), Ok(ValueUnit::new(
        1.0,
        HashMap::from([("m".to_string(), 1), ("kg".to_string(), 1), ("s".to_string(), -2)]),
    )));
    assert_eq!(run("2 kg * 3 m / 1 s / 1 s + 4 N"), Ok(ValueUnit::new(
        10.0,
        HashMap::from([("N".to_string(), 1)]),
    )));
}
