use std::collections::HashMap;
use unit_calc::error::EvalError;
use unit_calc::eval::{
    mentions_derived_unit, process_eq, try_evaluate, try_process_eq, try_resolve,
};
use unit_calc::reduce::{try_apply, try_raise, try_reduce, vouch};
use unit_calc::session::{try_process_line, Reply};
use unit_calc::symbols::SymbolTable;
use value_unit::ValueUnit;

fn chars(s: &str) -> Vec<char> {
    s.chars().collect()
}

fn plain(value: f64) -> ValueUnit {
    ValueUnit::new(value, HashMap::new())
}

fn with_unit(value: f64, unit: &str, power: i8) -> ValueUnit {
    ValueUnit::new(value, HashMap::from([(unit.to_string(), power)]))
}

fn attempt(text: &str) -> Option<Result<ValueUnit, EvalError>> {
    try_process_eq(&SymbolTable::new(), text.to_string())
}

#[test]
fn plain_numbers_are_always_computed() {
    assert_eq!(attempt("2 + 3"), Some(Ok(plain(5.0))));
    assert_eq!(attempt("( 2 + 3 ) * 4"), Some(Ok(plain(20.0))));
    assert_eq!(attempt("2 ^ 3"), Some(Ok(plain(8.0))));
    assert_eq!(attempt("8 ^ 0.5"), Some(Ok(plain(8.0f64.powf(0.5)))));
    assert_eq!(attempt("2 + 3 * 4"), Some(Ok(plain(14.0))));
    assert_eq!(attempt("8 / 2 / 2"), Some(Ok(plain(2.0))));
    assert_eq!(attempt("4 ^ 0"), Some(Ok(plain(f64::INFINITY))));
}

#[test]
fn errors_are_told_carefully_too() {
    assert_eq!(attempt("5 )"), Some(Err(EvalError::UnmatchedClosingBracket)));
    assert_eq!(attempt("1 m + 1 kg"), Some(Err(EvalError::UnitMismatch)));
    assert_eq!(attempt("x + 1"), Some(Err(EvalError::InvalidLiteral)));
    assert_eq!(attempt(""), Some(Err(EvalError::InvalidLiteral)));
}

#[test]
fn units_are_added_and_scaled() {
    assert_eq!(attempt("1 m + 2 m"), Some(Ok(with_unit(3.0, "m", 1))));
    assert_eq!(attempt("5 m - 2 m"), Some(Ok(with_unit(3.0, "m", 1))));
    assert_eq!(attempt("2 m * 3"), Some(Ok(with_unit(6.0, "m", 1))));
    assert_eq!(attempt("3 * 2 m"), Some(Ok(with_unit(6.0, "m", 1))));
    assert_eq!(attempt("6 m / 2"), Some(Ok(with_unit(3.0, "m", 1))));
    assert_eq!(attempt("2 ^ 3 m"), Some(Ok(plain(8.0))));
    assert_eq!(attempt("5 m s^-2"), Some(Ok(ValueUnit::new(
        5.0,
        HashMap::from([("m".to_string(), 1), ("s".to_string(), -2)]),
    ))));
}

#[test]
fn what_is_not_vouched_for_is_not_tried() {
    assert_eq!(attempt("2 m * 3 m"), None);
    assert_eq!(attempt("6 / 2 m"), None);
    assert_eq!(attempt("2 m ^ 2"), None);
    assert_eq!(attempt("4 m^2 ^ 0.5"), None);
    assert_eq!(attempt("5 N"), None);
    assert_eq!(attempt("1 + ( 2 m * 3 m )"), None);
}

#[test]
fn what_the_value_type_does_not_compute_is_not_tried() {
    assert_eq!(attempt("4 m ^ 0.5"), None);
    assert_eq!(attempt("4 m ^ 0"), None);
    assert_eq!(attempt("1 m^100 * 1 m^100"), None);
    assert_eq!(attempt("1 / 1 m^-128"), None);
    assert_eq!(attempt("1 m^100 ^ 2"), None);
    assert_eq!(attempt("1 W^50"), None);
    assert_eq!(attempt("1 J^64"), None);
}

#[test]
fn an_earlier_error_comes_before_what_is_not_vouched_for() {
    assert_eq!(attempt("x + 2 m * 3 m"), Some(Err(EvalError::InvalidLiteral)));
    assert_eq!(attempt("2 m * 3 m )"), Some(Err(EvalError::UnmatchedClosingBracket)));
    assert_eq!(attempt("1 m + 1 kg + 2 m * 3 m"), None);
}

#[test]
fn a_careful_outcome_is_the_outcome() {
    for text in [
        "2 + 3",
        "( 2 + 3 ) * 4",
        "2 ^ 3",
        "8 ^ 0.5",
        "8 / 2 / 2",
        "5 )",
        "1 m + 1 kg",
        "1 m + 2 m",
        "2 m * 3",
        "6 m / 2",
        "",
        "( ( 1 + 2 ) * 3 ) ^ 2 - 1",
    ] {
        let careful = attempt(text);
        assert!(careful.is_some(), "{:?}", text);
        assert_eq!(careful, Some(process_eq(&SymbolTable::new(), text.to_string())), "{:?}", text);
    }
}

#[test]
fn vouches_for_operands_without_units() {
    let number = plain(2.0);
    let length = with_unit(2.0, "m", 1);
    for op in ['+', '-'] {
        assert!(vouch(op, &length, &length));
    }
    assert!(vouch('*', &number, &length));
    assert!(vouch('*', &length, &number));
    assert!(!vouch('*', &length, &length));
    assert!(vouch('/', &length, &number));
    assert!(!vouch('/', &number, &length));
    assert!(vouch('^', &number, &length));
    assert!(!vouch('^', &length, &number));
    assert!(vouch('^', &plain(f64::NAN), &number));
}

#[test]
fn tries_one_operator() {
    let number = plain(2.0);
    let length = with_unit(3.0, "m", 1);
    assert_eq!(try_apply('*', &number, &length), Some(Ok(with_unit(6.0, "m", 1))));
    assert_eq!(try_apply('*', &length, &length), None);
    assert_eq!(try_apply('+', &number, &length), Some(Err(EvalError::UnitMismatch)));
    assert_eq!(try_apply('/', &number, &length), None);
    assert_eq!(try_apply('/', &length, &number), Some(Ok(with_unit(1.5, "m", 1))));
    assert_eq!(try_raise(&length, &number), None);
    assert_eq!(try_raise(&number, &length), Some(plain(8.0)));
    assert_eq!(try_raise(&number, &plain(0.5)), Some(plain(2.0f64.powf(0.5))));
}

#[test]
fn tries_to_reduce() {
    let values = vec![plain(2.0), plain(3.0), plain(4.0)];
    assert_eq!(try_reduce(values, vec!['+', '*']), Some(Ok(plain(14.0))));
    let values = vec![plain(2.0), with_unit(3.0, "m", 1), with_unit(4.0, "m", 1)];
    assert_eq!(try_reduce(values, vec!['+', '*']), None);
    let values = vec![plain(2.0), with_unit(3.0, "m", 1), with_unit(4.0, "m", 1)];
    assert_eq!(try_reduce(values, vec!['*', '+']), Some(Ok(with_unit(10.0, "m", 1))));
    let values = vec![plain(2.0), plain(3.0), plain(2.0), with_unit(1.0, "m", 1)];
    assert_eq!(try_reduce(values, vec!['^', '^', '*']), Some(Ok(with_unit(64.0, "m", 1))));
    let values = vec![with_unit(2.0, "m", 1), plain(3.0), plain(4.0)];
    assert_eq!(try_reduce(values, vec!['^', '+']), None);
}

#[test]
fn names_of_derived_units() {
    for text in [
        "5 N",
        "1 Hz",
        "2 Pa",
        "3 J",
        "4 W",
        "5 V",
        "6 Ohm",
        "7 T",
        "1 m N",
        "1 N m",
        "1 N^2",
        "1 kg T^-1 ",
        "1\tOhm^2",
        "1 W\n",
        "x N",
    ] {
        assert!(mentions_derived_unit(&chars(text)), "{:?}", text);
    }
    for text in [
        "",
        "5",
        "5 m s^-2",
        "5 kg",
        "NaN",
        "N",
        "Ohm",
        "1 kN",
        "1 Nm",
        "1 Volt",
        "1 Watt^2",
        "5 Tesla",
        "1 H",
        "1 P",
        "1 Oh",
        "1 hz",
        "1 O hm",
        "1 Hzz",
        "x + y",
        "1N",
    ] {
        assert!(!mentions_derived_unit(&chars(text)), "{:?}", text);
    }
}

#[test]
fn units_with_other_names_are_read() {
    assert_eq!(attempt("5 Volt"), Some(Ok(with_unit(5.0, "Volt", 1))));
    assert_eq!(attempt("2 kN + 3 kN"), Some(Ok(with_unit(5.0, "kN", 1))));
    match attempt("NaN") {
        Some(Ok(value)) => assert!(value.value.is_nan()),
        other => panic!("{:?}", other),
    }
}

#[test]
fn tries_to_resolve() {
    let mut table = SymbolTable::new();
    table.insert("N".to_string(), plain(3.0));
    assert_eq!(try_resolve(&table, &chars(" N ")), Some(Ok(plain(3.0))));
    assert_eq!(try_resolve(&table, &chars("2 N")), None);
    assert_eq!(try_resolve(&table, &chars("2 m")), Some(Ok(with_unit(2.0, "m", 1))));
    assert_eq!(try_resolve(&table, &chars("two")), Some(Err(EvalError::InvalidLiteral)));
    assert_eq!(try_resolve(&table, &chars("  ")), Some(Err(EvalError::InvalidLiteral)));
    assert_eq!(try_evaluate(&table, &chars("N * 2 m")), Some(Ok(with_unit(6.0, "m", 1))));
}

#[test]
fn a_line_that_is_not_tried_changes_nothing() {
    let mut table = SymbolTable::new();
    assert_eq!(
        try_process_line(&mut table, &chars("x = 5\n")),
        Some(Reply::Assigned(chars("x"), plain(5.0)))
    );
    assert_eq!(try_process_line(&mut table, &chars("x + 1\n")), Some(Reply::Value(plain(6.0))));
    assert_eq!(try_process_line(&mut table, &chars("x = 2 m * 3 m\n")), None);
    assert_eq!(table.get("x"), Some(plain(5.0)));
    assert_eq!(
        try_process_line(&mut table, &chars("x = 10\n")),
        Some(Reply::Assigned(chars("x"), plain(10.0)))
    );
    assert_eq!(try_process_line(&mut table, &chars("x + 1\n")), Some(Reply::Value(plain(11.0))));
    assert_eq!(try_process_line(&mut table, &chars("exit\n")), Some(Reply::Quit));
    assert_eq!(try_process_line(&mut table, &chars("\n")), Some(Reply::Nothing));
    assert_eq!(
        try_process_line(&mut table, &chars("a = b = c\n")),
        Some(Reply::Failed(EvalError::TooManyAssignments))
    );
}
