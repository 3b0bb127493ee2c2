use std::collections::HashMap;
use unit_calc::error::EvalError;
use unit_calc::reduce::{
    apply, exponent, lacks_units, raise, reduce, reduce_raised, try_reduce_raised, Exponent,
};
use value_unit::ValueUnit;

fn plain(value: f64) -> ValueUnit {
    ValueUnit::new(value, HashMap::new())
}

fn with_unit(value: f64, unit: &str, power: i8) -> ValueUnit {
    ValueUnit::new(value, HashMap::from([(unit.to_string(), power)]))
}

#[test]
fn exponent_of_the_right_operand() {
    assert_eq!(exponent(&plain(3.0)), Exponent::Power(3));
    assert_eq!(exponent(&plain(1.0)), Exponent::Power(1));
    assert_eq!(exponent(&plain(-2.0)), Exponent::Power(-2));
    assert_eq!(exponent(&plain(2.5)), Exponent::Power(3));
    assert_eq!(exponent(&plain(1000.0)), Exponent::Power(127));
    assert_eq!(exponent(&plain(-1000.0)), Exponent::Power(-128));
    assert_eq!(exponent(&plain(f64::INFINITY)), Exponent::Power(127));
    assert_eq!(exponent(&with_unit(3.0, "m", 1)), Exponent::Power(3));
}

#[test]
fn exponent_below_one_is_a_root() {
    assert_eq!(exponent(&plain(0.5)), Exponent::Root(2));
    assert_eq!(exponent(&plain(0.25)), Exponent::Root(4));
    assert_eq!(exponent(&plain(0.4)), Exponent::Root(3));
    assert_eq!(exponent(&plain(0.3)), Exponent::Root(3));
    assert_eq!(exponent(&plain(0.001)), Exponent::Root(127));
    assert_eq!(exponent(&plain(-0.5)), Exponent::Root(127));
    assert_eq!(exponent(&plain(0.0)), Exponent::Root(0));
    assert_eq!(exponent(&plain(f64::NAN)), Exponent::Root(0));
    assert_eq!(exponent(&plain(0.9999)), Exponent::Root(1));
}

#[test]
fn applies_each_operator() {
    assert_eq!(apply('+', &plain(2.0), &plain(3.0)), Ok(plain(5.0)));
    assert_eq!(apply('-', &plain(2.0), &plain(3.0)), Ok(plain(-1.0)));
    assert_eq!(apply('*', &plain(2.0), &plain(3.0)), Ok(plain(6.0)));
    assert_eq!(apply('/', &plain(3.0), &plain(2.0)), Ok(plain(1.5)));
}

#[test]
fn applies_to_units() {
    assert_eq!(
        apply('*', &with_unit(2.0, "m", 1), &with_unit(3.0, "s", 1)),
        Ok(ValueUnit::new(6.0, HashMap::from([("m".to_string(), 1), ("s".to_string(), 1)])))
    );
    assert_eq!(apply('/', &with_unit(6.0, "m", 1), &with_unit(3.0, "m", 1)), Ok(plain(2.0)));
    assert_eq!(apply('+', &with_unit(6.0, "m", 1), &with_unit(3.0, "m", 1)), Ok(with_unit(9.0, "m", 1)));
    assert_eq!(
        apply('+', &with_unit(6.0, "m", 1), &with_unit(3.0, "kg", 1)),
        Err(EvalError::UnitMismatch)
    );
    assert_eq!(
        apply('-', &with_unit(6.0, "m", 1), &with_unit(3.0, "m", 2)),
        Err(EvalError::UnitMismatch)
    );
    assert_eq!(apply('-', &plain(1.0), &with_unit(3.0, "m", 1)), Err(EvalError::UnitMismatch));
}

#[test]
fn reduces_in_the_order_of_kinds() {
    let values = vec![plain(2.0), plain(3.0), plain(4.0)];
    assert_eq!(reduce(values, vec!['+', '*']), Ok(plain(14.0)));
    let values = vec![plain(8.0), plain(2.0), plain(2.0)];
    assert_eq!(reduce(values, vec!['/', '/']), Ok(plain(2.0)));
    let values = vec![plain(2.0), plain(6.0), plain(3.0)];
    assert_eq!(reduce(values, vec!['*', '/']), Ok(plain(4.0)));
    let values = vec![plain(1.0), plain(2.0), plain(3.0), plain(2.0)];
    assert_eq!(reduce(values, vec!['-', '*', '^']), Ok(plain(-17.0)));
    assert_eq!(reduce(vec![plain(7.0)], vec![]), Ok(plain(7.0)));
}

#[test]
fn reduction_stops_at_the_first_error() {
    let values = vec![with_unit(1.0, "m", 1), with_unit(1.0, "kg", 1), with_unit(1.0, "s", 1)];
    assert_eq!(reduce(values, vec!['+', '-']), Err(EvalError::UnitMismatch));
    let values = vec![with_unit(1.0, "m", 1), with_unit(2.0, "kg", 1), with_unit(3.0, "kg", 1)];
    assert_eq!(reduce(values, vec!['*', '+']), Err(EvalError::UnitMismatch));
}

#[test]
fn raises_to_powers_and_roots() {
    assert_eq!(raise(&plain(3.0), &plain(2.0)), plain(9.0));
    assert_eq!(raise(&plain(9.0), &plain(0.5)), plain(3.0));
    assert_eq!(raise(&plain(2.0), &plain(-1.0)), plain(0.5));
    assert_eq!(raise(&with_unit(16.0, "m", 4), &plain(0.5)), with_unit(4.0, "m", 2));
    assert_eq!(raise(&with_unit(2.0, "m", 1), &plain(3.0)), with_unit(8.0, "m", 3));
    assert_eq!(raise(&plain(2.0), &with_unit(3.0, "s", 1)), plain(8.0));
}

#[test]
fn tells_values_without_units() {
    assert!(lacks_units(&plain(2.0)));
    assert!(lacks_units(&plain(f64::NAN)));
    assert!(lacks_units(&plain(0.0)));
    assert!(!lacks_units(&with_unit(2.0, "m", 1)));
    assert!(!lacks_units(&with_unit(0.0, "kg", -2)));
}

#[test]
fn reduces_a_row_without_powers() {
    let values = vec![plain(2.0), plain(3.0), plain(4.0)];
    assert_eq!(reduce_raised(values, vec!['+', '*']), Ok(plain(14.0)));
    let values = vec![plain(8.0), plain(2.0), plain(2.0)];
    assert_eq!(reduce_raised(values, vec!['/', '/']), Ok(plain(2.0)));
    assert_eq!(reduce_raised(vec![plain(7.0)], vec![]), Ok(plain(7.0)));
    let values = vec![with_unit(1.0, "m", 1), with_unit(1.0, "kg", 1)];
    assert_eq!(reduce_raised(values, vec!['+']), Err(EvalError::UnitMismatch));
    let values = vec![with_unit(2.0, "m", 1), with_unit(3.0, "m", 1)];
    assert_eq!(try_reduce_raised(values, vec!['*']), None);
    let values = vec![with_unit(2.0, "m", 1), plain(3.0), plain(4.0)];
    assert_eq!(try_reduce_raised(values, vec!['*', '+']), Some(Err(EvalError::UnitMismatch)));
    let values = vec![with_unit(2.0, "m", 1), plain(3.0)];
    assert_eq!(try_reduce_raised(values, vec!['*']), Some(Ok(with_unit(6.0, "m", 1))));
}

#[test]
fn powers_are_raised_first_and_from_the_left() {
    let values = vec![plain(2.0), plain(3.0), plain(2.0)];
    assert_eq!(reduce(values, vec!['^', '^']), Ok(plain(64.0)));
    let values = vec![plain(2.0), plain(3.0), plain(2.0)];
    assert_eq!(reduce(values, vec!['*', '^']), Ok(plain(18.0)));
    let values = vec![plain(2.0), plain(3.0), plain(2.0), plain(0.5)];
    assert_eq!(reduce(values, vec!['^', '+', '^']), Ok(plain(8.0 + 2.0f64.powf(0.5))));
}
