use std::collections::HashMap;
use unit_calc::error::EvalError;
use unit_calc::session::{process_line, read_line, Command, Reply};
use unit_calc::symbols::SymbolTable;
use value_unit::ValueUnit;

fn chars(s: &str) -> Vec<char> {
    s.chars().collect()
}

fn plain(value: f64) -> ValueUnit {
    ValueUnit::new(value, HashMap::new())
}

#[test]
fn reads_commands() {
    assert_eq!(read_line(&chars("exit\n")), Command::Quit);
    assert_eq!(read_line(&chars("  exit  ")), Command::Quit);
    assert_eq!(read_line(&chars("\n")), Command::Nothing);
    assert_eq!(read_line(&chars("")), Command::Nothing);
    assert_eq!(read_line(&chars("   \t")), Command::Nothing);
    assert_eq!(read_line(&chars("exit now\n")), Command::Evaluate(chars("exit now")));
    assert_eq!(read_line(&chars("Exit\n")), Command::Evaluate(chars("Exit")));
}

#[test]
fn reads_expressions_and_assignments() {
    assert_eq!(read_line(&chars(" 2 + 3 \n")), Command::Evaluate(chars("2 + 3")));
    assert_eq!(read_line(&chars("x = 5\n")), Command::Assign(chars("x"), chars("5")));
    assert_eq!(
        read_line(&chars("  speed=3 m / 2 s  \n")),
        Command::Assign(chars("speed"), chars("3 m / 2 s"))
    );
    assert_eq!(read_line(&chars("x =\n")), Command::Assign(chars("x"), chars("")));
}

#[test]
fn refuses_bad_assignments() {
    assert_eq!(read_line(&chars("1x = 5\n")), Command::Refuse(EvalError::InvalidVariableName));
    assert_eq!(read_line(&chars("= 5\n")), Command::Refuse(EvalError::InvalidVariableName));
    assert_eq!(read_line(&chars("a b = 5\n")), Command::Refuse(EvalError::InvalidVariableName));
    assert_eq!(read_line(&chars("x = y = 5\n")), Command::Refuse(EvalError::TooManyAssignments));
    assert_eq!(read_line(&chars("1x == 5\n")), Command::Refuse(EvalError::TooManyAssignments));
}

#[test]
fn assigning_and_assigning_again() {
    let mut table = SymbolTable::new();
    assert_eq!(
        process_line(&mut table, &chars("x = 5\n")),
        Reply::Assigned(chars("x"), plain(5.0))
    );
    assert_eq!(process_line(&mut table, &chars("x + 1\n")), Reply::Value(plain(6.0)));
    assert_eq!(
        process_line(&mut table, &chars("x = 10\n")),
        Reply::Assigned(chars("x"), plain(10.0))
    );
    assert_eq!(process_line(&mut table, &chars("x + 1\n")), Reply::Value(plain(11.0)));
    assert_eq!(table.get("x"), Some(plain(10.0)));
}

#[test]
fn an_assignment_may_use_its_own_name() {
    let mut table = SymbolTable::new();
    process_line(&mut table, &chars("n = 2\n"));
    assert_eq!(
        process_line(&mut table, &chars("n = n * n + 1\n")),
        Reply::Assigned(chars("n"), plain(5.0))
    );
    assert_eq!(table.get("n"), Some(plain(5.0)));
}

#[test]
fn a_line_that_fails_changes_nothing() {
    let mut table = SymbolTable::new();
    process_line(&mut table, &chars("x = 5\n"));
    assert_eq!(
        process_line(&mut table, &chars("x = 1 m + 1 kg\n")),
        Reply::Failed(EvalError::UnitMismatch)
    );
    assert_eq!(
        process_line(&mut table, &chars("x = y\n")),
        Reply::Failed(EvalError::InvalidLiteral)
    );
    assert_eq!(
        process_line(&mut table, &chars("2x = 1\n")),
        Reply::Failed(EvalError::InvalidVariableName)
    );
    assert_eq!(
        process_line(&mut table, &chars("x = 1 = 2\n")),
        Reply::Failed(EvalError::TooManyAssignments)
    );
    assert_eq!(
        process_line(&mut table, &chars("x )\n")),
        Reply::Failed(EvalError::UnmatchedClosingBracket)
    );
    assert_eq!(table.get("x"), Some(plain(5.0)));
    assert!(!table.contains_key("2x"));
    assert!(!table.contains_key("y"));
}

#[test]
fn exit_and_empty_lines() {
    let mut table = SymbolTable::new();
    assert_eq!(process_line(&mut table, &chars("exit\n")), Reply::Quit);
    assert_eq!(process_line(&mut table, &chars("\n")), Reply::Nothing);
    assert_eq!(process_line(&mut table, &chars("2 * 3\n")), Reply::Value(plain(6.0)));
}

#[test]
fn every_error_has_its_message() {
    assert_eq!(EvalError::UnmatchedClosingBracket.message(), "Unmatched closing bracket");
    assert_eq!(EvalError::InvalidLiteral.message(), "Invalid literal");
    assert_eq!(EvalError::UnitMismatch.message(), "Units don't match");
    assert_eq!(
        EvalError::InvalidVariableName.message(),
        "variable names must be alphanumeric and start with an alphabetic character"
    );
    assert_eq!(EvalError::TooManyAssignments.message(), "too many equals signs");
}
