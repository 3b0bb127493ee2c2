//! Folding a row of operands and the operators between them into one value.
//!
//! The operators are folded kind by kind, `^` first, then `/`, `*`, `-` and
//! `+`, and within one kind from the left.
//!
//! What a sum, a difference, a product and a quotient come to is a function
//! of the two operands. What a power or a root comes to is not: the value
//! type does not promise the same number for the same operands. So the fold
//! is stated in two parts. The first part raises every power, and its
//! outcome is stated for given powers: the values that the value type gave,
//! one after the other. The second part folds what is left, and its outcome
//! is a function of the row.
//!
//! The value type does not compute every product, quotient, power and root.
//! An operation is vouched for where it can be told beforehand that it is
//! computed. [`reduce`] is for operands whose operations are all computed;
//! [`try_reduce`] takes any operands and stops at the first operation that
//! is not vouched for.

use crate::error::EvalError;
use crate::ieee::{
    at_least_one, lemma_canonical_decides_alike, nearest_degree, nearest_power, reaches_one,
    whole_degree, whole_power,
};
use crate::text::{find, first_index, lemma_first_index};
use crate::value::{
    add_values, copy_value, difference_of, divide_values, magnitude_bits, magnitude_of,
    multiply_values, no_units, power_units, product_of, quotient_of, raise_value,
    reciprocal_bits, reciprocal_of, root_units, root_value, subtract_values, sum_of, units_of,
    without_units,
};
use value_unit::ValueUnit;
use vstd::prelude::*;

verus! {

/// The five characters that can stand between two operands.
pub open spec fn is_operator(c: char) -> bool {
    c == '*' || c == '+' || c == '-' || c == '/' || c == '^'
}

/// The place of an operator in the order of folding: the lower, the earlier.
pub open spec fn rank(op: char) -> int {
    if op == '^' {
        0
    } else if op == '/' {
        1
    } else if op == '*' {
        2
    } else if op == '-' {
        3
    } else {
        4
    }
}

/// How the right operand of `^` is applied to the left one.
#[derive(Clone, Copy, Debug, PartialEq, Eq, Structural)]
pub enum Exponent {
    /// The left operand is raised to this power.
    Power(i8),
    /// The root of this degree is taken of the left operand.
    Root(i8),
}

/// The exponent that a right operand stands for. A number of at least one
/// in absolute value is rounded to a power. A smaller one is taken as one
/// over the degree of a root: its reciprocal is rounded and reduced modulo
/// two to the power 32. Either is brought into `i8`.
pub open spec fn exponent_of(right: ValueUnit) -> Exponent {
    if reaches_one(magnitude_of(right)) {
        Exponent::Power(nearest_power(magnitude_of(right)))
    } else {
        Exponent::Root(nearest_degree(reciprocal_of(right)))
    }
}

/// Whether the value type computes `left ^ right`: the power or the root
/// that `right` stands for.
pub open spec fn raising_returns(left: ValueUnit, right: ValueUnit) -> bool {
    match exponent_of(right) {
        Exponent::Power(power) => power_units(left, power) is Some,
        Exponent::Root(degree) => root_units(left, degree) is Some,
    }
}

/// The outcome of an operation that the value type computes for all
/// operands it is defined on: there is no outcome where it is not defined.
pub open spec fn computed(value: Option<ValueUnit>) -> Option<Result<ValueUnit, EvalError>> {
    match value {
        Some(v) => Some(Ok(v)),
        None => None,
    }
}

/// The outcome of an operation that the value type refuses for operands
/// whose units differ.
pub open spec fn matched(value: Option<ValueUnit>) -> Option<Result<ValueUnit, EvalError>> {
    match value {
        Some(v) => Some(Ok(v)),
        None => Some(Err(EvalError::UnitMismatch)),
    }
}

/// The outcome of one of `/`, `*`, `-` and `+` on its two operands. `None`
/// stands for an operation that the value type does not compute. A power
/// has no outcome here: what it comes to is given, not told from its
/// operands.
pub open spec fn applied(op: char, left: ValueUnit, right: ValueUnit) -> Option<
    Result<ValueUnit, EvalError>,
> {
    if op == '^' {
        None
    } else if op == '/' {
        computed(quotient_of(left, right))
    } else if op == '*' {
        computed(product_of(left, right))
    } else if op == '-' {
        matched(difference_of(left, right))
    } else {
        matched(sum_of(left, right))
    }
}

/// Whether it can be told beforehand that the value type computes the
/// operation: a sum and a difference always, a product where one of the two
/// has no unit, a quotient where the right operand has none, and a power or
/// a root where the left one has none.
pub open spec fn vouched(op: char, left: ValueUnit, right: ValueUnit) -> bool {
    if op == '^' {
        no_units(left)
    } else if op == '/' {
        no_units(right)
    } else if op == '*' {
        no_units(left) || no_units(right)
    } else {
        true
    }
}

/// The outcome of one of `/`, `*`, `-` and `+` on its two operands; with
/// `careful`, there is none where the operation is not vouched for.
pub open spec fn applied_with(op: char, left: ValueUnit, right: ValueUnit, careful: bool) -> Option<
    Result<ValueUnit, EvalError>,
> {
    if careful && !vouched(op, left, right) {
        None
    } else {
        applied(op, left, right)
    }
}

/// The kind of operator that is folded next: the first of `^`, `/`, `*`,
/// `-`, `+` that occurs.
pub open spec fn next_operator(operators: Seq<char>) -> char {
    if operators.contains('^') {
        '^'
    } else if operators.contains('/') {
        '/'
    } else if operators.contains('*') {
        '*'
    } else if operators.contains('-') {
        '-'
    } else {
        '+'
    }
}

/// The index of the operator that is folded next: the leftmost one of the
/// kind that comes first.
pub open spec fn next_index(operators: Seq<char>) -> int {
    first_index(operators, next_operator(operators))
}

/// The operands after the operator at `index` was folded into `value`.
pub open spec fn folded(operands: Seq<ValueUnit>, index: int, value: ValueUnit) -> Seq<ValueUnit> {
    operands.subrange(0, index).push(value) + operands.subrange(index + 2, operands.len() as int)
}

/// Whether `power` can be what the value type gives for `left ^ right`: it
/// has the units of the power or the root, and none where `left` has none.
pub open spec fn fits(left: ValueUnit, right: ValueUnit, power: ValueUnit) -> bool {
    &&& match exponent_of(right) {
        Exponent::Power(n) => power_units(left, n) == Some(units_of(power)),
        Exponent::Root(n) => root_units(left, n) == Some(units_of(power)),
    }
    &&& no_units(left) ==> no_units(power)
}

/// The row after every `^` was folded, from the left, where the folds gave
/// `powers`, one after the other; and whether each of these powers fits.
/// There is no row where the value type does not compute one of the powers
/// and, with `careful`, where one of them is not vouched for; of the powers
/// behind that one nothing is asked.
pub open spec fn raised_row(
    operands: Seq<ValueUnit>,
    operators: Seq<char>,
    careful: bool,
    powers: Seq<ValueUnit>,
) -> (Option<(Seq<ValueUnit>, Seq<char>)>, bool)
    decreases operators.len(),
{
    let index = first_index(operators, '^');
    if !(0 <= index < operators.len()) {
        (Some((operands, operators)), true)
    } else if careful && !no_units(operands[index]) {
        (None, true)
    } else if !raising_returns(operands[index], operands[index + 1]) {
        (None, true)
    } else {
        let rest = raised_row(
            folded(operands, index, powers[0]),
            operators.remove(index),
            careful,
            powers.drop_first(),
        );
        (rest.0, rest.1 && fits(operands[index], operands[index + 1], powers[0]))
    }
}

/// The outcome of folding the operators of a row without `^`; with
/// `careful`, of folding them as long as every operation is vouched for.
/// `None` stands for a fold that meets an operation without an outcome, or a
/// character that is none of `/`, `*`, `-` and `+`.
pub open spec fn reduction_with(
    operands: Seq<ValueUnit>,
    operators: Seq<char>,
    careful: bool,
) -> Option<Result<ValueUnit, EvalError>>
    decreases operators.len(),
{
    let index = next_index(operators);
    if operators.len() == 0 {
        Some(Ok(operands[0]))
    } else if !(0 <= index < operators.len()) {
        None
    } else {
        match applied_with(operators[index], operands[index], operands[index + 1], careful) {
            Some(Ok(value)) => reduction_with(
                folded(operands, index, value),
                operators.remove(index),
                careful,
            ),
            Some(Err(error)) => Some(Err(error)),
            None => None,
        }
    }
}

/// The outcome of folding the operators of a row without `^`. `None` stands
/// for a fold that meets an operation that the value type does not compute.
pub open spec fn reduction(operands: Seq<ValueUnit>, operators: Seq<char>) -> Option<
    Result<ValueUnit, EvalError>,
> {
    reduction_with(operands, operators, false)
}

/// The outcome of folding the operators of a row without `^` as long as
/// every operation is vouched for. `None` stands for a fold that meets one
/// that is not.
pub open spec fn careful_reduction(operands: Seq<ValueUnit>, operators: Seq<char>) -> Option<
    Result<ValueUnit, EvalError>,
> {
    reduction_with(operands, operators, true)
}

/// The outcome of folding all operators where the powers came to `powers`,
/// and whether each of these powers fits: every `^` is folded first, then
/// the others are.
pub open spec fn reduction_given(
    operands: Seq<ValueUnit>,
    operators: Seq<char>,
    careful: bool,
    powers: Seq<ValueUnit>,
) -> (Option<Result<ValueUnit, EvalError>>, bool) {
    let raised = raised_row(operands, operators, careful, powers);
    match raised.0 {
        Some(row) => (reduction_with(row.0, row.1, careful), raised.1),
        None => (None, raised.1),
    }
}

/// Whether the fold has an outcome for all powers that fit.
pub open spec fn reduction_is_computed(operands: Seq<ValueUnit>, operators: Seq<char>) -> bool {
    forall|powers: Seq<ValueUnit>|
        (#[trigger] reduction_given(operands, operators, false, powers)).1 ==> reduction_given(
            operands,
            operators,
            false,
            powers,
        ).0 is Some
}

/// A careful fold that has an outcome has the outcome of the fold.
pub proof fn lemma_careful_reduction(operands: Seq<ValueUnit>, operators: Seq<char>)
    ensures
        careful_reduction(operands, operators) is Some ==> careful_reduction(operands, operators)
            == reduction(operands, operators),
    decreases operators.len(),
{
    let index = next_index(operators);
    if operators.len() > 0 && 0 <= index < operators.len() {
        match applied_with(operators[index], operands[index], operands[index + 1], true) {
            Some(Ok(value)) => {
                lemma_careful_reduction(folded(operands, index, value), operators.remove(index));
            },
            _ => {},
        }
    }
}

/// Powers that are raised carefully give the row that the powers give.
pub proof fn lemma_careful_row(
    operands: Seq<ValueUnit>,
    operators: Seq<char>,
    powers: Seq<ValueUnit>,
)
    ensures
        raised_row(operands, operators, true, powers).0 is Some ==> raised_row(
            operands,
            operators,
            true,
            powers,
        ) == raised_row(operands, operators, false, powers),
    decreases operators.len(),
{
    let index = first_index(operators, '^');
    if 0 <= index < operators.len() {
        lemma_careful_row(
            folded(operands, index, powers[0]),
            operators.remove(index),
            powers.drop_first(),
        );
    }
}

/// A careful fold that has an outcome has the outcome of the fold, for the
/// same powers.
pub proof fn lemma_careful_reduction_given(
    operands: Seq<ValueUnit>,
    operators: Seq<char>,
    powers: Seq<ValueUnit>,
)
    ensures
        reduction_given(operands, operators, true, powers).0 is Some ==> reduction_given(
            operands,
            operators,
            true,
            powers,
        ) == reduction_given(operands, operators, false, powers),
{
    lemma_careful_row(operands, operators, powers);
    match raised_row(operands, operators, true, powers).0 {
        Some(row) => {
            lemma_careful_reduction(row.0, row.1);
        },
        None => {},
    }
}

/// Where no operator of an earlier kind is left, the next one to fold is the
/// first of kind `op`.
proof fn lemma_next_index(operators: Seq<char>, op: char, index: int)
    requires
        is_operator(op),
        0 <= index < operators.len(),
        operators[index] == op,
        forall|j: int| 0 <= j < index ==> operators[j] != op,
        forall|j: int| 0 <= j < operators.len() ==> rank(op) <= rank(#[trigger] operators[j]),
    ensures
        next_index(operators) == index,
{
    assert(operators.contains(op));
    assert forall|other: char| operators.contains(other) implies rank(op) <= rank(other) by {
        let j = choose|j: int| 0 <= j < operators.len() && operators[j] == other;
        assert(rank(op) <= rank(operators[j]));
    }
    assert(next_operator(operators) == op);
    lemma_first_index(operators, op, index);
}

/// One power comes to what it is given, where the value type computes it.
pub proof fn lemma_reduction_of_power(left: ValueUnit, right: ValueUnit, powers: Seq<ValueUnit>)
    ensures
        reduction_given(seq![left, right], seq!['^'], false, powers) == if raising_returns(
            left,
            right,
        ) {
            (Some(Ok::<ValueUnit, EvalError>(powers[0])), fits(left, right, powers[0]))
        } else {
            (None, true)
        },
{
    let operands = seq![left, right];
    let operators = seq!['^'];
    lemma_first_index(operators, '^', 0);
    if raising_returns(left, right) {
        let after = folded(operands, 0, powers[0]);
        assert(operators.remove(0) =~= Seq::<char>::empty());
        assert(after =~= seq![powers[0]]);
        lemma_first_index(Seq::<char>::empty(), '^', 0);
        assert(raised_row(after, Seq::<char>::empty(), false, powers.drop_first()) == (
            Some((after, Seq::<char>::empty())),
            true,
        ));
        assert(reduction_with(after, Seq::<char>::empty(), false) == Some(
            Ok::<ValueUnit, EvalError>(powers[0]),
        ));
    }
}

/// A row without `^` comes to the same whatever powers are given.
pub proof fn lemma_reduction_without_powers(
    operands: Seq<ValueUnit>,
    operators: Seq<char>,
    careful: bool,
    powers: Seq<ValueUnit>,
)
    requires
        forall|j: int| 0 <= j < operators.len() ==> operators[j] != '^',
    ensures
        reduction_given(operands, operators, careful, powers) == (
            reduction_with(operands, operators, careful),
            true,
        ),
{
    lemma_first_index(operators, '^', operators.len() as int);
}

/// One operator between two operands comes to what the operator makes of
/// them.
pub proof fn lemma_reduction_of_one(left: ValueUnit, right: ValueUnit, op: char)
    requires
        is_operator(op),
        op != '^',
    ensures
        reduction(seq![left, right], seq![op]) == applied(op, left, right),
{
    let operands = seq![left, right];
    let operators = seq![op];
    lemma_next_index(operators, op, 0);
    match applied(op, left, right) {
        Some(Ok(value)) => {
            assert(operators.remove(0) =~= Seq::<char>::empty());
            assert(folded(operands, 0, value) =~= seq![value]);
            assert(reduction_with(seq![value], Seq::<char>::empty(), false) == Some(
                Ok::<ValueUnit, EvalError>(value),
            ));
        },
        _ => {},
    }
}

/// Of two operators the one of the earlier kind is folded first, and of two
/// of one kind the left one. The second fold takes the value of the first as
/// its operand, and an error of the first fold is the outcome.
pub proof fn lemma_reduction_of_two(
    a: ValueUnit,
    b: ValueUnit,
    c: ValueUnit,
    first: char,
    second: char,
)
    requires
        is_operator(first),
        is_operator(second),
        first != '^',
        second != '^',
    ensures
        reduction(seq![a, b, c], seq![first, second]) == if rank(second) < rank(first) {
            match applied(second, b, c) {
                Some(Ok(value)) => applied(first, a, value),
                other => other,
            }
        } else {
            match applied(first, a, b) {
                Some(Ok(value)) => applied(second, value, c),
                other => other,
            }
        },
{
    let operands = seq![a, b, c];
    let operators = seq![first, second];
    if rank(second) < rank(first) {
        lemma_next_index(operators, second, 1);
        match applied(second, b, c) {
            Some(Ok(value)) => {
                assert(operators.remove(1) =~= seq![first]);
                assert(folded(operands, 1, value) =~= seq![a, value]);
                lemma_reduction_of_one(a, value, first);
            },
            _ => {},
        }
    } else {
        lemma_next_index(operators, first, 0);
        match applied(first, a, b) {
            Some(Ok(value)) => {
                assert(operators.remove(0) =~= seq![second]);
                assert(folded(operands, 0, value) =~= seq![value, c]);
                lemma_reduction_of_one(value, c, second);
            },
            _ => {},
        }
    }
}

/// Decides from the right operand of `^` how it applies to the left one.
pub fn exponent(right: &ValueUnit) -> (e: Exponent)
    ensures
        e == exponent_of(*right),
{
    let bits = magnitude_bits(right);
    proof {
        lemma_canonical_decides_alike(bits);
    }
    if at_least_one(bits) {
        Exponent::Power(whole_power(bits))
    } else {
        let reciprocal = reciprocal_bits(right);
        proof {
            lemma_canonical_decides_alike(reciprocal);
        }
        Exponent::Root(whole_degree(reciprocal))
    }
}

/// Tells whether `v` has no unit: the value type adds to `v` a value
/// without units exactly where `v` has none.
pub fn lacks_units(v: &ValueUnit) -> (none: bool)
    ensures
        none == no_units(*v),
{
    let bare = without_units(v);
    add_values(v, &bare).is_some()
}

/// Raises `left` to the power, or takes of it the root, that `right` stands
/// for. What comes back is the value type's: of its number nothing is
/// told.
pub fn raise(left: &ValueUnit, right: &ValueUnit) -> (power: ValueUnit)
    requires
        raising_returns(*left, *right) || no_units(*left),
    ensures
        raising_returns(*left, *right),
        fits(*left, *right, power),
{
    match exponent(right) {
        Exponent::Power(power) => raise_value(left, power),
        Exponent::Root(degree) => root_value(left, degree),
    }
}

/// Raises as `raise` does where `left` has no unit, and does nothing where
/// it has one.
pub fn try_raise(left: &ValueUnit, right: &ValueUnit) -> (power: Option<ValueUnit>)
    ensures
        power is Some <==> no_units(*left),
        power matches Some(value) ==> raising_returns(*left, *right) && fits(
            *left,
            *right,
            value,
        ),
{
    if lacks_units(left) {
        Some(raise(left, right))
    } else {
        None
    }
}

/// Applies one of `/`, `*`, `-` and `+` to its two operands.
pub fn apply(op: char, left: &ValueUnit, right: &ValueUnit) -> (result: Result<
    ValueUnit,
    EvalError,
>)
    requires
        is_operator(op),
        op != '^',
        applied(op, *left, *right) is Some || vouched(op, *left, *right),
    ensures
        applied(op, *left, *right) == Some(result),
{
    if op == '/' {
        Ok(divide_values(left, right))
    } else if op == '*' {
        Ok(multiply_values(left, right))
    } else if op == '-' {
        match subtract_values(left, right) {
            Some(value) => Ok(value),
            None => Err(EvalError::UnitMismatch),
        }
    } else {
        match add_values(left, right) {
            Some(value) => Ok(value),
            None => Err(EvalError::UnitMismatch),
        }
    }
}

/// Tells whether the operation is vouched for.
pub fn vouch(op: char, left: &ValueUnit, right: &ValueUnit) -> (sure: bool)
    ensures
        sure == vouched(op, *left, *right),
{
    if op == '^' {
        lacks_units(left)
    } else if op == '/' {
        lacks_units(right)
    } else if op == '*' {
        lacks_units(left) || lacks_units(right)
    } else {
        true
    }
}

/// Applies one of `/`, `*`, `-` and `+` to its two operands where the
/// operation is vouched for, and does nothing where it is not.
pub fn try_apply(op: char, left: &ValueUnit, right: &ValueUnit) -> (result: Option<
    Result<ValueUnit, EvalError>,
>)
    requires
        is_operator(op),
        op != '^',
    ensures
        result == applied_with(op, *left, *right, true),
        result is Some <==> vouched(op, *left, *right),
{
    if vouch(op, left, right) {
        Some(apply(op, left, right))
    } else {
        None
    }
}

/// Folds every `^`, from the left. It tells whether every power was raised,
/// and what the powers were.
fn raise_all(operands: &mut Vec<ValueUnit>, operators: &mut Vec<char>, careful: bool) -> (done: (
    bool,
    Ghost<Seq<ValueUnit>>,
))
    requires
        old(operators).len() + 1 == old(operands).len(),
        forall|j: int| 0 <= j < old(operators).len() ==> is_operator(#[trigger] old(operators)@[j]),
        careful || forall|powers: Seq<ValueUnit>|
            (#[trigger] raised_row(old(operands)@, old(operators)@, false, powers)).1
                ==> raised_row(old(operands)@, old(operators)@, false, powers).0 is Some,
    ensures
        done.0 ==> {
            &&& raised_row(old(operands)@, old(operators)@, careful, done.1@) == (
                Some((final(operands)@, final(operators)@)),
                true,
            )
            &&& final(operators).len() + 1 == final(operands).len()
            &&& forall|j: int|
                0 <= j < final(operators).len() ==> is_operator(#[trigger] final(operators)@[j])
                    && final(operators)@[j] != '^'
        },
        !done.0 ==> careful && raised_row(old(operands)@, old(operators)@, careful, done.1@) == (
            None::<(Seq<ValueUnit>, Seq<char>)>,
            true,
        ),
{
    let ghost mut trace: Seq<ValueUnit> = Seq::empty();
    let mut index = find(operators, '^');
    proof {
        assert forall|rest: Seq<ValueUnit>|
            #[trigger] raised_row(old(operands)@, old(operators)@, careful, trace + rest)
                == raised_row(operands@, operators@, careful, rest) by {
            assert(trace + rest =~= rest);
        }
    }
    while index < operators.len()
        invariant
            operators.len() + 1 == operands.len(),
            forall|j: int| 0 <= j < operators.len() ==> is_operator(#[trigger] operators@[j]),
            index == first_index(operators@, '^'),
            index <= operators.len(),
            index < operators.len() ==> operators@[index as int] == '^',
            forall|j: int| 0 <= j < index ==> operators@[j] != '^',
            forall|rest: Seq<ValueUnit>|
                #[trigger] raised_row(old(operands)@, old(operators)@, careful, trace + rest)
                    == raised_row(operands@, operators@, careful, rest),
            careful || forall|powers: Seq<ValueUnit>|
                (#[trigger] raised_row(old(operands)@, old(operators)@, false, powers)).1
                    ==> raised_row(old(operands)@, old(operators)@, false, powers).0 is Some,
        decreases operators.len(),
    {
        let ghost before = operands@;
        let ghost signs = operators@;
        let ghost none = Seq::<ValueUnit>::empty();
        proof {
            assert(trace + none =~= trace);
            assert(raised_row(old(operands)@, old(operators)@, careful, trace + none)
                == raised_row(before, signs, careful, none));
        }
        if careful {
            if !lacks_units(&operands[index]) {
                return (false, Ghost(trace));
            }
        }
        let left = operands.remove(index);
        let right = operands.remove(index);
        operators.remove(index);
        assert(left == before[index as int] && right == before[index + 1]);
        let power = raise(&left, &right);
        operands.insert(index, power);
        assert(operands@ =~= folded(before, index as int, power));
        proof {
            let longer = trace.push(power);
            assert forall|rest: Seq<ValueUnit>|
                #[trigger] raised_row(old(operands)@, old(operators)@, careful, longer + rest)
                    == raised_row(operands@, operators@, careful, rest) by {
                let more = seq![power] + rest;
                assert(longer + rest =~= trace + more);
                assert(raised_row(old(operands)@, old(operators)@, careful, trace + more)
                    == raised_row(before, signs, careful, more));
                assert(more[0] == power);
                assert(more.drop_first() =~= rest);
            }
            trace = longer;
        }
        index = find(operators, '^');
    }
    proof {
        let none = Seq::<ValueUnit>::empty();
        assert(trace + none =~= trace);
        assert(raised_row(old(operands)@, old(operators)@, careful, trace + none) == raised_row(
            operands@,
            operators@,
            careful,
            none,
        ));
    }
    (true, Ghost(trace))
}

/// Folds every operator of the kind `op`, from the left, where no operator
/// of an earlier kind is left.
fn fold_kind(
    operands: &mut Vec<ValueUnit>,
    operators: &mut Vec<char>,
    op: char,
    careful: bool,
) -> (result: Option<Result<(), EvalError>>)
    requires
        is_operator(op),
        op != '^',
        old(operators).len() + 1 == old(operands).len(),
        forall|j: int| 0 <= j < old(operators).len() ==> is_operator(#[trigger] old(operators)@[j]),
        forall|j: int|
            0 <= j < old(operators).len() ==> rank(op) <= rank(#[trigger] old(operators)@[j]),
        careful || reduction_with(old(operands)@, old(operators)@, false) is Some,
    ensures
        match result {
            Some(Ok(())) => {
                &&& final(operators).len() + 1 == final(operands).len()
                &&& forall|j: int|
                    0 <= j < final(operators).len() ==> is_operator(#[trigger] final(operators)@[j])
                &&& forall|j: int|
                    0 <= j < final(operators).len() ==> rank(op) < rank(
                        #[trigger] final(operators)@[j],
                    )
                &&& reduction_with(final(operands)@, final(operators)@, careful) == reduction_with(
                    old(operands)@,
                    old(operators)@,
                    careful,
                )
            },
            Some(Err(error)) => reduction_with(old(operands)@, old(operators)@, careful) == Some(
                Err::<ValueUnit, EvalError>(error),
            ),
            None => reduction_with(old(operands)@, old(operators)@, careful) is None,
        },
{
    let ghost outcome = reduction_with(operands@, operators@, careful);
    let mut index = find(operators, op);
    while index < operators.len()
        invariant
            is_operator(op),
            op != '^',
            operators.len() + 1 == operands.len(),
            forall|j: int| 0 <= j < operators.len() ==> is_operator(#[trigger] operators@[j]),
            forall|j: int| 0 <= j < operators.len() ==> rank(op) <= rank(#[trigger] operators@[j]),
            reduction_with(operands@, operators@, careful) == outcome,
            outcome == reduction_with(old(operands)@, old(operators)@, careful),
            careful || outcome is Some,
            index == first_index(operators@, op),
            index <= operators.len(),
            index < operators.len() ==> operators@[index as int] == op,
            forall|j: int| 0 <= j < index ==> operators@[j] != op,
        decreases operators.len(),
    {
        let ghost before = operands@;
        let ghost signs = operators@;
        proof {
            lemma_next_index(signs, op, index as int);
        }
        let left = operands.remove(index);
        let right = operands.remove(index);
        operators.remove(index);
        assert(left == before[index as int] && right == before[index + 1]);
        let applied = if careful {
            try_apply(op, &left, &right)
        } else {
            Some(apply(op, &left, &right))
        };
        match applied {
            None => {
                return None;
            },
            Some(Err(error)) => {
                return Some(Err(error));
            },
            Some(Ok(value)) => {
                operands.insert(index, value);
                assert(operands@ =~= folded(before, index as int, value));
            },
        }
        index = find(operators, op);
    }
    proof {
        assert forall|j: int| 0 <= j < operators.len() implies rank(op) < rank(
            #[trigger] operators@[j],
        ) by {
            assert(operators@[j] != op);
            assert(is_operator(operators@[j]));
        }
    }
    Some(Ok(()))
}

/// Folds the operators of a row without `^`, kind by kind.
fn fold_rest(operands: Vec<ValueUnit>, operators: Vec<char>, careful: bool) -> (result: Option<
    Result<ValueUnit, EvalError>,
>)
    requires
        operators.len() + 1 == operands.len(),
        forall|j: int|
            0 <= j < operators.len() ==> is_operator(#[trigger] operators@[j]) && operators@[j]
                != '^',
        careful || reduction_with(operands@, operators@, false) is Some,
    ensures
        result == reduction_with(operands@, operators@, careful),
{
    let mut operands = operands;
    let mut operators = operators;
    match fold_kind(&mut operands, &mut operators, '/', careful) {
        Some(Ok(())) => {},
        Some(Err(error)) => {
            return Some(Err(error));
        },
        None => {
            return None;
        },
    }
    match fold_kind(&mut operands, &mut operators, '*', careful) {
        Some(Ok(())) => {},
        Some(Err(error)) => {
            return Some(Err(error));
        },
        None => {
            return None;
        },
    }
    match fold_kind(&mut operands, &mut operators, '-', careful) {
        Some(Ok(())) => {},
        Some(Err(error)) => {
            return Some(Err(error));
        },
        None => {
            return None;
        },
    }
    match fold_kind(&mut operands, &mut operators, '+', careful) {
        Some(Ok(())) => {},
        Some(Err(error)) => {
            return Some(Err(error));
        },
        None => {
            return None;
        },
    }
    assert(operators.len() == 0) by {
        if operators.len() > 0 {
            assert(is_operator(operators@[0]));
            assert(rank('+') < rank(operators@[0]));
        }
    }
    Some(Ok(copy_value(&operands[0])))
}

/// Folds the operators of a row in which every power was raised: first
/// every `/` from the left, then every `*`, `-` and `+` in this order.
pub fn reduce_raised(operands: Vec<ValueUnit>, operators: Vec<char>) -> (result: Result<
    ValueUnit,
    EvalError,
>)
    requires
        operators.len() + 1 == operands.len(),
        forall|j: int|
            0 <= j < operators.len() ==> is_operator(#[trigger] operators@[j]) && operators@[j]
                != '^',
        reduction(operands@, operators@) is Some,
    ensures
        reduction(operands@, operators@) == Some(result),
{
    fold_rest(operands, operators, false).unwrap()
}

/// Folds the operators of a row in which every power was raised as
/// `reduce_raised` does, as long as every operation is vouched for, and
/// gives nothing where one is not.
pub fn try_reduce_raised(operands: Vec<ValueUnit>, operators: Vec<char>) -> (result: Option<
    Result<ValueUnit, EvalError>,
>)
    requires
        operators.len() + 1 == operands.len(),
        forall|j: int|
            0 <= j < operators.len() ==> is_operator(#[trigger] operators@[j]) && operators@[j]
                != '^',
    ensures
        result == careful_reduction(operands@, operators@),
{
    fold_rest(operands, operators, true)
}

/// Folds all operators, and tells what the powers were.
pub(crate) fn fold_all(operands: Vec<ValueUnit>, operators: Vec<char>, careful: bool) -> (result: (
    Option<Result<ValueUnit, EvalError>>,
    Ghost<Seq<ValueUnit>>,
))
    requires
        operators.len() + 1 == operands.len(),
        forall|j: int| 0 <= j < operators.len() ==> is_operator(#[trigger] operators@[j]),
        careful || reduction_is_computed(operands@, operators@),
    ensures
        reduction_given(operands@, operators@, careful, result.1@) == (result.0, true),
{
    let ghost row = operands@;
    let ghost signs = operators@;
    let mut operands = operands;
    let mut operators = operators;
    proof {
        if !careful {
            assert forall|powers: Seq<ValueUnit>|
                (#[trigger] raised_row(row, signs, false, powers)).1 implies raised_row(
                row,
                signs,
                false,
                powers,
            ).0 is Some by {
                assert(reduction_given(row, signs, false, powers).1);
            }
        }
    }
    let (done, Ghost(powers)) = raise_all(&mut operands, &mut operators, careful);
    if !done {
        return (None, Ghost(powers));
    }
    proof {
        if !careful {
            assert(reduction_given(row, signs, false, powers).1);
        }
    }
    (fold_rest(operands, operators, careful), Ghost(powers))
}

/// Folds the operators between the operands into one value: first every
/// `^` from the left, then every `/`, `*`, `-` and `+` in this order. The
/// value is what the fold comes to for the powers that the value type gave.
pub fn reduce(operands: Vec<ValueUnit>, operators: Vec<char>) -> (result: Result<
    ValueUnit,
    EvalError,
>)
    requires
        operators.len() + 1 == operands.len(),
        forall|j: int| 0 <= j < operators.len() ==> is_operator(#[trigger] operators@[j]),
        reduction_is_computed(operands@, operators@),
    ensures
        exists|powers: Seq<ValueUnit>|
            #[trigger] reduction_given(operands@, operators@, false, powers) == (
                Some(result),
                true,
            ),
{
    let ghost row = operands@;
    let ghost signs = operators@;
    let (result, Ghost(powers)) = fold_all(operands, operators, false);
    assert(reduction_given(row, signs, false, powers).1);
    result.unwrap()
}

/// Folds the operators between the operands into one value as `reduce`
/// does, as long as every operation is vouched for, and gives nothing where
/// one is not.
pub fn try_reduce(operands: Vec<ValueUnit>, operators: Vec<char>) -> (result: Option<
    Result<ValueUnit, EvalError>,
>)
    requires
        operators.len() + 1 == operands.len(),
        forall|j: int| 0 <= j < operators.len() ==> is_operator(#[trigger] operators@[j]),
    ensures
        exists|powers: Seq<ValueUnit>|
            #[trigger] reduction_given(operands@, operators@, true, powers) == (result, true),
        result is Some ==> exists|powers: Seq<ValueUnit>|
            #[trigger] reduction_given(operands@, operators@, false, powers) == (result, true),
{
    let ghost row = operands@;
    let ghost signs = operators@;
    let (result, Ghost(powers)) = fold_all(operands, operators, true);
    proof {
        lemma_careful_reduction_given(row, signs, powers);
        assert(reduction_given(row, signs, true, powers) == (result, true));
    }
    result
}

} // verus!
