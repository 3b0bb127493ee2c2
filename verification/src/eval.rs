//! Evaluating an expression: the text is cut into operands and operators,
//! each operand is resolved to a value, and the operators are folded.
//!
//! What a power or a root comes to is the value type's, and it does not
//! promise the same number for the same operands. So the outcome of an
//! expression is stated for given powers: what the powers of the expression
//! came to, and those of every expression in brackets inside it. An
//! evaluation comes to the outcome that its text has for the powers that the
//! value type gave.
//!
//! The value type does not compute every operation, and it cannot be asked
//! beforehand whether it computes one. So there are two ways to evaluate.
//! [`process_eq`] evaluates every expression whose operations the value type
//! computes, and is to be called on no other. [`try_process_eq`] can be
//! called on every expression: it evaluates as long as each operation is
//! vouched for, and gives nothing as soon as one is not.

use crate::error::EvalError;
use crate::reduce::{
    fold_all, lemma_careful_reduction_given, lemma_reduction_without_powers, reduction_given,
    reduction_is_computed,
};
use crate::scanner::{
    cut_of, is_balanced, is_row, lemma_cut, lemma_cut_bracketed, lemma_cut_of_row,
    lemma_cut_without, pieces_of, plain_pieces, row, scan, Tokens,
};
use crate::symbols::SymbolTable;
use crate::text::{chars_of, has_word, slice_of, trim_bounds, trimmed, white_space};
use crate::value::{derived_unit_at, literal_of, names_derived_unit, read_literal, unit_ends};
use value_unit::ValueUnit;
use vstd::prelude::*;

verus! {

/// What the powers of an expression came to: those of the expression
/// itself, in the order in which they are raised, and those of its operands,
/// each an expression of its own where it has brackets.
pub ghost struct Given {
    pub powers: Seq<ValueUnit>,
    pub inner: Seq<Given>,
}

/// The value of an operand without brackets: that of the variable whose
/// name is the operand's trimmed text, if there is one, else the value that
/// the text is a literal of. A text without a word is no literal. `None`
/// stands for a literal that the value type does not finish reading and,
/// with `careful`, for one that names a unit that the value type computes
/// with.
pub open spec fn named_or_read_with(
    symbols: Map<Seq<char>, ValueUnit>,
    text: Seq<char>,
    careful: bool,
) -> Option<Result<ValueUnit, EvalError>> {
    if symbols.contains_key(trimmed(text)) {
        Some(Ok(symbols[trimmed(text)]))
    } else if !has_word(text) {
        Some(Err(EvalError::InvalidLiteral))
    } else if careful && names_derived_unit(text) {
        None
    } else {
        match literal_of(text) {
            Some(Some(value)) => Some(Ok(value)),
            Some(None) => Some(Err(EvalError::InvalidLiteral)),
            None => None,
        }
    }
}

/// The values of the first `n` operands of `text`, or the first error that
/// resolving them meets, and whether the given powers fit. An operand with a
/// bracket is an expression of its own, with the powers `inner` gives it.
/// `None` stands for an operation without an outcome.
pub open spec fn operands_given(
    symbols: Map<Seq<char>, ValueUnit>,
    text: Seq<char>,
    n: nat,
    careful: bool,
    inner: Seq<Given>,
) -> (Option<Result<Seq<ValueUnit>, EvalError>>, bool)
    decreases text.len(), 0nat, n,
    via operands_given_decreases
{
    if n == 0 || n > cut_of(text).pieces.len() {
        (Some(Ok(Seq::empty())), true)
    } else {
        let piece = cut_of(text).pieces[n - 1];
        let front = operands_given(symbols, text, (n - 1) as nat, careful, inner);
        match front.0 {
            Some(Ok(values)) => {
                let value = if piece.bracketed {
                    evaluation_given(symbols, piece.text, careful, inner[n - 1])
                } else {
                    (named_or_read_with(symbols, piece.text, careful), true)
                };
                match value.0 {
                    Some(Ok(v)) => (Some(Ok(values.push(v))), front.1 && value.1),
                    Some(Err(error)) => (Some(Err(error)), front.1 && value.1),
                    None => (None, front.1 && value.1),
                }
            },
            Some(Err(error)) => (Some(Err(error)), front.1),
            None => (None, front.1),
        }
    }
}

/// The outcome of evaluating `text` with the variables `symbols` where the
/// powers came to what `given` holds, and whether these powers fit. The
/// operands are resolved from the left; then a `)` without its bracket is an
/// error; then the operators are folded. `None` stands for an operation
/// that the value type does not compute and, with `careful`, for one that
/// is not vouched for.
pub open spec fn evaluation_given(
    symbols: Map<Seq<char>, ValueUnit>,
    text: Seq<char>,
    careful: bool,
    given: Given,
) -> (Option<Result<ValueUnit, EvalError>>, bool)
    decreases text.len(), 1nat, 0nat,
{
    let cut = cut_of(text);
    let operands = operands_given(symbols, text, cut.pieces.len(), careful, given.inner);
    match operands.0 {
        Some(Ok(values)) => if cut.unmatched {
            (Some(Err(EvalError::UnmatchedClosingBracket)), operands.1)
        } else {
            let fold = reduction_given(values, cut.operators, careful, given.powers);
            (fold.0, operands.1 && fold.1)
        },
        Some(Err(error)) => (Some(Err(error)), operands.1),
        None => (None, operands.1),
    }
}

/// An operand with a bracket is shorter than the text it stands in.
#[via_fn]
proof fn operands_given_decreases(
    symbols: Map<Seq<char>, ValueUnit>,
    text: Seq<char>,
    n: nat,
    careful: bool,
    inner: Seq<Given>,
) {
    lemma_cut(text);
}

/// Whether evaluating `text` has an outcome for all powers that fit: the
/// value type computes every operation of it.
pub open spec fn evaluation_is_computed(symbols: Map<Seq<char>, ValueUnit>, text: Seq<char>) -> bool {
    forall|given: Given|
        (#[trigger] evaluation_given(symbols, text, false, given)).1 ==> evaluation_given(
            symbols,
            text,
            false,
            given,
        ).0 is Some
}

/// What the first operands come to decides what all of them come to, where
/// it is an error or nothing.
pub proof fn lemma_operands_prefix(
    symbols: Map<Seq<char>, ValueUnit>,
    text: Seq<char>,
    m: nat,
    n: nat,
    careful: bool,
    inner: Seq<Given>,
)
    requires
        m <= n <= cut_of(text).pieces.len(),
        !(operands_given(symbols, text, m, careful, inner).0 matches Some(Ok(_))),
    ensures
        operands_given(symbols, text, n, careful, inner) == operands_given(
            symbols,
            text,
            m,
            careful,
            inner,
        ),
    decreases n,
{
    if m < n {
        lemma_operands_prefix(symbols, text, m, (n - 1) as nat, careful, inner);
    }
}

/// What the first `n` operands come to depends on what the first `n`
/// operands are given, and on nothing else that is given.
pub proof fn lemma_operands_depend(
    symbols: Map<Seq<char>, ValueUnit>,
    text: Seq<char>,
    n: nat,
    careful: bool,
    one: Seq<Given>,
    other: Seq<Given>,
)
    requires
        forall|j: int| 0 <= j < n ==> one[j] == other[j],
    ensures
        operands_given(symbols, text, n, careful, one) == operands_given(
            symbols,
            text,
            n,
            careful,
            other,
        ),
    decreases n,
{
    if n > 0 {
        lemma_operands_depend(symbols, text, (n - 1) as nat, careful, one, other);
    }
}

/// Evaluating is a function of the variables, the text and what the powers
/// came to: two outcomes of one expression with one table and the same
/// powers are the same outcome.
pub proof fn lemma_evaluation_repeats(
    symbols: Map<Seq<char>, ValueUnit>,
    text: Seq<char>,
    given: Given,
    first: Result<ValueUnit, EvalError>,
    second: Result<ValueUnit, EvalError>,
)
    requires
        evaluation_given(symbols, text, false, given).0 == Some(first),
        evaluation_given(symbols, text, false, given).0 == Some(second),
    ensures
        first == second,
{
}

/// An expression without `^` comes to the same whatever powers are given:
/// evaluating it is a function of the variables and the text.
pub proof fn lemma_evaluation_without_powers(
    symbols: Map<Seq<char>, ValueUnit>,
    text: Seq<char>,
    careful: bool,
    one: Given,
    other: Given,
)
    requires
        forall|i: int| 0 <= i < text.len() ==> text[i] != '^',
    ensures
        evaluation_given(symbols, text, careful, one) == evaluation_given(
            symbols,
            text,
            careful,
            other,
        ),
        evaluation_given(symbols, text, careful, one).1,
    decreases text.len(), 1nat, 0nat,
{
    let cut = cut_of(text);
    lemma_cut_without(text, '^');
    lemma_operands_without_powers(symbols, text, cut.pieces.len(), careful, one.inner, other.inner);
    match operands_given(symbols, text, cut.pieces.len(), careful, one.inner).0 {
        Some(Ok(values)) => {
            lemma_reduction_without_powers(values, cut.operators, careful, one.powers);
            lemma_reduction_without_powers(values, cut.operators, careful, other.powers);
        },
        _ => {},
    }
}

/// The operands of an expression without `^` come to the same whatever
/// powers are given.
proof fn lemma_operands_without_powers(
    symbols: Map<Seq<char>, ValueUnit>,
    text: Seq<char>,
    n: nat,
    careful: bool,
    one: Seq<Given>,
    other: Seq<Given>,
)
    requires
        forall|i: int| 0 <= i < text.len() ==> text[i] != '^',
    ensures
        operands_given(symbols, text, n, careful, one) == operands_given(
            symbols,
            text,
            n,
            careful,
            other,
        ),
        operands_given(symbols, text, n, careful, one).1,
    decreases text.len(), 0nat, n,
{
    if !(n == 0 || n > cut_of(text).pieces.len()) {
        let piece = cut_of(text).pieces[n - 1];
        lemma_cut(text);
        lemma_cut_without(text, '^');
        lemma_operands_without_powers(symbols, text, (n - 1) as nat, careful, one, other);
        if piece.bracketed {
            assert forall|i: int| 0 <= i < piece.text.len() implies piece.text[i] != '^' by {
                assert(cut_of(text).pieces[n - 1].text[i] != '^');
            }
            lemma_evaluation_without_powers(
                symbols,
                piece.text,
                careful,
                one[n - 1],
                other[n - 1],
            );
        }
    }
}

/// A careful evaluation that has an outcome has the outcome of the
/// evaluation, for the same powers.
pub proof fn lemma_careful_evaluation(
    symbols: Map<Seq<char>, ValueUnit>,
    text: Seq<char>,
    given: Given,
)
    ensures
        evaluation_given(symbols, text, true, given).0 is Some ==> evaluation_given(
            symbols,
            text,
            true,
            given,
        ) == evaluation_given(symbols, text, false, given),
    decreases text.len(), 1nat, 0nat,
{
    let cut = cut_of(text);
    lemma_careful_operands(symbols, text, cut.pieces.len(), given.inner);
    match operands_given(symbols, text, cut.pieces.len(), true, given.inner).0 {
        Some(Ok(operands)) => {
            lemma_careful_reduction_given(operands, cut.operators, given.powers);
        },
        _ => {},
    }
}

/// Careful operands that come to something come to what the operands come
/// to.
proof fn lemma_careful_operands(
    symbols: Map<Seq<char>, ValueUnit>,
    text: Seq<char>,
    n: nat,
    inner: Seq<Given>,
)
    ensures
        operands_given(symbols, text, n, true, inner).0 is Some ==> operands_given(
            symbols,
            text,
            n,
            true,
            inner,
        ) == operands_given(symbols, text, n, false, inner),
    decreases text.len(), 0nat, n,
{
    if !(n == 0 || n > cut_of(text).pieces.len()) {
        let piece = cut_of(text).pieces[n - 1];
        lemma_cut(text);
        lemma_careful_operands(symbols, text, (n - 1) as nat, inner);
        if piece.bracketed {
            lemma_careful_evaluation(symbols, piece.text, inner[n - 1]);
        }
    }
}

/// An expression in balanced brackets comes to what the expression comes
/// to.
pub proof fn lemma_evaluation_of_bracketed(
    symbols: Map<Seq<char>, ValueUnit>,
    inner: Seq<char>,
    careful: bool,
    given: Given,
    powers: Seq<ValueUnit>,
)
    requires
        is_balanced(inner),
    ensures
        evaluation_given(
            symbols,
            seq!['('] + inner + seq![')'],
            careful,
            Given { powers, inner: seq![given] },
        ) == evaluation_given(symbols, inner, careful, given),
{
    let text = seq!['('] + inner + seq![')'];
    let around = seq![given];
    lemma_cut_bracketed(inner);
    assert(operands_given(symbols, text, 0, careful, around) == (
        Some(Ok::<Seq<ValueUnit>, EvalError>(Seq::empty())),
        true,
    ));
    let inside = evaluation_given(symbols, inner, careful, given);
    match inside.0 {
        Some(Ok(value)) => {
            let values = Seq::<ValueUnit>::empty().push(value);
            assert(operands_given(symbols, text, 1, careful, around) == (
                Some(Ok::<Seq<ValueUnit>, EvalError>(values)),
                inside.1,
            ));
            lemma_reduction_without_powers(values, Seq::<char>::empty(), careful, powers);
        },
        _ => {},
    }
}

/// A row of plain operands comes to what folding their values comes to.
pub proof fn lemma_evaluation_of_row(
    symbols: Map<Seq<char>, ValueUnit>,
    operands: Seq<Seq<char>>,
    operators: Seq<char>,
    values: Seq<ValueUnit>,
    careful: bool,
    given: Given,
)
    requires
        is_row(operands, operators),
        values.len() == operands.len(),
        forall|j: int|
            0 <= j < operands.len() ==> named_or_read_with(symbols, #[trigger] operands[j], careful)
                == Some(Ok::<ValueUnit, EvalError>(values[j])),
    ensures
        evaluation_given(symbols, row(operands, operators), careful, given) == reduction_given(
            values,
            operators,
            careful,
            given.powers,
        ),
{
    lemma_cut_of_row(operands, operators);
    lemma_operands_of_row(symbols, operands, operators, values, operands.len(), careful, given.inner);
    assert(values.subrange(0, values.len() as int) =~= values);
}

/// The first operands of a row of plain operands come to their values.
proof fn lemma_operands_of_row(
    symbols: Map<Seq<char>, ValueUnit>,
    operands: Seq<Seq<char>>,
    operators: Seq<char>,
    values: Seq<ValueUnit>,
    n: nat,
    careful: bool,
    inner: Seq<Given>,
)
    requires
        cut_of(row(operands, operators)).pieces == plain_pieces(operands),
        values.len() == operands.len(),
        forall|j: int|
            0 <= j < operands.len() ==> named_or_read_with(symbols, #[trigger] operands[j], careful)
                == Some(Ok::<ValueUnit, EvalError>(values[j])),
        n <= operands.len(),
    ensures
        operands_given(symbols, row(operands, operators), n, careful, inner) == (
            Some(Ok::<Seq<ValueUnit>, EvalError>(values.subrange(0, n as int))),
            true,
        ),
    decreases n,
{
    if n > 0 {
        lemma_operands_of_row(symbols, operands, operators, values, (n - 1) as nat, careful, inner);
        assert(plain_pieces(operands)[n - 1].text == operands[n - 1]);
        assert(values.subrange(0, n - 1).push(values[n - 1]) =~= values.subrange(0, n as int));
    } else {
        assert(values.subrange(0, 0) =~= Seq::<ValueUnit>::empty());
    }
}

/// Tells whether a unit can end before `end`.
fn unit_can_end(text: &Vec<char>, end: usize) -> (ends: bool)
    requires
        end <= text.len(),
    ensures
        ends == unit_ends(text@, end as int),
{
    end == text.len() || white_space(text[end]) || text[end] == '^'
}

/// Tells whether a unit that the value type computes with can be read in
/// `text`.
pub fn mentions_derived_unit(text: &Vec<char>) -> (named: bool)
    ensures
        named == names_derived_unit(text@),
{
    let mut i: usize = 1;
    assert(!derived_unit_at(text@, 0));
    while i < text.len()
        invariant
            1 <= i,
            forall|j: int| 0 <= j < i && j < text.len() ==> !derived_unit_at(text@, j),
        decreases text.len() - i,
    {
        let c = text[i];
        if white_space(text[i - 1]) {
            let left = text.len() - i;
            let found = if c == 'N' || c == 'J' || c == 'W' || c == 'V' || c == 'T' {
                unit_can_end(text, i + 1)
            } else if left > 1 && ((c == 'H' && text[i + 1] == 'z') || (c == 'P' && text[i + 1]
                == 'a')) {
                unit_can_end(text, i + 2)
            } else if left > 2 && c == 'O' && text[i + 1] == 'h' && text[i + 2] == 'm' {
                unit_can_end(text, i + 3)
            } else {
                false
            };
            if found {
                assert(derived_unit_at(text@, i as int));
                return true;
            }
        }
        i += 1;
    }
    false
}

/// Resolves an operand without brackets.
fn settle(variables: &SymbolTable, text: &Vec<char>, careful: bool) -> (result: Option<
    Result<ValueUnit, EvalError>,
>)
    requires
        careful || named_or_read_with(variables@, text@, false) is Some,
    ensures
        result == named_or_read_with(variables@, text@, careful),
{
    let (start, end) = trim_bounds(text);
    let name = slice_of(text, start, end);
    match variables.lookup(&name) {
        Some(value) => Some(Ok(value)),
        None => {
            if start == end {
                Some(Err(EvalError::InvalidLiteral))
            } else if careful && mentions_derived_unit(text) {
                None
            } else {
                match read_literal(text) {
                    Some(value) => Some(Ok(value)),
                    None => Some(Err(EvalError::InvalidLiteral)),
                }
            }
        },
    }
}

/// Resolves an operand without brackets: a variable, or else a literal.
pub fn resolve(variables: &SymbolTable, text: &Vec<char>) -> (result: Result<ValueUnit, EvalError>)
    requires
        named_or_read_with(variables@, text@, false) is Some,
    ensures
        named_or_read_with(variables@, text@, false) == Some(result),
{
    settle(variables, text, false).unwrap()
}

/// Resolves an operand without brackets as `resolve` does, and gives
/// nothing for a literal that names a unit that the value type computes
/// with.
pub fn try_resolve(variables: &SymbolTable, text: &Vec<char>) -> (result: Option<
    Result<ValueUnit, EvalError>,
>)
    ensures
        result == named_or_read_with(variables@, text@, true),
{
    settle(variables, text, true)
}

/// Evaluates the expression that the characters `text` spell, and tells
/// what its powers came to.
pub(crate) fn work(variables: &SymbolTable, text: &Vec<char>, careful: bool) -> (result: (
    Option<Result<ValueUnit, EvalError>>,
    Ghost<Given>,
))
    requires
        careful || evaluation_is_computed(variables@, text@),
    ensures
        evaluation_given(variables@, text@, careful, result.1@) == (result.0, true),
    decreases text@.len(),
{
    let Tokens { operands, operators, unmatched } = scan(text);
    let ghost cut = cut_of(text@);
    let ghost symbols = variables@;
    proof {
        lemma_cut(text@);
    }
    let mut values: Vec<ValueUnit> = Vec::new();
    let ghost mut inner: Seq<Given> = Seq::empty();
    let ghost idle = Given { powers: Seq::empty(), inner: Seq::empty() };
    let mut k: usize = 0;
    while k < operands.len()
        invariant
            k <= operands.len(),
            symbols == variables@,
            cut == cut_of(text@),
            cut.pieces == pieces_of(operands@),
            cut.operators == operators@,
            cut.unmatched == unmatched,
            values.len() == k,
            inner.len() == k,
            forall|j: int|
                0 <= j < cut.pieces.len() ==> (#[trigger] cut.pieces[j]).bracketed
                    ==> cut.pieces[j].text.len() < text@.len(),
            operands_given(symbols, text@, k as nat, careful, inner) == (
                Some(Ok::<Seq<ValueUnit>, EvalError>(values@)),
                true,
            ),
            careful || evaluation_is_computed(symbols, text@),
        decreases operands.len() - k,
    {
        let operand = &operands[k];
        let ghost piece = cut.pieces[k as int];
        let ghost count = cut.pieces.len();
        assert(piece == operand@);
        let ghost given = idle;
        let value = if operand.bracketed {
            proof {
                if !careful {
                    assert forall|g: Given|
                        (#[trigger] evaluation_given(symbols, piece.text, false, g)).1
                        implies evaluation_given(symbols, piece.text, false, g).0 is Some by {
                        let longer = inner.push(g);
                        let whole = Given { powers: Seq::empty(), inner: longer };
                        lemma_operands_depend(symbols, text@, k as nat, false, inner, longer);
                        if evaluation_given(symbols, piece.text, false, g).0 is None {
                            lemma_operands_prefix(
                                symbols,
                                text@,
                                (k + 1) as nat,
                                count,
                                false,
                                longer,
                            );
                            assert(evaluation_given(symbols, text@, false, whole).1);
                        }
                    }
                }
            }
            let (inside, Ghost(g)) = work(variables, &operand.text, careful);
            proof {
                given = g;
            }
            inside
        } else {
            settle_operand(variables, &operand.text, careful, Ghost(text@), Ghost(k as nat), Ghost(inner))
        };
        proof {
            let longer = inner.push(given);
            lemma_operands_depend(symbols, text@, k as nat, careful, inner, longer);
            if !(value matches Some(Ok(_))) {
                lemma_operands_prefix(symbols, text@, (k + 1) as nat, count, careful, longer);
            }
            inner = longer;
        }
        match value {
            Some(Ok(v)) => {
                values.push(v);
            },
            Some(Err(error)) => {
                return (Some(Err(error)), Ghost(Given { powers: Seq::empty(), inner }));
            },
            None => {
                return (None, Ghost(Given { powers: Seq::empty(), inner }));
            },
        }
        k += 1;
    }
    if unmatched {
        return (
            Some(Err(EvalError::UnmatchedClosingBracket)),
            Ghost(Given { powers: Seq::empty(), inner }),
        );
    }
    proof {
        lemma_cut(text@);
        if !careful {
            assert forall|powers: Seq<ValueUnit>|
                (#[trigger] reduction_given(values@, operators@, false, powers)).1
                implies reduction_given(values@, operators@, false, powers).0 is Some by {
                let whole = Given { powers, inner };
                assert(evaluation_given(symbols, text@, false, whole).1);
            }
        }
    }
    let (result, Ghost(powers)) = fold_all(values, operators, careful);
    (result, Ghost(Given { powers, inner }))
}

/// Resolves an operand without brackets, the one at `k` of `text`.
fn settle_operand(
    variables: &SymbolTable,
    operand: &Vec<char>,
    careful: bool,
    Ghost(text): Ghost<Seq<char>>,
    Ghost(k): Ghost<nat>,
    Ghost(inner): Ghost<Seq<Given>>,
) -> (result: Option<Result<ValueUnit, EvalError>>)
    requires
        k < cut_of(text).pieces.len(),
        cut_of(text).pieces[k as int].text == operand@,
        !cut_of(text).pieces[k as int].bracketed,
        operands_given(variables@, text, k, careful, inner).0 matches Some(Ok(_)),
        operands_given(variables@, text, k, careful, inner).1,
        careful || evaluation_is_computed(variables@, text),
    ensures
        result == named_or_read_with(variables@, operand@, careful),
{
    proof {
        if !careful && named_or_read_with(variables@, operand@, false) is None {
            let whole = Given { powers: Seq::empty(), inner };
            lemma_operands_prefix(
                variables@,
                text,
                k + 1,
                cut_of(text).pieces.len(),
                false,
                inner,
            );
            assert(evaluation_given(variables@, text, false, whole).1);
        }
    }
    settle(variables, operand, careful)
}

/// Evaluates the expression that the characters `text` spell. The value is
/// what the expression comes to for the powers that the value type gave.
pub fn evaluate(variables: &SymbolTable, text: &Vec<char>) -> (result: Result<
    ValueUnit,
    EvalError,
>)
    requires
        evaluation_is_computed(variables@, text@),
    ensures
        exists|given: Given|
            #[trigger] evaluation_given(variables@, text@, false, given) == (Some(result), true),
{
    let (result, Ghost(given)) = work(variables, text, false);
    assert(evaluation_given(variables@, text@, false, given).1);
    result.unwrap()
}

/// Evaluates the expression that the characters `text` spell as `evaluate`
/// does, as long as every operation is vouched for, and gives nothing as
/// soon as one is not.
pub fn try_evaluate(variables: &SymbolTable, text: &Vec<char>) -> (result: Option<
    Result<ValueUnit, EvalError>,
>)
    ensures
        exists|given: Given|
            #[trigger] evaluation_given(variables@, text@, true, given) == (result, true),
        result is Some ==> exists|given: Given|
            #[trigger] evaluation_given(variables@, text@, false, given) == (result, true),
{
    let (result, Ghost(given)) = work(variables, text, true);
    proof {
        lemma_careful_evaluation(variables@, text@, given);
        assert(evaluation_given(variables@, text@, true, given) == (result, true));
    }
    result
}

/// Evaluates the expression `input` with the variables of the table. The
/// value is what the expression comes to for the powers that the value type
/// gave.
pub fn process_eq(variables: &SymbolTable, input: String) -> (result: Result<
    ValueUnit,
    EvalError,
>)
    requires
        evaluation_is_computed(variables@, input@),
    ensures
        exists|given: Given|
            #[trigger] evaluation_given(variables@, input@, false, given) == (Some(result), true),
{
    let text = chars_of(input.as_str());
    evaluate(variables, &text)
}

/// Evaluates the expression `input` with the variables of the table as
/// `process_eq` does, as long as every operation is vouched for, and gives
/// nothing as soon as one is not.
pub fn try_process_eq(variables: &SymbolTable, input: String) -> (result: Option<
    Result<ValueUnit, EvalError>,
>)
    ensures
        exists|given: Given|
            #[trigger] evaluation_given(variables@, input@, true, given) == (result, true),
        result is Some ==> exists|given: Given|
            #[trigger] evaluation_given(variables@, input@, false, given) == (result, true),
{
    let text = chars_of(input.as_str());
    try_evaluate(variables, &text)
}

} // verus!
