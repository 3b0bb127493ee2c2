//! One line of a session: a command, an expression to evaluate, or an
//! assignment of an expression's value to a variable.

use crate::error::EvalError;
use crate::eval::{evaluation_given, lemma_careful_evaluation, work, Given};
use crate::names::{valid_chars, valid_name};
use crate::symbols::SymbolTable;
use crate::text::{count, count_of, find, first_index, slice_of, trim_bounds, trimmed};
use crate::value::copy_value;
use value_unit::ValueUnit;
use vstd::prelude::*;

verus! {

/// What a line asks for.
pub ghost enum Order {
    /// To end the session.
    Quit,
    /// Nothing: the line is empty.
    Nothing,
    /// The value of an expression.
    Evaluate(Seq<char>),
    /// The value of an expression, under a name.
    Assign(Seq<char>, Seq<char>),
    /// Nothing that can be done.
    Refuse(EvalError),
}

/// The command that ends a session.
pub open spec fn exit_word() -> Seq<char> {
    seq!['e', 'x', 'i', 't']
}

/// What `line` asks for. The line `exit` ends the session and a line of
/// white space asks for nothing. A line without `=` is an expression. A line
/// with one `=` assigns the expression behind it to the name before it,
/// both trimmed. A line with more of them is refused.
pub open spec fn order_of(line: Seq<char>) -> Order {
    let at = first_index(line, '=');
    let name = trimmed(line.subrange(0, at));
    if trimmed(line) == exit_word() {
        Order::Quit
    } else if trimmed(line).len() == 0 {
        Order::Nothing
    } else if count(line, '=') == 0 {
        Order::Evaluate(trimmed(line))
    } else if count(line, '=') > 1 {
        Order::Refuse(EvalError::TooManyAssignments)
    } else if !valid_name(name) {
        Order::Refuse(EvalError::InvalidVariableName)
    } else {
        Order::Assign(name, trimmed(line.subrange(at + 1, line.len() as int)))
    }
}

/// What comes of a line.
pub ghost enum Answer {
    /// The session ends.
    Quit,
    /// Nothing.
    Nothing,
    /// The value of the line's expression.
    Value(ValueUnit),
    /// The value that the name now has.
    Assigned(Seq<char>, ValueUnit),
    /// The line's error.
    Failed(EvalError),
}

/// What comes of `line` with the variables `symbols` where the powers of
/// its expression came to what `given` holds, and whether these powers fit.
/// `None` stands for an expression with an operation that the value type
/// does not compute and, with `careful`, for one with an operation that is
/// not vouched for.
pub open spec fn answer_given(
    symbols: Map<Seq<char>, ValueUnit>,
    line: Seq<char>,
    careful: bool,
    given: Given,
) -> (Option<Answer>, bool) {
    match order_of(line) {
        Order::Quit => (Some(Answer::Quit), true),
        Order::Nothing => (Some(Answer::Nothing), true),
        Order::Refuse(error) => (Some(Answer::Failed(error)), true),
        Order::Evaluate(text) => {
            let outcome = evaluation_given(symbols, text, careful, given);
            match outcome.0 {
                Some(Ok(value)) => (Some(Answer::Value(value)), outcome.1),
                Some(Err(error)) => (Some(Answer::Failed(error)), outcome.1),
                None => (None, outcome.1),
            }
        },
        Order::Assign(name, text) => {
            let outcome = evaluation_given(symbols, text, careful, given);
            match outcome.0 {
                Some(Ok(value)) => (Some(Answer::Assigned(name, value)), outcome.1),
                Some(Err(error)) => (Some(Answer::Failed(error)), outcome.1),
                None => (None, outcome.1),
            }
        },
    }
}

/// Whether `line` has an answer for all powers that fit: the value type
/// computes every operation of its expression.
pub open spec fn answer_is_computed(symbols: Map<Seq<char>, ValueUnit>, line: Seq<char>) -> bool {
    forall|given: Given|
        (#[trigger] answer_given(symbols, line, false, given)).1 ==> answer_given(
            symbols,
            line,
            false,
            given,
        ).0 is Some
}

/// A careful answer, where there is one, is the answer, for the same
/// powers.
pub proof fn lemma_careful_answer(symbols: Map<Seq<char>, ValueUnit>, line: Seq<char>, given: Given)
    ensures
        answer_given(symbols, line, true, given).0 is Some ==> answer_given(
            symbols,
            line,
            true,
            given,
        ) == answer_given(symbols, line, false, given),
{
    match order_of(line) {
        Order::Evaluate(text) => {
            lemma_careful_evaluation(symbols, text, given);
        },
        Order::Assign(name, text) => {
            lemma_careful_evaluation(symbols, text, given);
        },
        _ => {},
    }
}

/// The variables after a line with this answer: an assignment gives its
/// name the value, and nothing else changes the table.
pub open spec fn table_after(symbols: Map<Seq<char>, ValueUnit>, answer: Answer) -> Map<
    Seq<char>,
    ValueUnit,
> {
    match answer {
        Answer::Assigned(name, value) => symbols.insert(name, value),
        _ => symbols,
    }
}

/// What a line asks for.
#[derive(Debug, PartialEq)]
pub enum Command {
    Quit,
    Nothing,
    Evaluate(Vec<char>),
    Assign(Vec<char>, Vec<char>),
    Refuse(EvalError),
}

impl View for Command {
    type V = Order;

    open spec fn view(&self) -> Order {
        match self {
            Command::Quit => Order::Quit,
            Command::Nothing => Order::Nothing,
            Command::Evaluate(text) => Order::Evaluate(text@),
            Command::Assign(name, text) => Order::Assign(name@, text@),
            Command::Refuse(error) => Order::Refuse(*error),
        }
    }
}

/// What comes of a line.
#[derive(Debug, PartialEq)]
pub enum Reply {
    Quit,
    Nothing,
    Value(ValueUnit),
    Assigned(Vec<char>, ValueUnit),
    Failed(EvalError),
}

impl View for Reply {
    type V = Answer;

    open spec fn view(&self) -> Answer {
        match self {
            Reply::Quit => Answer::Quit,
            Reply::Nothing => Answer::Nothing,
            Reply::Value(value) => Answer::Value(*value),
            Reply::Assigned(name, value) => Answer::Assigned(name@, *value),
            Reply::Failed(error) => Answer::Failed(*error),
        }
    }
}

/// The characters from `start` up to `end`, trimmed.
fn trimmed_part(line: &Vec<char>, start: usize, end: usize) -> (part: Vec<char>)
    requires
        start <= end <= line.len(),
    ensures
        part@ == trimmed(line@.subrange(start as int, end as int)),
{
    let whole = slice_of(line, start, end);
    let (from, to) = trim_bounds(&whole);
    slice_of(&whole, from, to)
}

/// Reads what `line` asks for.
pub fn read_line(line: &Vec<char>) -> (command: Command)
    ensures
        command@ == order_of(line@),
{
    let words = trimmed_part(line, 0, line.len());
    assert(line@.subrange(0, line.len() as int) =~= line@);
    if words.len() == 4 && words[0] == 'e' && words[1] == 'x' && words[2] == 'i' && words[3]
        == 't' {
        assert(words@ =~= exit_word());
        return Command::Quit;
    }
    if words.len() == 0 {
        return Command::Nothing;
    }
    let signs = count_of(line, '=');
    if signs == 0 {
        return Command::Evaluate(words);
    }
    if signs > 1 {
        return Command::Refuse(EvalError::TooManyAssignments);
    }
    let at = find(line, '=');
    proof {
        if at == line.len() {
            lemma_count_none(line@, '=');
        }
    }
    let name = trimmed_part(line, 0, at);
    if !valid_chars(&name) {
        return Command::Refuse(EvalError::InvalidVariableName);
    }
    Command::Assign(name, trimmed_part(line, at + 1, line.len()))
}

/// A character that does not occur is counted zero times.
pub proof fn lemma_count_none(text: Seq<char>, c: char)
    requires
        forall|j: int| 0 <= j < text.len() ==> text[j] != c,
    ensures
        count(text, c) == 0,
    decreases text.len(),
{
    if text.len() > 0 {
        lemma_count_none(text.drop_last(), c);
    }
}

/// The answer that a reply stands for, if there is a reply.
pub open spec fn answer_in(reply: Option<Reply>) -> Option<Answer> {
    match reply {
        Some(reply) => Some(reply@),
        None => None,
    }
}

/// The variables after a line with this reply, if there is one.
pub open spec fn table_behind(symbols: Map<Seq<char>, ValueUnit>, reply: Option<Reply>) -> Map<
    Seq<char>,
    ValueUnit,
> {
    match reply {
        Some(reply) => table_after(symbols, reply@),
        None => symbols,
    }
}

/// Evaluates the expression of a line.
fn value_of(variables: &SymbolTable, text: &Vec<char>, careful: bool, Ghost(line): Ghost<
    Seq<char>,
>) -> (result: (Option<Result<ValueUnit, EvalError>>, Ghost<Given>))
    requires
        (order_of(line) matches Order::Evaluate(t) && t == text@) || (order_of(
            line,
        ) matches Order::Assign(_, t) && t == text@),
        careful || answer_is_computed(variables@, line),
    ensures
        evaluation_given(variables@, text@, careful, result.1@) == (result.0, true),
{
    proof {
        if !careful {
            assert forall|given: Given|
                (#[trigger] evaluation_given(variables@, text@, false, given)).1
                implies evaluation_given(variables@, text@, false, given).0 is Some by {
                assert(answer_given(variables@, line, false, given).1);
            }
        }
    }
    work(variables, text, careful)
}

/// Does what `line` asks for, and tells what the powers came to.
fn serve(variables: &mut SymbolTable, line: &Vec<char>, careful: bool) -> (reply: (
    Option<Reply>,
    Ghost<Given>,
))
    requires
        careful || answer_is_computed(old(variables)@, line@),
    ensures
        answer_given(old(variables)@, line@, careful, reply.1@) == (answer_in(reply.0), true),
        final(variables)@ == table_behind(old(variables)@, reply.0),
{
    let ghost idle = Given { powers: Seq::empty(), inner: Seq::empty() };
    match read_line(line) {
        Command::Quit => (Some(Reply::Quit), Ghost(idle)),
        Command::Nothing => (Some(Reply::Nothing), Ghost(idle)),
        Command::Refuse(error) => (Some(Reply::Failed(error)), Ghost(idle)),
        Command::Evaluate(text) => {
            let (outcome, Ghost(given)) = value_of(variables, &text, careful, Ghost(line@));
            match outcome {
                Some(Ok(value)) => (Some(Reply::Value(value)), Ghost(given)),
                Some(Err(error)) => (Some(Reply::Failed(error)), Ghost(given)),
                None => (None, Ghost(given)),
            }
        },
        Command::Assign(name, text) => {
            let (outcome, Ghost(given)) = value_of(variables, &text, careful, Ghost(line@));
            match outcome {
                Some(Ok(value)) => {
                    let kept = copy_value(&value);
                    variables.assign(slice_of(&name, 0, name.len()), kept);
                    assert(name@.subrange(0, name.len() as int) =~= name@);
                    (Some(Reply::Assigned(name, value)), Ghost(given))
                },
                Some(Err(error)) => (Some(Reply::Failed(error)), Ghost(given)),
                None => (None, Ghost(given)),
            }
        },
    }
}

/// Does what `line` asks for: evaluates its expression with the variables
/// of the table and, for an assignment, gives the name the value. The reply
/// is the answer that the line has for the powers that the value type gave.
pub fn process_line(variables: &mut SymbolTable, line: &Vec<char>) -> (reply: Reply)
    requires
        answer_is_computed(old(variables)@, line@),
    ensures
        exists|given: Given|
            #[trigger] answer_given(old(variables)@, line@, false, given) == (Some(reply@), true),
        final(variables)@ == table_after(old(variables)@, reply@),
{
    let ghost symbols = variables@;
    let (reply, Ghost(given)) = serve(variables, line, false);
    assert(answer_given(symbols, line@, false, given).1);
    reply.unwrap()
}

/// Does what `line` asks for as `process_line` does, as long as every
/// operation of its expression is vouched for. Where one is not, it gives
/// nothing and leaves the table as it is.
pub fn try_process_line(variables: &mut SymbolTable, line: &Vec<char>) -> (reply: Option<Reply>)
    ensures
        exists|given: Given|
            #[trigger] answer_given(old(variables)@, line@, true, given) == (
                answer_in(reply),
                true,
            ),
        reply is Some ==> exists|given: Given|
            #[trigger] answer_given(old(variables)@, line@, false, given) == (
                answer_in(reply),
                true,
            ),
        final(variables)@ == table_behind(old(variables)@, reply),
{
    let ghost symbols = variables@;
    let (reply, Ghost(given)) = serve(variables, line, true);
    proof {
        lemma_careful_answer(symbols, line@, given);
        assert(answer_given(symbols, line@, true, given) == (answer_in(reply), true));
    }
    reply
}

} // verus!
