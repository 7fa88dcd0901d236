//! The evaluation of a line, as pure functions on its state.
//!
//! A line is a program: a stack of values, the first written on top. It is
//! reduced in cycles. Each cycle first applies the activations that have
//! all their arguments, then hands the next value of the program to the
//! innermost activation, or invokes it, or moves it to the output.

use crate::call::{
    activation, bound, choice_results, definition_of, difference_results, extract_results,
    operand, sum_results, template_results, Activation, Binding,
};
use crate::lexer::tokens;
use crate::parser::parse;
use crate::value::{satisfies, Expectation, Value};
use crate::word::{
    builtin_define, defined, definition, lookup, with_builtins, Action, Definition,
};
use vstd::prelude::*;

verus! {

/// How the evaluation of a line ended.
#[derive(Debug, Clone, Copy, PartialEq, Eq, Structural)]
pub enum Status {
    /// The program was used up.
    Completed,
    /// The program was not used up within the cycles allowed.
    IterationCapExceeded,
    /// A word was applied without an argument that it needs.
    StackUnderflow,
}

/// The number of cycles that the evaluation of one line may take.
pub const MAX_CYCLES: usize = 100;

/// The state of the evaluation of a line.
pub struct Session {
    /// The program that is left, a stack: the last value is next.
    pub pending: Seq<Value>,
    /// The activations that wait for arguments, the innermost last.
    pub stack: Seq<Activation>,
    /// The table of words.
    pub words: Seq<Definition>,
    /// The values that nothing took, in the order in which they came.
    pub output: Seq<Value>,
    /// How many placeholders went to the output because no argument was
    /// bound for them.
    pub unbound: nat,
}

/// What the application of an activation yields: the results that are
/// run next, and the table of words after it. A built-in action puts
/// what it makes after the results that the activation holds; what a
/// template yields takes their place. `None` where an argument that the
/// action needs is not bound.
pub open spec fn applied(a: Activation, words: Seq<Definition>) -> Option<
    (Seq<Value>, Seq<Definition>),
> {
    match a.action {
        Action::Nothing => Some((a.results, words)),
        Action::Add => match sum_results(a.arguments) {
            Some(made) => Some((a.results + made, words)),
            None => None,
        },
        Action::Subtract => match difference_results(a.arguments) {
            Some(made) => Some((a.results + made, words)),
            None => None,
        },
        Action::If => match choice_results(a.arguments) {
            Some(made) => Some((a.results + made, words)),
            None => None,
        },
        Action::Extract => match extract_results(a.arguments) {
            Some(made) => Some((a.results + made, words)),
            None => None,
        },
        Action::Define => match (operand(a.arguments, 1), operand(a.arguments, 2)) {
            (Some(first), Some(second)) => Some(
                (
                    a.results,
                    match definition_of(first, second) {
                        Some(word) => defined(words, word),
                        None => words,
                    },
                ),
            ),
            _ => None,
        },
        Action::Substitution => Some((template_results(a), words)),
    }
}

/// Whether the innermost activation still asks for an argument.
pub open spec fn wants_data(stack: Seq<Activation>) -> bool {
    stack.len() > 0 && stack.last().expectations.len() > 0
}

/// Whether the innermost activation asks for a value of this kind next.
pub open spec fn takes(stack: Seq<Activation>, v: Value) -> bool {
    wants_data(stack) && satisfies(stack.last().expectations.last(), v)
}

/// The activation of `define` that defines a name which the table does
/// not hold: the name is bound already, and only the datum is asked for.
pub open spec fn implicit_definition(name: Seq<char>) -> Activation {
    Activation {
        arguments: seq![Binding { name: 1, value: Value::Identifier(name) }],
        expectations: seq![Expectation::Any],
        ..activation(builtin_define())
    }
}

/// The activation that invokes a name: that of the word it stands for,
/// or the one that defines it.
pub open spec fn invocation(words: Seq<Definition>, name: Seq<char>) -> Activation {
    match lookup(words, name) {
        Some(word) => activation(word),
        None => implicit_definition(name),
    }
}

/// The nameless word that a lambda is run as.
pub open spec fn lambda_word(template: Value) -> Definition {
    definition(seq!['l', 'a', 'm', 'b', 'd', 'a'], Action::Substitution, Some(template))
}

/// The session after the innermost activation has been applied and has
/// left: its results are on top of the program. `None` where an
/// argument that its action needs is not bound.
pub open spec fn apply_top(s: Session) -> Option<Session>
    recommends
        s.stack.len() > 0,
{
    match applied(s.stack.last(), s.words) {
        Some((results, words)) => Some(
            Session {
                pending: s.pending + results,
                stack: s.stack.drop_last(),
                words,
                ..s
            },
        ),
        None => None,
    }
}

/// The first half of a cycle: the innermost activation is applied as
/// long as it asks for nothing more. The flag is false where that failed
/// for want of an argument; the session is then the one in which it
/// failed.
pub open spec fn drained(s: Session) -> (Session, bool)
    decreases s.stack.len(),
{
    if s.stack.len() == 0 || wants_data(s.stack) {
        (s, true)
    } else {
        match apply_top(s) {
            Some(next) => drained(next),
            None => (s, false),
        }
    }
}

/// The session with a value bound by the innermost activation.
pub open spec fn bind_top(s: Session, v: Value) -> Session
    recommends
        s.stack.len() > 0,
{
    Session { stack: s.stack.drop_last().push(bound(s.stack.last(), v)), ..s }
}

/// The second half of a cycle: the next value of the program is taken
/// off and dealt with by its kind. Where the program is used up nothing
/// happens.
///
/// - What the innermost activation asks for next is bound by it.
/// - Otherwise a name is invoked, and so is a lambda, as a nameless
///   word.
/// - Otherwise a number that the innermost activation did not ask for
///   waits among that activation's results until it is applied; where
///   no activation asks for anything the number goes to the output. A
///   block or a literal goes to the output.
/// - A placeholder is never bound. It is replaced by the argument of its
///   name in the innermost activation; where there is none it goes to
///   the output as it is, and is counted.
/// - Brackets and quote marks are dropped.
pub open spec fn dispatched(s: Session) -> Session {
    if s.pending.len() == 0 {
        s
    } else {
        dispatched_value(s, s.pending.last())
    }
}

/// The session after the value `v` has been taken off the top of its
/// program and dealt with.
pub open spec fn dispatched_value(s: Session, v: Value) -> Session {
    let rest = Session { pending: s.pending.drop_last(), ..s };
    match v {
        Value::Identifier(name) => if takes(s.stack, v) {
            bind_top(rest, v)
        } else {
            Session { stack: s.stack.push(invocation(s.words, name)), ..rest }
        },
        Value::Number(_) => if takes(s.stack, v) {
            bind_top(rest, v)
        } else if wants_data(s.stack) {
            Session {
                stack: s.stack.drop_last().push(
                    Activation { results: s.stack.last().results.push(v), ..s.stack.last() },
                ),
                ..rest
            }
        } else {
            Session { output: s.output.push(v), ..rest }
        },
        Value::Block(_) | Value::Literal(_) => if takes(s.stack, v) {
            bind_top(rest, v)
        } else {
            Session { output: s.output.push(v), ..rest }
        },
        Value::Lambda(_) => if takes(s.stack, v) {
            bind_top(rest, v)
        } else {
            Session { stack: s.stack.push(activation(lambda_word(v))), ..rest }
        },
        Value::Parameter(p) => if s.stack.len() > 0 && operand(s.stack.last().arguments, p)
            is Some {
            Session { pending: rest.pending.push(operand(s.stack.last().arguments, p)->0), ..rest }
        } else {
            Session { output: s.output.push(v), unbound: s.unbound + 1, ..rest }
        },
        Value::OpenGroup | Value::CloseGroup | Value::Quote => rest,
    }
}

/// The session after at most `cycles` cycles, and how it ended: with
/// the program used up after the first half of a cycle, with a word that
/// lacked an argument, or with the cycles used up.
pub open spec fn ran(s: Session, cycles: nat) -> (Session, Status)
    decreases cycles,
{
    if cycles == 0 {
        (s, Status::IterationCapExceeded)
    } else {
        let (d, complete) = drained(s);
        if !complete {
            (d, Status::StackUnderflow)
        } else if d.pending.len() == 0 {
            (d, Status::Completed)
        } else {
            ran(dispatched(d), (cycles - 1) as nat)
        }
    }
}

/// The session in which the evaluation of a line begins: the line's
/// values as the program, the built-in words defined in the table.
pub open spec fn opening(line: Seq<char>, words: Seq<Definition>) -> Session {
    Session {
        pending: parse(tokens(line)),
        stack: Seq::empty(),
        words: with_builtins(words),
        output: Seq::empty(),
        unbound: 0,
    }
}

/// The evaluation of a line against a table of words.
pub open spec fn evaluation(line: Seq<char>, words: Seq<Definition>) -> (Session, Status) {
    ran(opening(line, words), MAX_CYCLES as nat)
}

/// The first half of a cycle leaves the output alone, and with it the
/// count of placeholders that went there; it adds no activation.
pub proof fn lemma_drained_keeps(s: Session)
    ensures
        drained(s).0.output == s.output,
        drained(s).0.unbound == s.unbound,
        drained(s).0.stack.len() <= s.stack.len(),
    decreases s.stack.len(),
{
    if !(s.stack.len() == 0 || wants_data(s.stack)) {
        match apply_top(s) {
            Some(next) => {
                lemma_drained_keeps(next);
            },
            None => {},
        }
    }
}

} // verus!
