//! The evaluation of a line.

use crate::call::{action_parameter, EvalError};
use crate::callstack::CallStack;
use crate::lexer::{lex, tokens};
use crate::parser::{parse, parse_level, parse_stacks};
use crate::session::{
    apply_top, dispatched, drained, evaluation, lambda_word, lemma_drained_keeps, opening, ran,
    Session, Status, MAX_CYCLES,
};
use crate::value::{LexItem, Value};
use crate::word::{Action, Word};
use vstd::prelude::*;
use vstd::string::*;

verus! {

/// The state of the evaluation of a line.
#[derive(Debug, PartialEq)]
pub struct Interpreter {
    /// The activations and the table of words.
    pub calls: CallStack,
    /// The program that is left, a stack: the last item is next.
    pub program: Vec<LexItem>,
    /// The items that nothing took, in the order in which they came.
    pub output: Vec<LexItem>,
    /// How many placeholders went to the output because no argument was
    /// bound for them.
    pub unbound: usize,
}

impl DeepView for Interpreter {
    type V = Session;

    open spec fn deep_view(&self) -> Session {
        Session {
            pending: self.program.deep_view(),
            stack: self.calls.stack.deep_view(),
            words: self.calls.words.deep_view(),
            output: self.output.deep_view(),
            unbound: self.unbound as nat,
        }
    }
}

/// How the evaluation of a line ended, and what it met on the way.
#[derive(Debug, Clone, Copy, PartialEq, Eq, Structural)]
pub struct Report {
    pub status: Status,
    /// How many placeholders went to the output because no argument was
    /// bound for them.
    pub unbound: usize,
}

/// The values of a line, as a stack: the one written first is the last.
pub fn parse_line(input: &str) -> (r: Vec<LexItem>)
    ensures
        r.deep_view() == parse(tokens(input@)),
{
    let mut written = lex(input);
    let ghost order = written.deep_view();
    let mut lexstack: Vec<LexItem> = Vec::new();
    loop
        invariant
            written.len() <= order.len(),
            written.deep_view() == order.take(written.len() as int),
            lexstack.len() == order.len() - written.len(),
            forall|j: int|
                0 <= j < lexstack.len() ==> lexstack[j].deep_view() == order[order.len() - 1 - j],
        ensures
            lexstack.deep_view() == order.reverse(),
        decreases written.len(),
    {
        let ghost before = written.deep_view();
        match written.pop() {
            Some(token) => {
                proof {
                    assert(written.deep_view() =~= before.drop_last());
                    assert(token.deep_view() == before.last());
                    assert(before.drop_last() =~= order.take(written.len() as int));
                }
                lexstack.push(token);
            },
            None => {
                assert(lexstack.deep_view() =~= order.reverse());
                break;
            },
        }
    }
    let mut parsed: Vec<LexItem> = Vec::new();
    parse_stacks(&mut lexstack, &mut parsed);
    assert(parsed.deep_view() =~= parse_level(order.reverse(), false).0);
    parsed
}

impl Interpreter {
    /// The first half of a cycle: applies the innermost activation as
    /// long as it asks for nothing more.
    pub fn drain(&mut self) -> (r: Result<(), EvalError>)
        ensures
            final(self).deep_view() == drained(old(self).deep_view()).0,
            drained(old(self).deep_view()).1 ==> r is Ok,
            !drained(old(self).deep_view()).1 ==> r == Err::<(), EvalError>(
                EvalError::StackUnderflow,
            ),
    {
        loop
            invariant
                drained(self.deep_view()) == drained(old(self).deep_view()),
            ensures
                self.deep_view() == drained(old(self).deep_view()).0,
                drained(old(self).deep_view()).1,
            decreases self.calls.stack.len(),
        {
            if self.calls.len() == 0 || self.calls.wantsData() {
                break;
            }
            let ghost before = self.deep_view();
            match self.calls.top_apply(&mut self.program) {
                Ok(_) => {
                    proof {
                        assert(apply_top(before) == Some(self.deep_view()));
                        assert(self.calls.stack.deep_view().len() == before.stack.len() - 1);
                    }
                },
                Err(_) => {
                    proof {
                        assert(self.deep_view() == before);
                    }
                    return Err(EvalError::StackUnderflow);
                },
            }
        }
        Ok(())
    }

    /// The second half of a cycle: takes the next item off the program,
    /// if one is left, and deals with it by its kind.
    pub fn dispatch(&mut self)
        requires
            old(self).unbound < usize::MAX,
        ensures
            final(self).deep_view() == dispatched(old(self).deep_view()),
    {
        let ghost before = self.deep_view();
        let item = match self.program.pop() {
            Some(item) => item,
            None => {
                return;
            },
        };
        let ghost rest = Session { pending: before.pending.drop_last(), ..before };
        proof {
            assert(self.program.deep_view() =~= before.pending.drop_last());
            assert(item.deep_view() == before.pending.last());
            assert(self.deep_view() == rest);
        }
        match item {
            LexItem::Word(_) => {
                match self.calls.pushLexItem(item) {
                    Some(back) => {
                        match back {
                            LexItem::Word(w) => {
                                self.calls.pushSearchWord(w);
                            },
                            _ => {},
                        }
                    },
                    None => {},
                }
            },
            LexItem::Num(_) => {
                match self.calls.pushLexItem(item) {
                    Some(back) => {
                        if self.calls.wantsData() {
                            let ghost stack = self.calls.stack.deep_view();
                            let mut top = self.calls.stack.pop().unwrap();
                            let ghost model = top.deep_view();
                            top.results.push(back);
                            self.calls.stack.push(top);
                            proof {
                                assert(model == stack.last());
                                assert(top.results.deep_view() =~= model.results.push(
                                    back.deep_view(),
                                ));
                                assert(self.calls.stack.deep_view() =~= stack.drop_last().push(
                                    top.deep_view(),
                                ));
                            }
                        } else {
                            self.output.push(back);
                            assert(self.output.deep_view() =~= before.output.push(
                                back.deep_view(),
                            ));
                        }
                    },
                    None => {},
                }
            },
            LexItem::Stack(_) | LexItem::Literal(_) => {
                match self.calls.pushLexItem(item) {
                    Some(back) => {
                        self.output.push(back);
                        assert(self.output.deep_view() =~= before.output.push(back.deep_view()));
                    },
                    None => {},
                }
            },
            LexItem::Lambda(_) => {
                match self.calls.pushLexItem(item) {
                    Some(back) => {
                        proof {
                            reveal_strlit("lambda");
                        }
                        let name = String::from_str("lambda");
                        assert(name@ =~= lambda_word(back.deep_view()).name);
                        let w = Word::make_word(name, Action::Substitution, Some(back));
                        self.calls.pushWordCall(&w);
                    },
                    None => {},
                }
            },
            LexItem::Parameter(p) => {
                let n = self.calls.stack.len();
                let found = if n > 0 {
                    assert(self.calls.stack.deep_view().last() == self.calls.stack[n
                        - 1].deep_view());
                    action_parameter(&self.calls.stack[n - 1], p)
                } else {
                    None
                };
                match found {
                    Some(value) => {
                        self.program.push(value);
                        assert(self.program.deep_view() =~= rest.pending.push(value.deep_view()));
                    },
                    None => {
                        self.output.push(LexItem::Parameter(p));
                        self.unbound = self.unbound + 1;
                        assert(self.output.deep_view() =~= before.output.push(
                            Value::Parameter(p),
                        ));
                    },
                }
            },
            LexItem::OpenParen | LexItem::CloseParen | LexItem::Quote => {},
        }
    }
}

/// Evaluates a line against a table of words. The built-in words are
/// defined in the table first; the words that the line defines stay in
/// it. What the line leaves is put at the end of `ostack`, also where the
/// evaluation is cut short: by the cap on its cycles, or by a word that
/// lacks an argument.
pub fn eval(input: &str, words: &mut Vec<Word>, ostack: &mut Vec<LexItem>) -> (r: Report)
    ensures
        final(words).deep_view() == evaluation(input@, old(words).deep_view()).0.words,
        final(ostack).deep_view() == old(ostack).deep_view() + evaluation(
            input@,
            old(words).deep_view(),
        ).0.output,
        r.status == evaluation(input@, old(words).deep_view()).1,
        r.unbound == evaluation(input@, old(words).deep_view()).0.unbound,
{
    let mut machine = Interpreter {
        calls: CallStack { stack: Vec::new(), words: Vec::new() },
        program: parse_line(input),
        output: Vec::new(),
        unbound: 0,
    };
    core::mem::swap(&mut machine.calls.words, words);
    machine.calls.create_builtin_words();
    proof {
        assert(machine.calls.stack.deep_view() =~= Seq::empty());
        assert(machine.output.deep_view() =~= Seq::empty());
        assert(machine.deep_view() == opening(input@, old(words).deep_view()));
    }
    let ghost start = machine.deep_view();
    let mut cycles: usize = 0;
    let mut status = Status::IterationCapExceeded;
    loop
        invariant_except_break
            ran(start, MAX_CYCLES as nat) == ran(
                machine.deep_view(),
                (MAX_CYCLES - cycles) as nat,
            ),
        invariant
            cycles <= MAX_CYCLES,
            machine.unbound <= cycles,
        ensures
            ran(start, MAX_CYCLES as nat) == (machine.deep_view(), status),
        decreases MAX_CYCLES - cycles,
    {
        if cycles >= MAX_CYCLES {
            status = Status::IterationCapExceeded;
            break;
        }
        proof {
            lemma_drained_keeps(machine.deep_view());
        }
        match machine.drain() {
            Ok(()) => {},
            Err(_) => {
                status = Status::StackUnderflow;
                break;
            },
        }
        if machine.program.len() == 0 {
            status = Status::Completed;
            break;
        }
        machine.dispatch();
        cycles = cycles + 1;
    }
    core::mem::swap(&mut machine.calls.words, words);
    let ghost made = machine.output.deep_view();
    ostack.append(&mut machine.output);
    assert(ostack.deep_view() =~= old(ostack).deep_view() + made);
    Report { status, unbound: machine.unbound }
}

} // verus!
