//! The stack of activations and the table of words of a session.

use crate::call::{
    action_add, action_extract, action_if, action_none, action_substitution, action_subtract,
    activation, argument_value, bound, make_call, make_definition, Call, EvalError, Parameter,
};
use crate::session::{applied, implicit_definition, invocation, takes, wants_data};
use crate::value::{meets, Expectation, LexItem};
use crate::word::{
    builtin_add, builtin_define, builtin_extract, builtin_if, builtin_subtract, find_word,
    insert_word, with_builtins, Action, Word,
};
use vstd::prelude::*;
use vstd::string::*;

verus! {

/// The activations that wait for arguments, the innermost last, and the
/// table of words.
#[derive(Debug, PartialEq)]
pub struct CallStack {
    pub stack: Vec<Call>,
    pub words: Vec<Word>,
}

/// The activation of `define` in which a name is bound already.
pub fn implicit_call(name: String) -> (r: Call)
    ensures
        r.deep_view() == implicit_definition(name@),
{
    proof {
        reveal_strlit("define");
    }
    let mut arguments: Vec<Parameter> = Vec::new();
    arguments.push(Parameter { name: 1, value: LexItem::Word(name) });
    let mut expectations: Vec<Expectation> = Vec::new();
    expectations.push(Expectation::Any);
    let r = Call {
        name: String::from_str("define"),
        action: Action::Define,
        arity: 2,
        arguments,
        expectations,
        results: Vec::new(),
        substitution: None,
    };
    proof {
        assert(r.name@ =~= builtin_define().name);
        assert(r.arguments.deep_view() =~= implicit_definition(name@).arguments);
        assert(r.expectations@ =~= implicit_definition(name@).expectations);
        assert(r.results.deep_view() =~= implicit_definition(name@).results);
    }
    r
}

impl CallStack {
    /// Invokes a name: pushes the activation of the word it stands for,
    /// or the one that defines it.
    #[allow(non_snake_case)]
    pub fn pushSearchWord(&mut self, word: String)
        ensures
            final(self).stack.deep_view() == old(self).stack.deep_view().push(
                invocation(old(self).words.deep_view(), word@),
            ),
            final(self).words.deep_view() == old(self).words.deep_view(),
    {
        let call = match find_word(&self.words, &word) {
            Some(i) => {
                assert(self.words.deep_view()[i as int] == self.words[i as int].deep_view());
                make_call(&self.words[i])
            },
            None => implicit_call(word),
        };
        self.stack.push(call);
        assert(self.stack.deep_view() =~= old(self).stack.deep_view().push(call.deep_view()));
    }

    /// Pushes the activation of a word.
    #[allow(non_snake_case)]
    pub fn pushWordCall(&mut self, word: &Word)
        ensures
            final(self).stack.deep_view() == old(self).stack.deep_view().push(
                activation(word.deep_view()),
            ),
            final(self).words.deep_view() == old(self).words.deep_view(),
    {
        let call = make_call(word);
        self.stack.push(call);
        assert(self.stack.deep_view() =~= old(self).stack.deep_view().push(call.deep_view()));
    }

    /// The number of activations.
    pub fn len(&self) -> (r: usize)
        ensures
            r == self.stack.deep_view().len(),
    {
        self.stack.len()
    }

    /// The kind that the innermost activation asks for next.
    #[allow(non_snake_case)]
    pub fn getExpectation(&self) -> (r: Option<Expectation>)
        ensures
            r == (if wants_data(self.stack.deep_view()) {
                Some(self.stack.deep_view().last().expectations.last())
            } else {
                None
            }),
    {
        let n = self.stack.len();
        if n == 0 {
            return None;
        }
        assert(self.stack.deep_view().last() == self.stack[n - 1].deep_view());
        let top = &self.stack[n - 1];
        let m = top.expectations.len();
        if m == 0 {
            None
        } else {
            Some(top.expectations[m - 1])
        }
    }

    /// Defines the five built-in words.
    pub fn create_builtin_words(&mut self)
        ensures
            final(self).words.deep_view() == with_builtins(old(self).words.deep_view()),
            final(self).stack.deep_view() == old(self).stack.deep_view(),
    {
        proof {
            reveal_strlit("+");
            reveal_strlit("-");
            reveal_strlit("if");
            reveal_strlit("define");
            reveal_strlit("#");
        }
        let mut e: Vec<Expectation> = Vec::new();
        e.push(Expectation::Num);
        e.push(Expectation::Num);
        let addword = Word {
            name: String::from_str("+"),
            arity: 2,
            action: Action::Add,
            substitution: None,
            expectations: e,
        };
        assert(addword.name@ =~= builtin_add().name);
        assert(addword.expectations@ =~= builtin_add().expectations);
        insert_word(&mut self.words, addword);

        let mut e: Vec<Expectation> = Vec::new();
        e.push(Expectation::Num);
        e.push(Expectation::Num);
        let subword = Word {
            name: String::from_str("-"),
            arity: 2,
            action: Action::Subtract,
            substitution: None,
            expectations: e,
        };
        assert(subword.name@ =~= builtin_subtract().name);
        assert(subword.expectations@ =~= builtin_subtract().expectations);
        insert_word(&mut self.words, subword);

        let mut e: Vec<Expectation> = Vec::new();
        e.push(Expectation::Any);
        e.push(Expectation::Any);
        e.push(Expectation::Num);
        let ifword = Word {
            name: String::from_str("if"),
            arity: 3,
            action: Action::If,
            substitution: None,
            expectations: e,
        };
        assert(ifword.name@ =~= builtin_if().name);
        assert(ifword.expectations@ =~= builtin_if().expectations);
        insert_word(&mut self.words, ifword);

        let mut e: Vec<Expectation> = Vec::new();
        e.push(Expectation::Word);
        e.push(Expectation::Any);
        let defword = Word {
            name: String::from_str("define"),
            arity: 2,
            action: Action::Define,
            substitution: None,
            expectations: e,
        };
        assert(defword.name@ =~= builtin_define().name);
        assert(defword.expectations@ =~= builtin_define().expectations);
        insert_word(&mut self.words, defword);

        let mut e: Vec<Expectation> = Vec::new();
        e.push(Expectation::Num);
        e.push(Expectation::Stack);
        let defextract = Word {
            name: String::from_str("#"),
            arity: 2,
            action: Action::Extract,
            substitution: None,
            expectations: e,
        };
        assert(defextract.name@ =~= builtin_extract().name);
        assert(defextract.expectations@ =~= builtin_extract().expectations);
        insert_word(&mut self.words, defextract);
    }

    /// Offers an item to the innermost activation. Where that asks for
    /// an item of this kind next, it binds the item; otherwise the item
    /// is handed back.
    #[allow(non_snake_case)]
    pub fn pushLexItem(&mut self, lexeme: LexItem) -> (r: Option<LexItem>)
        ensures
            final(self).words.deep_view() == old(self).words.deep_view(),
            (takes(old(self).stack.deep_view(), lexeme.deep_view()) ==> {
                &&& r is None
                &&& final(self).stack.deep_view() == old(self).stack.deep_view().drop_last().push(
                    bound(old(self).stack.deep_view().last(), lexeme.deep_view()),
                )
            }),
            (!takes(old(self).stack.deep_view(), lexeme.deep_view()) ==> {
                &&& r.deep_view() == Some(lexeme.deep_view())
                &&& final(self).stack.deep_view() == old(self).stack.deep_view()
            }),
    {
        match self.getExpectation() {
            Some(e) => {
                if meets(e, &lexeme) {
                    let ghost before = self.stack.deep_view();
                    let mut top = self.stack.pop().unwrap();
                    assert(self.stack.deep_view() =~= before.drop_last());
                    assert(top.deep_view() == before.last());
                    top.bind(lexeme);
                    self.stack.push(top);
                    assert(self.stack.deep_view() =~= before.drop_last().push(top.deep_view()));
                    None
                } else {
                    Some(lexeme)
                }
            },
            None => Some(lexeme),
        }
    }

    /// Whether the innermost activation still asks for an argument.
    #[allow(non_snake_case)]
    pub fn wantsData(&self) -> (r: bool)
        ensures
            r == wants_data(self.stack.deep_view()),
    {
        self.getExpectation().is_some()
    }

    /// Applies the innermost activation and takes it off: its results
    /// are put on top of `result`. Returns whether there was an
    /// activation. Where an argument that the action needs is not bound,
    /// nothing is changed.
    pub fn top_apply(&mut self, result: &mut Vec<LexItem>) -> (r: Result<bool, EvalError>)
        ensures
            (old(self).stack.deep_view().len() == 0 ==> {
                &&& r == Ok::<bool, EvalError>(false)
                &&& final(self).stack.deep_view() == old(self).stack.deep_view()
                &&& final(self).words.deep_view() == old(self).words.deep_view()
                &&& final(result).deep_view() == old(result).deep_view()
            }),
            (old(self).stack.deep_view().len() > 0 ==> match applied(
                old(self).stack.deep_view().last(),
                old(self).words.deep_view(),
            ) {
                Some((results, words)) => {
                    &&& r == Ok::<bool, EvalError>(true)
                    &&& final(self).stack.deep_view() == old(self).stack.deep_view().drop_last()
                    &&& final(self).words.deep_view() == words
                    &&& final(result).deep_view() == old(result).deep_view() + results
                },
                None => {
                    &&& r == Err::<bool, EvalError>(EvalError::StackUnderflow)
                    &&& final(self).stack.deep_view() == old(self).stack.deep_view()
                    &&& final(self).words.deep_view() == old(self).words.deep_view()
                    &&& final(result).deep_view() == old(result).deep_view()
                },
            }),
    {
        let ghost before = self.stack.deep_view();
        let mut top = match self.stack.pop() {
            Some(call) => call,
            None => {
                return Ok(false);
            },
        };
        assert(self.stack.deep_view() =~= before.drop_last());
        assert(top.deep_view() == before.last());
        let done = match top.action {
            Action::Nothing => {
                action_none(&mut top);
                Ok(())
            },
            Action::Add => action_add(&mut top),
            Action::Subtract => action_subtract(&mut top),
            Action::If => action_if(&mut top),
            Action::Extract => action_extract(&mut top),
            Action::Define => {
                match (argument_value(&top.arguments, 1), argument_value(&top.arguments, 2)) {
                    (Some(first), Some(second)) => {
                        match make_definition(first, second) {
                            Some(word) => {
                                insert_word(&mut self.words, word);
                            },
                            None => {},
                        }
                        Ok(())
                    },
                    _ => Err(EvalError::StackUnderflow),
                }
            },
            Action::Substitution => {
                action_substitution(&mut top);
                Ok(())
            },
        };
        match done {
            Ok(()) => {
                let ghost made = top.results.deep_view();
                result.append(&mut top.results);
                assert(result.deep_view() =~= old(result).deep_view() + made);
                Ok(true)
            },
            Err(e) => {
                self.stack.push(top);
                assert(self.stack.deep_view() =~= before);
                Err(e)
            },
        }
    }
}

} // verus!
