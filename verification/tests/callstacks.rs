use staplr::call::{Call, EvalError, Parameter};
use staplr::callstack::{implicit_call, CallStack};
use staplr::value::{Expectation, LexItem};
use staplr::word::{Action, Word};

fn word(s: &str) -> LexItem {
    LexItem::Word(s.to_string())
}

fn with_builtins() -> CallStack {
    let mut cs = CallStack { stack: vec![], words: vec![] };
    cs.create_builtin_words();
    cs
}

fn define_call(name: &str) -> Call {
    Call {
        name: "define".to_string(),
        action: Action::Define,
        arity: 2,
        arguments: vec![Parameter { name: 1, value: word(name) }],
        expectations: vec![Expectation::Any],
        results: vec![],
        substitution: None,
    }
}

#[test]
fn a_known_name_pushes_the_activation_of_its_word() {
    let mut cs = with_builtins();
    cs.pushSearchWord("-".to_string());
    assert_eq!(cs.len(), 1);
    assert_eq!(
        cs.stack[0],
        Call {
            name: "-".to_string(),
            action: Action::Subtract,
            arity: 2,
            arguments: vec![],
            expectations: vec![Expectation::Num, Expectation::Num],
            results: vec![],
            substitution: None,
        }
    );
    assert_eq!(cs.words.len(), 5);
}

#[test]
fn an_unknown_name_pushes_its_own_definition() {
    let mut cs = with_builtins();
    cs.pushSearchWord("fresh".to_string());
    assert_eq!(cs.stack, vec![define_call("fresh")]);
    assert_eq!(implicit_call("fresh".to_string()), define_call("fresh"));
    assert_eq!(cs.words.len(), 5);
}

#[test]
fn an_unknown_name_is_defined_without_the_table() {
    let mut cs = CallStack { stack: vec![], words: vec![] };
    cs.pushSearchWord("fresh".to_string());
    assert_eq!(cs.stack, vec![define_call("fresh")]);
}

#[test]
fn push_word_call_pushes_the_activation() {
    let mut cs = CallStack { stack: vec![], words: vec![] };
    let w = Word::make_word(
        "lambda".to_string(),
        Action::Substitution,
        Some(LexItem::Lambda(vec![LexItem::Parameter(2)])),
    );
    cs.pushWordCall(&w);
    cs.pushWordCall(&w);
    assert_eq!(cs.len(), 2);
    assert_eq!(cs.stack[1].arity, 2);
    assert_eq!(cs.stack[1].expectations, vec![Expectation::NumStaLit, Expectation::NumStaLit]);
    assert_eq!(cs.stack[1].substitution, Some(LexItem::Lambda(vec![LexItem::Parameter(2)])));
    assert_eq!(cs.stack[0], cs.stack[1]);
}

#[test]
fn the_expectation_that_is_due_is_the_last() {
    let mut cs = with_builtins();
    assert_eq!(cs.getExpectation(), None);
    assert!(!cs.wantsData());
    cs.pushSearchWord("if".to_string());
    assert_eq!(cs.getExpectation(), Some(Expectation::Num));
    assert!(cs.wantsData());
    cs.pushSearchWord("define".to_string());
    assert_eq!(cs.getExpectation(), Some(Expectation::Any));
    cs.pushSearchWord("#".to_string());
    assert_eq!(cs.getExpectation(), Some(Expectation::Stack));
}

#[test]
fn an_item_of_the_kind_that_is_due_is_bound() {
    let mut cs = with_builtins();
    cs.pushSearchWord("if".to_string());
    assert_eq!(cs.pushLexItem(LexItem::Num(1)), None);
    assert_eq!(cs.getExpectation(), Some(Expectation::Any));
    assert_eq!(cs.pushLexItem(LexItem::Lambda(vec![])), None);
    assert_eq!(cs.pushLexItem(LexItem::Literal("t".to_string())), None);
    assert!(!cs.wantsData());
    assert_eq!(
        cs.stack[0].arguments,
        vec![
            Parameter { name: 1, value: LexItem::Num(1) },
            Parameter { name: 2, value: LexItem::Lambda(vec![]) },
            Parameter { name: 3, value: LexItem::Literal("t".to_string()) },
        ]
    );
}

#[test]
fn an_item_of_another_kind_is_handed_back() {
    let mut cs = with_builtins();
    assert_eq!(cs.pushLexItem(LexItem::Num(1)), Some(LexItem::Num(1)));
    cs.pushSearchWord("if".to_string());
    assert_eq!(cs.pushLexItem(word("x")), Some(word("x")));
    assert_eq!(cs.pushLexItem(LexItem::Stack(vec![])), Some(LexItem::Stack(vec![])));
    assert_eq!(cs.stack[0].arguments, vec![]);
    assert_eq!(cs.pushLexItem(LexItem::Num(0)), None);
    assert_eq!(cs.pushLexItem(word("x")), Some(word("x")));
    assert_eq!(cs.pushLexItem(LexItem::Parameter(1)), Some(LexItem::Parameter(1)));
    assert_eq!(cs.stack[0].arguments.len(), 1);
}

#[test]
fn an_activation_that_asks_for_nothing_binds_nothing() {
    let mut cs = with_builtins();
    cs.pushSearchWord("+".to_string());
    assert_eq!(cs.pushLexItem(LexItem::Num(1)), None);
    assert_eq!(cs.pushLexItem(LexItem::Num(2)), None);
    assert_eq!(cs.pushLexItem(LexItem::Num(3)), Some(LexItem::Num(3)));
    assert_eq!(cs.stack[0].arguments.len(), 2);
}

#[test]
fn only_the_innermost_activation_is_offered_to() {
    let mut cs = with_builtins();
    cs.pushSearchWord("+".to_string());
    cs.pushSearchWord("#".to_string());
    assert_eq!(cs.pushLexItem(LexItem::Num(1)), Some(LexItem::Num(1)));
    assert_eq!(cs.stack[0].arguments, vec![]);
    assert_eq!(cs.stack[1].arguments, vec![]);
}

#[test]
fn top_apply_of_no_activation() {
    let mut cs = with_builtins();
    let mut program = vec![LexItem::Num(1)];
    assert_eq!(cs.top_apply(&mut program), Ok(false));
    assert_eq!(program, vec![LexItem::Num(1)]);
}

#[test]
fn top_apply_puts_the_results_on_the_program() {
    let mut cs = with_builtins();
    cs.pushSearchWord("#".to_string());
    cs.pushSearchWord("-".to_string());
    cs.pushLexItem(LexItem::Num(9));
    cs.pushLexItem(LexItem::Num(4));
    let mut program = vec![word("below")];
    assert_eq!(cs.top_apply(&mut program), Ok(true));
    assert_eq!(program, vec![word("below"), LexItem::Num(5)]);
    assert_eq!(cs.len(), 1);
    assert_eq!(cs.stack[0].name, "#");
}

#[test]
fn top_apply_of_define_writes_the_table() {
    let mut cs = with_builtins();
    cs.pushSearchWord("define".to_string());
    cs.pushLexItem(LexItem::Num(7));
    cs.pushLexItem(word("seven"));
    let mut program = vec![];
    assert_eq!(cs.top_apply(&mut program), Ok(true));
    assert_eq!(program, vec![]);
    assert_eq!(cs.len(), 0);
    assert_eq!(cs.words.len(), 6);
    assert_eq!(
        cs.words[5],
        Word::make_word("seven".to_string(), Action::Substitution, Some(LexItem::Num(7)))
    );
}

#[test]
fn top_apply_of_an_implicit_definition() {
    let mut cs = with_builtins();
    cs.pushSearchWord("twice".to_string());
    let template = LexItem::Lambda(vec![LexItem::Parameter(1), LexItem::Parameter(1), word("+")]);
    assert_eq!(cs.pushLexItem(template.clone()), None);
    let mut program = vec![];
    assert_eq!(cs.top_apply(&mut program), Ok(true));
    assert_eq!(
        cs.words[5],
        Word {
            name: "twice".to_string(),
            arity: 1,
            action: Action::Substitution,
            substitution: Some(template),
            expectations: vec![Expectation::NumStaLit],
        }
    );
}

#[test]
fn top_apply_that_lacks_an_argument_changes_nothing() {
    let mut cs = with_builtins();
    cs.pushSearchWord("+".to_string());
    cs.pushLexItem(LexItem::Num(9));
    let before = CallStack {
        stack: vec![Call {
            name: "+".to_string(),
            action: Action::Add,
            arity: 2,
            arguments: vec![Parameter { name: 1, value: LexItem::Num(9) }],
            expectations: vec![Expectation::Num],
            results: vec![],
            substitution: None,
        }],
        words: with_builtins().words,
    };
    assert_eq!(cs, before);
    let mut program = vec![word("below")];
    assert_eq!(cs.top_apply(&mut program), Err(EvalError::StackUnderflow));
    assert_eq!(cs, before);
    assert_eq!(program, vec![word("below")]);
    cs.pushSearchWord("define".to_string());
    assert_eq!(cs.top_apply(&mut program), Err(EvalError::StackUnderflow));
    assert_eq!(cs.len(), 2);
    assert_eq!(cs.words.len(), 5);
}

#[test]
fn top_apply_of_a_word_that_does_nothing() {
    let mut cs = CallStack { stack: vec![], words: vec![] };
    let w = Word::make_word("idle".to_string(), Action::Nothing, None);
    cs.pushWordCall(&w);
    let mut program = vec![LexItem::Num(1)];
    assert_eq!(cs.top_apply(&mut program), Ok(true));
    assert_eq!(program, vec![LexItem::Num(1)]);
    assert_eq!(cs.len(), 0);
}

#[test]
fn top_apply_of_a_template_hands_on_what_it_yields_and_no_more() {
    let mut cs = CallStack { stack: vec![], words: vec![] };
    let w = Word::make_word(
        "t".to_string(),
        Action::Substitution,
        Some(LexItem::Lambda(vec![LexItem::Num(2), LexItem::Num(1)])),
    );
    cs.pushWordCall(&w);
    cs.stack[0].results = vec![LexItem::Num(99)];
    let mut program = vec![word("below")];
    assert_eq!(cs.top_apply(&mut program), Ok(true));
    assert_eq!(program, vec![word("below"), LexItem::Num(2), LexItem::Num(1)]);
}

#[test]
fn top_apply_of_define_hands_on_the_numbers_that_waited() {
    let mut cs = with_builtins();
    cs.pushSearchWord("define".to_string());
    cs.pushLexItem(LexItem::Num(7));
    cs.stack[0].results = vec![LexItem::Num(40), LexItem::Num(41)];
    cs.pushLexItem(word("seven"));
    let mut program = vec![word("below")];
    assert_eq!(cs.top_apply(&mut program), Ok(true));
    assert_eq!(program, vec![word("below"), LexItem::Num(40), LexItem::Num(41)]);
}

#[test]
fn no_name_occurs_twice_in_the_table() {
    let mut cs = with_builtins();
    for (value, name) in [(1, "a"), (2, "b"), (3, "a"), (4, "+"), (5, "b"), (6, "define")] {
        cs.pushSearchWord("define".to_string());
        cs.pushLexItem(LexItem::Num(value));
        cs.pushLexItem(word(name));
        let mut program = vec![];
        assert_eq!(cs.top_apply(&mut program), Ok(true));
    }
    cs.create_builtin_words();
    assert_eq!(cs.words.len(), 7);
    for i in 0..cs.words.len() {
        for j in 0..i {
            assert_ne!(cs.words[i].name, cs.words[j].name);
        }
    }
}
