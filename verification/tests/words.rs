use staplr::callstack::CallStack;
use staplr::value::{Expectation, LexItem};
use staplr::word::{find_word, insert_word, Action, Word};

fn word(s: &str) -> LexItem {
    LexItem::Word(s.to_string())
}

fn constant(name: &str, n: i64) -> Word {
    Word::make_word(name.to_string(), Action::Substitution, Some(LexItem::Num(n)))
}

#[test]
fn a_word_of_a_lambda_takes_what_its_placeholders_say() {
    let template = LexItem::Lambda(vec![LexItem::Parameter(1), LexItem::Parameter(2), word("+")]);
    let w = Word::make_word("sum".to_string(), Action::Substitution, Some(template.clone()));
    assert_eq!(
        w,
        Word {
            name: "sum".to_string(),
            arity: 2,
            action: Action::Substitution,
            substitution: Some(template),
            expectations: vec![Expectation::NumStaLit, Expectation::NumStaLit],
        }
    );
}

#[test]
fn a_word_of_anything_else_takes_nothing() {
    for template in [
        LexItem::Num(5),
        LexItem::Literal("t".to_string()),
        LexItem::Stack(vec![LexItem::Parameter(4)]),
        LexItem::Lambda(vec![word("a")]),
    ] {
        let w = Word::make_word("c".to_string(), Action::Substitution, Some(template.clone()));
        assert_eq!(w.arity, 0);
        assert_eq!(w.expectations, vec![]);
        assert_eq!(w.substitution, Some(template));
    }
    let bare = Word::make_word("n".to_string(), Action::Nothing, None);
    assert_eq!(
        bare,
        Word {
            name: "n".to_string(),
            arity: 0,
            action: Action::Nothing,
            substitution: None,
            expectations: vec![],
        }
    );
}

#[test]
fn setup_expectations_follows_the_template() {
    let mut w = Word {
        name: "w".to_string(),
        arity: 7,
        action: Action::Substitution,
        substitution: Some(LexItem::Lambda(vec![LexItem::Parameter(2)])),
        expectations: vec![Expectation::Num],
    };
    w.setup_expectations();
    assert_eq!(w.expectations, vec![Expectation::NumStaLit, Expectation::NumStaLit]);
    assert_eq!(w.arity, 7);
    assert_eq!(w.name, "w");
}

#[test]
fn setup_expectations_without_a_template_changes_nothing() {
    let mut w = Word {
        name: "+".to_string(),
        arity: 2,
        action: Action::Add,
        substitution: None,
        expectations: vec![Expectation::Num, Expectation::Num],
    };
    w.setup_expectations();
    assert_eq!(w.expectations, vec![Expectation::Num, Expectation::Num]);
}

#[test]
fn a_name_stands_for_the_first_word_that_has_it() {
    let words = vec![constant("a", 1), constant("b", 2), constant("a", 3)];
    assert_eq!(find_word(&words, &"a".to_string()), Some(0));
    assert_eq!(find_word(&words, &"b".to_string()), Some(1));
    assert_eq!(find_word(&words, &"c".to_string()), None);
    assert_eq!(find_word(&vec![], &"a".to_string()), None);
}

#[test]
fn a_new_name_goes_to_the_end_of_the_table() {
    let mut words = vec![constant("a", 1)];
    insert_word(&mut words, constant("b", 2));
    assert_eq!(words, vec![constant("a", 1), constant("b", 2)]);
}

#[test]
fn a_taken_name_gets_the_new_word_in_place() {
    let mut words = vec![constant("a", 1), constant("b", 2), constant("c", 3)];
    insert_word(&mut words, constant("b", 20));
    assert_eq!(words, vec![constant("a", 1), constant("b", 20), constant("c", 3)]);
    insert_word(&mut words, constant("b", 200));
    assert_eq!(words, vec![constant("a", 1), constant("b", 200), constant("c", 3)]);
}

fn builtins() -> Vec<Word> {
    vec![
        Word {
            name: "+".to_string(),
            arity: 2,
            action: Action::Add,
            substitution: None,
            expectations: vec![Expectation::Num, Expectation::Num],
        },
        Word {
            name: "-".to_string(),
            arity: 2,
            action: Action::Subtract,
            substitution: None,
            expectations: vec![Expectation::Num, Expectation::Num],
        },
        Word {
            name: "if".to_string(),
            arity: 3,
            action: Action::If,
            substitution: None,
            expectations: vec![Expectation::Any, Expectation::Any, Expectation::Num],
        },
        Word {
            name: "define".to_string(),
            arity: 2,
            action: Action::Define,
            substitution: None,
            expectations: vec![Expectation::Word, Expectation::Any],
        },
        Word {
            name: "#".to_string(),
            arity: 2,
            action: Action::Extract,
            substitution: None,
            expectations: vec![Expectation::Num, Expectation::Stack],
        },
    ]
}

#[test]
fn the_five_built_in_words() {
    let mut cs = CallStack { stack: vec![], words: vec![] };
    cs.create_builtin_words();
    assert_eq!(cs.words, builtins());
    assert_eq!(cs.stack, vec![]);
}

#[test]
fn the_built_in_words_take_the_place_of_words_of_their_names() {
    let mut cs = CallStack {
        stack: vec![],
        words: vec![constant("if", 1), constant("mine", 2), constant("+", 3)],
    };
    cs.create_builtin_words();
    let b = builtins();
    assert_eq!(cs.words.len(), 6);
    assert_eq!(cs.words[0], b[2]);
    assert_eq!(cs.words[1], constant("mine", 2));
    assert_eq!(cs.words[2], b[0]);
    assert_eq!(cs.words[3], b[1]);
    assert_eq!(cs.words[4], b[3]);
    assert_eq!(cs.words[5], b[4]);
}

#[test]
fn the_built_in_words_twice_are_the_built_in_words() {
    let mut cs = CallStack { stack: vec![], words: vec![constant("mine", 2)] };
    cs.create_builtin_words();
    let once = cs.words.len();
    cs.create_builtin_words();
    assert_eq!(cs.words.len(), once);
    assert_eq!(cs.words[0], constant("mine", 2));
    assert_eq!(cs.words[1..], builtins()[..]);
}
