use staplr::eval::{eval, parse_line};
use staplr::lexer::lex;
use staplr::session::Status;
use staplr::text::lexeme_text;
use staplr::value::LexItem;
use staplr::word::{find_word, insert_word, Action, Word};

fn marks_free(item: &LexItem) -> bool {
    match item {
        LexItem::OpenParen | LexItem::CloseParen | LexItem::Quote => false,
        LexItem::Parameter(p) => *p >= 1,
        LexItem::Stack(s) | LexItem::Lambda(s) => s.iter().all(marks_free),
        _ => true,
    }
}

#[test]
fn what_is_written_of_a_number_is_read_back() {
    for n in [0, 1, -1, 9, 10, -10, 12345, -98765, i64::MAX, i64::MIN, i64::MIN + 1] {
        let text = lexeme_text(&LexItem::Num(n));
        assert_eq!(lex(&text), vec![LexItem::Num(n)], "{}", text);
    }
}

#[test]
fn what_is_written_of_a_placeholder_is_read_back() {
    for p in [1, 2, 9, 10, 100, usize::MAX] {
        let text = lexeme_text(&LexItem::Parameter(p));
        assert_eq!(lex(&text), vec![LexItem::Parameter(p)], "{}", text);
    }
}

#[test]
fn grouping_leaves_no_bracket_and_no_quote_mark() {
    for line in [
        "",
        "'",
        "''' 1",
        "((((",
        "))))",
        "'( '( ') ') a '",
        "$0 $ $1 '$2 ($3 '[$0 $4",
        "a 'b (c 'd '[e 'f] g) ] h (i",
    ] {
        let values = parse_line(line);
        assert!(values.iter().all(marks_free), "{}", line);
    }
}

#[test]
fn reading_never_yields_the_placeholder_zero() {
    for line in ["$0", "$00 $000", "$ $", "'$0", "($0)", "$0x $1"] {
        let tokens = lex(line);
        assert!(!tokens.contains(&LexItem::Parameter(0)), "{}", line);
    }
}

#[test]
fn a_name_stands_for_the_word_that_was_defined_last() {
    let first = Word::make_word("w".to_string(), Action::Substitution, Some(LexItem::Num(1)));
    let second = Word::make_word("w".to_string(), Action::Substitution, Some(LexItem::Num(2)));
    let other = Word::make_word("v".to_string(), Action::Substitution, Some(LexItem::Num(3)));
    let mut words = vec![];
    insert_word(&mut words, other);
    insert_word(&mut words, first);
    insert_word(&mut words, second);
    let at = find_word(&words, &"w".to_string()).unwrap();
    assert_eq!(words[at].substitution, Some(LexItem::Num(2)));
    let at = find_word(&words, &"v".to_string()).unwrap();
    assert_eq!(words[at].substitution, Some(LexItem::Num(3)));
    assert_eq!(words.len(), 2);
}

#[test]
fn a_table_that_only_evaluation_has_written_never_lacks_an_argument() {
    let mut words = Vec::new();
    for line in [
        "+ 1",
        "define",
        "if if if",
        "# # '[1] 1",
        "x (+ $1 $2) x 1",
        "define (- $1) neg neg",
        "define 5 + + + +",
        "define '[a] if if 1 2 3",
        "y ($3) y y y y",
        ")",
        "- - - - - 1 2 3 4 5 6",
    ] {
        let mut out = Vec::new();
        let report = eval(line, &mut words, &mut out);
        assert_ne!(report.status, Status::StackUnderflow, "{}", line);
    }
}
