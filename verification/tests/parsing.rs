use staplr::eval::parse_line;
use staplr::parser::parse_stacks;
use staplr::value::LexItem;

fn word(s: &str) -> LexItem {
    LexItem::Word(s.to_string())
}

fn literal(s: &str) -> LexItem {
    LexItem::Literal(s.to_string())
}

#[test]
fn the_first_value_of_a_line_is_on_top() {
    assert_eq!(parse_line("3 4 +"), vec![word("+"), LexItem::Num(4), LexItem::Num(3)]);
}

#[test]
fn brackets_make_a_lambda() {
    assert_eq!(
        parse_line("(+ $1 2) x"),
        vec![
            word("x"),
            LexItem::Lambda(vec![LexItem::Num(2), LexItem::Parameter(1), word("+")]),
        ]
    );
    assert_eq!(parse_line("[a]"), vec![LexItem::Lambda(vec![word("a")])]);
    assert_eq!(parse_line("(a]"), vec![LexItem::Lambda(vec![word("a")])]);
}

#[test]
fn a_quote_before_a_bracket_makes_a_block() {
    assert_eq!(
        parse_line("'[1 2 3]"),
        vec![LexItem::Stack(vec![LexItem::Num(3), LexItem::Num(2), LexItem::Num(1)])]
    );
    assert_eq!(parse_line("'()"), vec![LexItem::Stack(vec![])]);
    assert_eq!(parse_line("()"), vec![LexItem::Lambda(vec![])]);
}

#[test]
fn groups_nest() {
    assert_eq!(
        parse_line("(a '[b (c)] d)"),
        vec![LexItem::Lambda(vec![
            word("d"),
            LexItem::Stack(vec![LexItem::Lambda(vec![word("c")]), word("b")]),
            word("a"),
        ])]
    );
}

#[test]
fn a_quote_before_a_number_or_a_name_makes_a_literal() {
    assert_eq!(parse_line("'abc"), vec![literal("abc")]);
    assert_eq!(parse_line("'12"), vec![literal("12")]);
    assert_eq!(parse_line("'-12"), vec![literal("-12")]);
    assert_eq!(parse_line("'007"), vec![literal("7")]);
    assert_eq!(parse_line("'a b"), vec![word("b"), literal("a")]);
    assert_eq!(parse_line("' ' a"), vec![literal("a")]);
}

#[test]
fn a_quote_before_anything_else_has_no_effect() {
    assert_eq!(parse_line("'$1 a"), vec![word("a"), LexItem::Parameter(1)]);
    assert_eq!(parse_line("a '"), vec![word("a")]);
    assert_eq!(parse_line("(a ') b"), vec![word("b"), LexItem::Lambda(vec![word("a")])]);
}

#[test]
fn the_quote_of_a_group_does_not_reach_into_it() {
    assert_eq!(
        parse_line("'(a) b"),
        vec![word("b"), LexItem::Stack(vec![word("a")])]
    );
    assert_eq!(
        parse_line("'((a) b) c"),
        vec![
            word("c"),
            LexItem::Stack(vec![word("b"), LexItem::Lambda(vec![word("a")])]),
        ]
    );
}

#[test]
fn a_closing_bracket_that_opens_nothing_ends_the_line() {
    assert_eq!(parse_line("1 2 ] 3 4"), vec![LexItem::Num(2), LexItem::Num(1)]);
    assert_eq!(parse_line(") 1"), vec![]);
    assert_eq!(parse_line("(1) ) (2)"), vec![LexItem::Lambda(vec![LexItem::Num(1)])]);
}

#[test]
fn an_open_group_ends_with_the_line() {
    assert_eq!(
        parse_line("1 (2 3"),
        vec![LexItem::Lambda(vec![LexItem::Num(3), LexItem::Num(2)]), LexItem::Num(1)]
    );
    assert_eq!(
        parse_line("'(1 (2"),
        vec![LexItem::Stack(vec![LexItem::Lambda(vec![LexItem::Num(2)]), LexItem::Num(1)])]
    );
}

#[test]
fn parse_stacks_puts_the_level_below_what_is_there() {
    let mut tokens = vec![
        LexItem::Num(9),
        LexItem::CloseParen,
        LexItem::Num(2),
        LexItem::Num(1),
    ];
    let mut parsed = vec![word("kept")];
    parse_stacks(&mut tokens, &mut parsed);
    assert_eq!(tokens, vec![LexItem::Num(9)]);
    assert_eq!(parsed, vec![LexItem::Num(2), LexItem::Num(1), word("kept")]);
}

#[test]
fn parse_stacks_of_nothing_changes_nothing() {
    let mut tokens: Vec<LexItem> = vec![];
    let mut parsed = vec![word("kept")];
    parse_stacks(&mut tokens, &mut parsed);
    assert_eq!(tokens, vec![]);
    assert_eq!(parsed, vec![word("kept")]);
}

#[test]
fn parse_stacks_keeps_groups_that_are_there_already() {
    let mut tokens = vec![
        LexItem::Stack(vec![LexItem::Quote]),
        LexItem::Quote,
        LexItem::Literal("t".to_string()),
        LexItem::Quote,
    ];
    let mut parsed = vec![];
    parse_stacks(&mut tokens, &mut parsed);
    assert_eq!(
        parsed,
        vec![LexItem::Stack(vec![LexItem::Quote]), LexItem::Literal("t".to_string())]
    );
}
