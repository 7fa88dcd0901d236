use staplr::eval::{eval, Report};
use staplr::session::Status;
use staplr::value::LexItem;
use staplr::word::Word;

fn run(words: &mut Vec<Word>, line: &str) -> (Vec<LexItem>, Report) {
    let mut out = Vec::new();
    let report = eval(line, words, &mut out);
    (out, report)
}

fn fresh(line: &str) -> Vec<LexItem> {
    let mut words = Vec::new();
    run(&mut words, line).0
}

#[test]
fn adds_two_numbers() {
    assert_eq!(fresh("+ 3 4"), vec![LexItem::Num(7)]);
}

#[test]
fn a_word_after_its_operands_finds_none() {
    let mut words = Vec::new();
    let (out, report) = run(&mut words, "3 4 +");
    assert_eq!(out, vec![LexItem::Num(3), LexItem::Num(4)]);
    assert_eq!(report.status, Status::Completed);
}

#[test]
fn subtracts_the_second_from_the_first() {
    assert_eq!(fresh("- 5 3"), vec![LexItem::Num(2)]);
    assert_eq!(fresh("- 3 5"), vec![LexItem::Num(-2)]);
}

#[test]
fn if_chooses_by_the_predicate() {
    assert_eq!(fresh("if 1 2 3"), vec![LexItem::Num(2)]);
    assert_eq!(fresh("if 0 2 3"), vec![LexItem::Num(3)]);
    assert_eq!(fresh("if -7 2 3"), vec![LexItem::Num(2)]);
}

#[test]
fn define_then_invoke() {
    let mut words = Vec::new();
    let (out, _) = run(&mut words, "double (+ $1 $1)");
    assert_eq!(out, vec![]);
    let (out, _) = run(&mut words, "double 5");
    assert_eq!(out, vec![LexItem::Num(10)]);
}

#[test]
fn define_and_invoke_in_one_line() {
    assert_eq!(fresh("double (+ $1 $1) double 5"), vec![LexItem::Num(10)]);
}

#[test]
fn explicit_define_takes_the_value_first() {
    let mut words = Vec::new();
    run(&mut words, "define 7 seven");
    assert_eq!(run(&mut words, "seven").0, vec![LexItem::Num(7)]);
}

#[test]
fn a_later_definition_shadows_an_earlier_one() {
    let mut words = Vec::new();
    run(&mut words, "x 1");
    assert_eq!(run(&mut words, "x").0, vec![LexItem::Num(1)]);
    run(&mut words, "define 2 x");
    assert_eq!(run(&mut words, "x").0, vec![LexItem::Num(2)]);
    run(&mut words, "define (+ 1 $1) x");
    assert_eq!(run(&mut words, "x 4").0, vec![LexItem::Num(5)]);
}

#[test]
fn extract_counts_from_the_top_and_from_the_bottom() {
    assert_eq!(fresh("# '[10 20 30] 1"), vec![LexItem::Num(10)]);
    assert_eq!(fresh("# '[10 20 30] 3"), vec![LexItem::Num(30)]);
    assert_eq!(fresh("# '[10 20 30] -1"), vec![LexItem::Num(30)]);
    assert_eq!(fresh("# '[10 20 30] -3"), vec![LexItem::Num(10)]);
    assert_eq!(fresh("# '[10 20 30] 0"), vec![]);
    assert_eq!(fresh("# '[10 20 30] 4"), vec![]);
    assert_eq!(fresh("# '[10 20 30] -4"), vec![]);
}

#[test]
fn the_same_line_gives_the_same_output() {
    assert_eq!(fresh("+ 1 - 10 4"), fresh("+ 1 - 10 4"));
    let mut words = Vec::new();
    let first = run(&mut words, "+ 1 - 10 4").0;
    let second = run(&mut words, "+ 1 - 10 4").0;
    assert_eq!(first, vec![LexItem::Num(7)]);
    assert_eq!(first, second);
}

#[test]
fn a_word_that_invokes_itself_stops_at_the_cap() {
    let mut words = Vec::new();
    let (out, report) = run(&mut words, "forever (forever) 1 forever 2");
    assert_eq!(report.status, Status::IterationCapExceeded);
    assert_eq!(out, vec![LexItem::Num(1)]);
}

fn word(s: &str) -> LexItem {
    LexItem::Word(s.to_string())
}

#[test]
fn an_empty_line_leaves_nothing() {
    let mut words = Vec::new();
    let (out, report) = run(&mut words, "");
    assert_eq!(out, vec![]);
    assert_eq!(report, Report { status: Status::Completed, unbound: 0 });
    assert_eq!(words.len(), 5);
}

#[test]
fn a_line_of_one_character_is_evaluated() {
    assert_eq!(fresh("5"), vec![LexItem::Num(5)]);
}

#[test]
fn the_output_is_put_after_what_is_there() {
    let mut words = Vec::new();
    let mut out = vec![word("kept")];
    eval("1 2", &mut words, &mut out);
    assert_eq!(out, vec![word("kept"), LexItem::Num(1), LexItem::Num(2)]);
}

#[test]
fn words_nest() {
    assert_eq!(fresh("+ + 1 2 3"), vec![LexItem::Num(6)]);
    assert_eq!(fresh("+ 1 + 2 3"), vec![LexItem::Num(6)]);
    assert_eq!(fresh("- 10 - 4 1"), vec![LexItem::Num(7)]);
    assert_eq!(fresh("if + 1 -1 10 20"), vec![LexItem::Num(20)]);
}

#[test]
fn a_word_in_the_place_of_a_datum_is_invoked() {
    assert_eq!(fresh("if 1 + 1 1 5"), vec![LexItem::Num(2)]);
}

#[test]
fn a_lambda_that_if_chooses_is_run() {
    assert_eq!(fresh("if 1 (+ 1 2) (+ 3 4)"), vec![LexItem::Num(3)]);
    assert_eq!(fresh("if 0 (+ 1 2) (+ 3 4)"), vec![LexItem::Num(7)]);
}

#[test]
fn a_block_that_nothing_asks_for_goes_to_the_output() {
    let block = LexItem::Stack(vec![word("x")]);
    assert_eq!(fresh("+ '[x] 1 2"), vec![block, LexItem::Num(3)]);
}

#[test]
fn a_literal_is_data() {
    assert_eq!(fresh("'abc"), vec![LexItem::Literal("abc".to_string())]);
    assert_eq!(fresh("+ 'abc 1 2"), vec![LexItem::Literal("abc".to_string()), LexItem::Num(3)]);
    assert_eq!(fresh("if 1 'yes 'no"), vec![LexItem::Literal("yes".to_string())]);
    assert_eq!(fresh("x 'abc x x"), vec![
        LexItem::Literal("abc".to_string()),
        LexItem::Literal("abc".to_string()),
    ]);
}

#[test]
fn a_number_that_is_not_asked_for_waits_for_the_activation() {
    assert_eq!(fresh("# 5 '[10 20] 2"), vec![LexItem::Num(20), LexItem::Num(5)]);
    assert_eq!(
        fresh("# 5 6 '[10 20] 1"),
        vec![LexItem::Num(10), LexItem::Num(6), LexItem::Num(5)]
    );
}

#[test]
fn a_number_that_waits_is_lost_with_an_activation_that_is_never_applied() {
    let mut words = Vec::new();
    let (out, report) = run(&mut words, "# 5");
    assert_eq!(out, vec![]);
    assert_eq!(report.status, Status::Completed);
}

#[test]
fn a_placeholder_without_an_argument_goes_to_the_output() {
    let mut words = Vec::new();
    let (out, report) = run(&mut words, "$1 7 $2");
    assert_eq!(out, vec![LexItem::Parameter(1), LexItem::Num(7), LexItem::Parameter(2)]);
    assert_eq!(report, Report { status: Status::Completed, unbound: 2 });
}

#[test]
fn a_placeholder_stands_for_an_argument_of_the_innermost_activation() {
    let mut words = Vec::new();
    let (out, report) = run(&mut words, "+ 5 $1");
    assert_eq!(out, vec![LexItem::Num(10)]);
    assert_eq!(report.unbound, 0);
    let (out, report) = run(&mut words, "+ 5 $2");
    assert_eq!(out, vec![LexItem::Parameter(2)]);
    assert_eq!(report.unbound, 1);
}

#[test]
fn an_unknown_name_defines_itself() {
    assert_eq!(fresh("x 5 x"), vec![LexItem::Num(5)]);
    assert_eq!(fresh("x (1 2) x"), vec![LexItem::Num(1), LexItem::Num(2)]);
    assert_eq!(fresh("x + 1 2 x x"), vec![LexItem::Num(3), LexItem::Num(3)]);
}

#[test]
fn a_block_as_a_word_yields_itself() {
    let block = LexItem::Stack(vec![LexItem::Num(2), LexItem::Num(1)]);
    assert_eq!(fresh("b '[1 2] b"), vec![block.clone()]);
    assert_eq!(fresh("b '[1 2] # b 1"), vec![LexItem::Num(1)]);
}

#[test]
fn a_lambda_on_its_own_is_run() {
    assert_eq!(fresh("(1 2 3)"), vec![LexItem::Num(1), LexItem::Num(2), LexItem::Num(3)]);
    assert_eq!(fresh("(+ $1 1) 5"), vec![LexItem::Num(6)]);
    assert_eq!(fresh("(- $2 $1) 1 10"), vec![LexItem::Num(9)]);
}

#[test]
fn the_largest_placeholder_says_how_many_arguments_are_taken() {
    assert_eq!(fresh("($3) 7 8 9"), vec![LexItem::Num(9)]);
    assert_eq!(fresh("($3) 7 8"), vec![]);
    assert_eq!(fresh("third ($3) third 'a 'b 'c 'd"), vec![
        LexItem::Literal("c".to_string()),
        LexItem::Literal("d".to_string()),
    ]);
}

#[test]
fn explicit_define_with_a_lambda() {
    assert_eq!(fresh("define (+ $1 $1) double double 4"), vec![LexItem::Num(8)]);
}

#[test]
fn a_built_in_word_can_be_shadowed_for_the_rest_of_the_line() {
    let mut words = Vec::new();
    assert_eq!(run(&mut words, "define 5 + +").0, vec![LexItem::Num(5)]);
    assert_eq!(run(&mut words, "+ 1 2").0, vec![LexItem::Num(3)]);
}

#[test]
fn a_placeholder_two_levels_down_is_left_as_it_is() {
    let nested = LexItem::Stack(vec![LexItem::Lambda(vec![LexItem::Parameter(1)])]);
    assert_eq!(fresh("f ('[($1)] $1) f 5"), vec![nested, LexItem::Num(5)]);
}

#[test]
fn a_placeholder_one_level_down_is_left_as_it_is() {
    let block = LexItem::Stack(vec![LexItem::Parameter(1)]);
    assert_eq!(fresh("f ('[$1] $1) f 5"), vec![block, LexItem::Num(5)]);
}

#[test]
fn the_words_of_a_line_stay_for_the_next() {
    let mut words = Vec::new();
    run(&mut words, "inc (+ 1 $1) dec (- $1 1)");
    assert_eq!(words.len(), 7);
    assert_eq!(run(&mut words, "inc inc dec 10").0, vec![LexItem::Num(11)]);
    assert_eq!(words.len(), 7);
}

#[test]
fn arithmetic_leaves_the_table_alone() {
    let mut words = Vec::new();
    run(&mut words, "+ 1 2");
    let mut again = Vec::new();
    run(&mut again, "");
    assert_eq!(words, again);
    run(&mut words, "- 5 + 1 2 + 3");
    assert_eq!(words, again);
}

#[test]
fn a_hundred_cycles_and_not_one_more() {
    let ninety_nine = "1 ".repeat(99);
    let mut words = Vec::new();
    let (out, report) = run(&mut words, &ninety_nine);
    assert_eq!(out.len(), 99);
    assert_eq!(report.status, Status::Completed);
    let hundred = "1 ".repeat(100);
    let (out, report) = run(&mut words, &hundred);
    assert_eq!(out.len(), 100);
    assert_eq!(report.status, Status::IterationCapExceeded);
    let more = "1 ".repeat(150);
    let (out, report) = run(&mut words, &more);
    assert_eq!(out.len(), 100);
    assert_eq!(report.status, Status::IterationCapExceeded);
}

#[test]
fn the_cap_keeps_the_output_and_the_words_so_far() {
    let mut words = Vec::new();
    let (out, report) = run(&mut words, "1 kept 2 3 forever (forever) forever 4");
    assert_eq!(report.status, Status::IterationCapExceeded);
    assert_eq!(out, vec![LexItem::Num(1), LexItem::Num(3)]);
    assert_eq!(run(&mut words, "kept").0, vec![LexItem::Num(2)]);
}

#[test]
fn a_word_made_by_hand_that_lacks_its_arguments_is_a_stack_underflow() {
    let mut words = vec![Word {
        name: "bad".to_string(),
        arity: 0,
        action: staplr::word::Action::Add,
        substitution: None,
        expectations: vec![],
    }];
    let (out, report) = run(&mut words, "1 bad 2");
    assert_eq!(report.status, Status::StackUnderflow);
    assert_eq!(out, vec![LexItem::Num(1)]);
    assert_eq!(words.len(), 6);
    assert_eq!(words[0].name, "bad");
    assert_eq!(run(&mut words, "+ 1 2").0, vec![LexItem::Num(3)]);
}

#[test]
fn sums_wrap_round() {
    assert_eq!(fresh("+ 9223372036854775807 1"), vec![LexItem::Num(i64::MIN)]);
    assert_eq!(fresh("- -9223372036854775808 1"), vec![LexItem::Num(i64::MAX)]);
}
