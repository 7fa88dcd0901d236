//! What holds of every evaluation.

use crate::call::{
    activation, bound, difference_results, first_bound, operand, sum_results, template_results,
    Activation,
};
use crate::lexer::{
    digit_run, digit_value, digits_value, is_digit, lex_at, lex_from, number_at, parameter_at,
    tokens,
};
use crate::parser::parse_level;
use crate::session::{
    applied, apply_top, dispatched, drained, evaluation, invocation, opening, ran, takes,
    wants_data, Session, Status,
};
use crate::text::{decimal, decimal_nat, digit_char, text_of};
use crate::value::{max_parameter, Expectation, Value};
use crate::word::{
    builtin_add, builtin_define, builtin_extract, builtin_if, builtin_subtract, defined,
    definition, lemma_defined_lookup, lemma_with_builtins_twice, lookup, with_builtins, Action,
    Definition,
};
use vstd::prelude::*;

verus! {

/// A name that has been defined twice invokes the later word.
pub proof fn lemma_redefined_word_is_invoked(
    words: Seq<Definition>,
    first: Definition,
    second: Definition,
)
    requires
        first.name == second.name,
    ensures
        invocation(defined(defined(words, first), second), first.name) == activation(second),
{
    crate::word::lemma_redefinition_shadows(words, first, second);
}

/// The word that does nothing but invoke itself.
pub open spec fn self_invoking(name: Seq<char>) -> Definition {
    definition(name, Action::Substitution, Some(Value::Lambda(seq![Value::Identifier(name)])))
}

/// A word that invokes itself is never done: where the program begins
/// with its name and no activation waits, the evaluation ends by the cap
/// on its cycles, however large that is, and with the output and the
/// table that it began with.
pub proof fn lemma_self_invocation_ends_at_cap(s: Session, name: Seq<char>, cycles: nat)
    requires
        s.stack.len() == 0,
        s.pending.len() > 0,
        s.pending.last() == Value::Identifier(name),
        lookup(s.words, name) == Some(self_invoking(name)),
    ensures
        ran(s, cycles).1 == Status::IterationCapExceeded,
        ran(s, cycles).0.output == s.output,
        ran(s, cycles).0.words == s.words,
    decreases cycles,
{
    if cycles >= 2 {
        let word = self_invoking(name);
        let call = activation(word);
        assert(max_parameter(seq![Value::Identifier(name)]) == 0) by {
            reveal_with_fuel(max_parameter, 2);
        }
        assert(call.expectations.len() == 0);
        assert(template_results(call) == seq![Value::Identifier(name)]);
        let b = dispatched(s);
        assert(b.stack =~= seq![call]);
        assert(b.stack.last() == call);
        let next = apply_top(b)->0;
        assert(next.stack =~= Seq::empty());
        assert(next.pending =~= s.pending);
        assert(drained(b) == (next, true)) by {
            reveal_with_fuel(drained, 3);
        }
        assert(ran(s, cycles) == ran(b, (cycles - 1) as nat));
        assert(ran(b, (cycles - 1) as nat) == ran(dispatched(next), (cycles - 2) as nat));
        assert(ran(next, (cycles - 1) as nat) == ran(dispatched(next), (cycles - 2) as nat));
        lemma_self_invocation_ends_at_cap(next, name, (cycles - 1) as nat);
    } else if cycles == 1 {
        assert(ran(s, cycles) == ran(dispatched(s), 0));
    }
}

/// A token of plain arithmetic: a number, `+` or `-`.
pub open spec fn is_arithmetic(v: Value) -> bool {
    v is Number || v == Value::Identifier(seq!['+']) || v == Value::Identifier(seq!['-'])
}

/// A sequence of tokens of plain arithmetic.
pub open spec fn arithmetic(items: Seq<Value>) -> bool {
    forall|i: int| 0 <= i < items.len() ==> is_arithmetic(#[trigger] items[i])
}

/// An activation of `+` or `-` on the way: what it has bound are
/// numbers, named in their order, and what it still asks for are
/// numbers.
pub open spec fn summing(a: Activation) -> bool {
    &&& a.action == Action::Add || a.action == Action::Subtract
    &&& a.arguments.len() + a.expectations.len() == 2
    &&& forall|i: int|
        0 <= i < a.arguments.len() ==> (#[trigger] a.arguments[i]).name == i + 1
            && a.arguments[i].value is Number
    &&& forall|i: int|
        0 <= i < a.expectations.len() ==> #[trigger] a.expectations[i] == Expectation::Num
    &&& arithmetic(a.results)
}

/// A session of plain arithmetic: its program holds numbers, `+` and `-`
/// only, its activations are those of `+` and `-`, and the two names
/// stand for the built-in words.
pub open spec fn calm(s: Session) -> bool {
    &&& arithmetic(s.pending)
    &&& forall|i: int| 0 <= i < s.stack.len() ==> summing(#[trigger] s.stack[i])
    &&& lookup(s.words, seq!['+']) == Some(builtin_add())
    &&& lookup(s.words, seq!['-']) == Some(builtin_subtract())
}

/// The first half of a cycle keeps a session of plain arithmetic one,
/// does not fail, and leaves the table as it is.
pub proof fn lemma_drained_calm(s: Session)
    requires
        calm(s),
    ensures
        calm(drained(s).0),
        drained(s).1,
        drained(s).0.words == s.words,
        drained(s).0.stack.len() == 0 || wants_data(drained(s).0.stack),
    decreases s.stack.len(),
{
    if !(s.stack.len() == 0 || wants_data(s.stack)) {
        let a = s.stack.last();
        assert(summing(a));
        assert(a == s.stack[s.stack.len() - 1]);
        assert(a.arguments.len() == 2);
        assert(a.arguments[0].name == 1 && a.arguments[0].value is Number);
        assert(a.arguments[1].name == 2 && a.arguments[1].value is Number);
        assert(operand(a.arguments, 1) == Some(a.arguments[0].value)) by {
            reveal_with_fuel(first_bound, 2);
        }
        assert(operand(a.arguments, 2) == Some(a.arguments[1].value)) by {
            reveal_with_fuel(first_bound, 3);
        }
        let made = if a.action == Action::Add {
            sum_results(a.arguments)->0
        } else {
            difference_results(a.arguments)->0
        };
        assert(made.len() == 1 && made[0] is Number);
        let next = apply_top(s)->0;
        assert(next.pending == s.pending + (a.results + made));
        assert(arithmetic(next.pending));
        assert forall|i: int| 0 <= i < next.stack.len() implies summing(
            #[trigger] next.stack[i],
        ) by {
            assert(next.stack[i] == s.stack[i]);
        }
        lemma_drained_calm(next);
    }
}

/// The second half of a cycle keeps a session of plain arithmetic one
/// and leaves the table as it is.
pub proof fn lemma_dispatched_calm(s: Session)
    requires
        calm(s),
        s.pending.len() > 0,
        s.stack.len() == 0 || wants_data(s.stack),
    ensures
        calm(dispatched(s)),
        dispatched(s).words == s.words,
{
    let v = s.pending.last();
    let next = dispatched(s);
    assert(is_arithmetic(s.pending[s.pending.len() - 1]));
    assert forall|i: int| 0 <= i < next.pending.len() implies is_arithmetic(
        #[trigger] next.pending[i],
    ) by {
        assert(next.pending[i] == s.pending[i]);
    }
    if s.stack.len() > 0 {
        let a = s.stack.last();
        assert(summing(s.stack[s.stack.len() - 1]));
        assert(a.expectations[a.expectations.len() - 1] == Expectation::Num);
    }
    match v {
        Value::Number(_) => {
            if s.stack.len() > 0 {
                let a = s.stack.last();
                assert(takes(s.stack, v));
                let b = bound(a, v);
                assert(summing(b)) by {
                    assert forall|i: int| 0 <= i < b.arguments.len() implies (
                    #[trigger] b.arguments[i]).name == i + 1 && b.arguments[i].value is Number by {
                        if i < a.arguments.len() {
                            assert(b.arguments[i] == a.arguments[i]);
                        }
                    }
                    assert forall|i: int| 0 <= i < b.expectations.len() implies
                        #[trigger] b.expectations[i] == Expectation::Num by {
                        assert(b.expectations[i] == a.expectations[i]);
                    }
                }
                assert forall|i: int| 0 <= i < next.stack.len() implies summing(
                    #[trigger] next.stack[i],
                ) by {
                    if i < s.stack.len() - 1 {
                        assert(next.stack[i] == s.stack[i]);
                    }
                }
            }
        },
        Value::Identifier(name) => {
            assert(!takes(s.stack, v));
            let call = invocation(s.words, name);
            assert(summing(call));
            assert forall|i: int| 0 <= i < next.stack.len() implies summing(
                #[trigger] next.stack[i],
            ) by {
                if i < s.stack.len() {
                    assert(next.stack[i] == s.stack[i]);
                }
            }
        },
        _ => {},
    }
}

/// The evaluation of a session of plain arithmetic leaves the table as
/// it is.
pub proof fn lemma_ran_calm(s: Session, cycles: nat)
    requires
        calm(s),
    ensures
        ran(s, cycles).0.words == s.words,
    decreases cycles,
{
    if cycles > 0 {
        lemma_drained_calm(s);
        let d = drained(s).0;
        if d.pending.len() > 0 {
            lemma_dispatched_calm(d);
            lemma_ran_calm(dispatched(d), (cycles - 1) as nat);
        }
    }
}

/// Tokens of plain arithmetic are their own grouping.
pub proof fn lemma_parse_arithmetic(stack: Seq<Value>)
    requires
        arithmetic(stack),
    ensures
        parse_level(stack, false).0 == stack,
    decreases stack.len(),
{
    if stack.len() > 0 {
        let rest = stack.drop_last();
        assert(is_arithmetic(stack[stack.len() - 1]));
        assert forall|i: int| 0 <= i < rest.len() implies is_arithmetic(#[trigger] rest[i]) by {
            assert(rest[i] == stack[i]);
        }
        lemma_parse_arithmetic(rest);
        assert(parse_level(stack, false).0 =~= stack);
    } else {
        assert(parse_level(stack, false).0 =~= stack);
    }
}

/// A line of plain arithmetic, that is of numbers, `+` and `-` only,
/// leaves of the table what the definition of the built-in words left
/// of it. So the same line gives the same output, and ends in the same
/// way, when it is evaluated once more against the table that it left.
pub proof fn lemma_arithmetic_line_repeats(line: Seq<char>, words: Seq<Definition>)
    requires
        arithmetic(tokens(line)),
    ensures
        evaluation(line, words).0.words == with_builtins(words),
        evaluation(line, evaluation(line, words).0.words) == evaluation(line, words),
{
    let s = opening(line, words);
    let stack = tokens(line).reverse();
    assert forall|i: int| 0 <= i < stack.len() implies is_arithmetic(#[trigger] stack[i]) by {
        assert(stack[i] == tokens(line)[tokens(line).len() - 1 - i]);
    }
    lemma_parse_arithmetic(stack);
    lemma_builtins_stand(words);
    assert(calm(s));
    lemma_ran_calm(s, crate::session::MAX_CYCLES as nat);
    lemma_with_builtins_twice(words);
}

/// In a table in which the built-in words have been defined their names
/// stand for them.
pub proof fn lemma_builtins_stand(words: Seq<Definition>)
    ensures
        lookup(with_builtins(words), builtin_add().name) == Some(builtin_add()),
        lookup(with_builtins(words), builtin_subtract().name) == Some(builtin_subtract()),
        lookup(with_builtins(words), builtin_if().name) == Some(builtin_if()),
        lookup(with_builtins(words), builtin_define().name) == Some(builtin_define()),
        lookup(with_builtins(words), builtin_extract().name) == Some(builtin_extract()),
{
    let a = defined(words, builtin_add());
    let b = defined(a, builtin_subtract());
    let c = defined(b, builtin_if());
    let d = defined(c, builtin_define());
    lemma_defined_lookup(words, builtin_add());
    lemma_defined_lookup(a, builtin_subtract());
    lemma_defined_lookup(b, builtin_if());
    lemma_defined_lookup(c, builtin_define());
    lemma_defined_lookup(d, builtin_extract());
    crate::word::lemma_builtin_names_differ();
}

/// How many arguments an action reads.
pub open spec fn needed(action: Action) -> nat {
    match action {
        Action::Add | Action::Subtract | Action::Extract | Action::Define => 2,
        Action::If => 3,
        Action::Nothing | Action::Substitution => 0,
    }
}

/// A word that asks for at least as many arguments as its action reads.
pub open spec fn sound_word(word: Definition) -> bool {
    word.expectations.len() >= needed(word.action)
}

/// A table of such words.
pub open spec fn sound_table(words: Seq<Definition>) -> bool {
    forall|i: int| 0 <= i < words.len() ==> sound_word(#[trigger] words[i])
}

/// An activation that will have bound what its action reads when it
/// asks for nothing more: what it has bound and what it asks for are
/// together at least that many, and the first so many arguments are
/// named in their order.
pub open spec fn sound_activation(a: Activation) -> bool {
    &&& a.arguments.len() + a.expectations.len() >= needed(a.action)
    &&& forall|i: int|
        0 <= i < a.arguments.len() && i < needed(a.action) ==> (#[trigger] a.arguments[i]).name
            == i + 1
}

/// A session of such activations over such a table.
pub open spec fn sound(s: Session) -> bool {
    &&& sound_table(s.words)
    &&& forall|i: int| 0 <= i < s.stack.len() ==> sound_activation(#[trigger] s.stack[i])
}

/// To define a sound word in a sound table leaves it sound.
pub proof fn lemma_defined_sound(words: Seq<Definition>, word: Definition)
    requires
        sound_table(words),
        sound_word(word),
    ensures
        sound_table(defined(words, word)),
{
    let after = defined(words, word);
    crate::word::lemma_first_named(words, word.name, 0);
    let k = crate::word::first_named(words, word.name, 0);
    assert forall|i: int| 0 <= i < after.len() implies sound_word(#[trigger] after[i]) by {
        if i != k {
            assert(after[i] == words[i]);
        }
    }
}

/// The built-in words keep a sound table sound.
pub proof fn lemma_with_builtins_sound(words: Seq<Definition>)
    requires
        sound_table(words),
    ensures
        sound_table(with_builtins(words)),
{
    let a = defined(words, builtin_add());
    let b = defined(a, builtin_subtract());
    let c = defined(b, builtin_if());
    let d = defined(c, builtin_define());
    lemma_defined_sound(words, builtin_add());
    lemma_defined_sound(a, builtin_subtract());
    lemma_defined_sound(b, builtin_if());
    lemma_defined_sound(c, builtin_define());
    lemma_defined_sound(d, builtin_extract());
}

/// A sound activation that asks for nothing more has bound every
/// argument that its action reads.
pub proof fn lemma_sound_operands(a: Activation, name: usize)
    requires
        sound_activation(a),
        a.expectations.len() == 0,
        1 <= name <= needed(a.action),
    ensures
        operand(a.arguments, name) is Some,
{
    assert forall|j: int| 0 <= j < name - 1 implies a.arguments[j].name != name by {
        assert(a.arguments[j].name == j + 1);
    }
    assert(a.arguments[name - 1].name == name);
    crate::call::lemma_first_bound_from(a.arguments, name, name - 1);
}

/// The first half of a cycle keeps a sound session sound and does not
/// fail.
pub proof fn lemma_drained_sound(s: Session)
    requires
        sound(s),
    ensures
        sound(drained(s).0),
        drained(s).1,
    decreases s.stack.len(),
{
    if !(s.stack.len() == 0 || wants_data(s.stack)) {
        let a = s.stack.last();
        assert(sound_activation(s.stack[s.stack.len() - 1]));
        if needed(a.action) >= 2 {
            lemma_sound_operands(a, 1);
            lemma_sound_operands(a, 2);
        }
        if needed(a.action) >= 3 {
            lemma_sound_operands(a, 3);
        }
        assert(applied(a, s.words) is Some);
        let next = apply_top(s)->0;
        if a.action == Action::Define {
            let first = operand(a.arguments, 1)->0;
            let second = operand(a.arguments, 2)->0;
            match crate::call::definition_of(first, second) {
                Some(word) => {
                    lemma_defined_sound(s.words, word);
                },
                None => {},
            }
        }
        assert forall|i: int| 0 <= i < next.stack.len() implies sound_activation(
            #[trigger] next.stack[i],
        ) by {
            assert(next.stack[i] == s.stack[i]);
        }
        lemma_drained_sound(next);
    }
}

/// The second half of a cycle keeps a sound session sound.
pub proof fn lemma_dispatched_sound(s: Session)
    requires
        sound(s),
        s.pending.len() > 0,
    ensures
        sound(dispatched(s)),
{
    let v = s.pending.last();
    let next = dispatched(s);
    let n = s.stack.len() as int;
    if n > 0 {
        assert(sound_activation(s.stack[n - 1]));
    }
    assert forall|i: int| 0 <= i < next.stack.len() implies sound_activation(
        #[trigger] next.stack[i],
    ) by {
        if i < n - 1 {
            assert(next.stack[i] == s.stack[i]);
        } else if i == n - 1 {
            let a = s.stack.last();
            if takes(s.stack, v) && !(v is Parameter) && !(v is OpenGroup) && !(v is CloseGroup)
                && !(v is Quote) {
                let b = bound(a, v);
                assert(next.stack[i] == b);
                assert forall|j: int|
                    0 <= j < b.arguments.len() && j < needed(b.action) implies (
                #[trigger] b.arguments[j]).name == j + 1 by {
                    if j < a.arguments.len() {
                        assert(b.arguments[j] == a.arguments[j]);
                    }
                }
            } else if next.stack.len() == n {
                assert(next.stack[i].arguments == a.arguments);
                assert(next.stack[i].expectations == a.expectations);
                assert(next.stack[i].action == a.action);
            } else {
                assert(next.stack[i] == s.stack[i]);
            }
        } else {
            match v {
                Value::Identifier(name) => {
                    crate::word::lemma_first_named(s.words, name, 0);
                    let k = crate::word::first_named(s.words, name, 0);
                    if k < s.words.len() {
                        assert(sound_word(s.words[k]));
                    }
                    assert(next.stack[i] == invocation(s.words, name));
                },
                _ => {},
            }
        }
    }
}

/// The evaluation of a sound session never applies a word that lacks an
/// argument, and leaves a sound table.
pub proof fn lemma_ran_sound(s: Session, cycles: nat)
    requires
        sound(s),
    ensures
        ran(s, cycles).1 != Status::StackUnderflow,
        sound_table(ran(s, cycles).0.words),
    decreases cycles,
{
    if cycles > 0 {
        lemma_drained_sound(s);
        let d = drained(s).0;
        if d.pending.len() > 0 {
            lemma_dispatched_sound(d);
            lemma_ran_sound(dispatched(d), (cycles - 1) as nat);
        }
    }
}

/// Against a sound table, and the empty table is one, no line ends for
/// want of an argument, and every line leaves a sound table: a table
/// that only evaluation has written never lacks an argument.
pub proof fn lemma_evaluation_never_underflows(line: Seq<char>, words: Seq<Definition>)
    requires
        sound_table(words),
    ensures
        evaluation(line, words).1 != Status::StackUnderflow,
        sound_table(evaluation(line, words).0.words),
{
    lemma_with_builtins_sound(words);
    lemma_ran_sound(opening(line, words), crate::session::MAX_CYCLES as nat);
}

/// The decimal form of a number is made of digits, at least one, and
/// they write the number.
pub proof fn lemma_decimal_nat_digits(n: nat)
    ensures
        decimal_nat(n).len() >= 1,
        forall|i: int| 0 <= i < decimal_nat(n).len() ==> is_digit(#[trigger] decimal_nat(n)[i]),
        digits_value(decimal_nat(n)) == n,
    decreases n,
{
    let last = digit_char((n % 10) as int);
    assert(is_digit(last) && digit_value(last) == n % 10);
    if n >= 10 {
        let front = decimal_nat(n / 10);
        lemma_decimal_nat_digits(n / 10);
        assert(decimal_nat(n) == front.push(last));
        assert(front.push(last).drop_last() =~= front);
        assert forall|i: int| 0 <= i < decimal_nat(n).len() implies is_digit(
            #[trigger] decimal_nat(n)[i],
        ) by {
            if i < front.len() {
                assert(decimal_nat(n)[i] == front[i]);
            }
        }
    } else {
        assert(decimal_nat(n) == seq![last]);
        assert(seq![last].drop_last() =~= Seq::<char>::empty());
        assert(digits_value(seq![last]) == n) by {
            reveal_with_fuel(digits_value, 2);
        }
    }
}

/// Where only digits stand from a place on, the run of digits at the
/// place goes to the end.
pub proof fn lemma_digit_run_to_end(s: Seq<char>, i: int)
    requires
        0 <= i <= s.len(),
        forall|j: int| i <= j < s.len() ==> is_digit(#[trigger] s[j]),
    ensures
        digit_run(s, i) == s.len() - i,
    decreases s.len() - i,
{
    if i < s.len() {
        assert(is_digit(s[i]));
        lemma_digit_run_to_end(s, i + 1);
    }
}

/// What is written of a number is read back as that number.
pub proof fn lemma_number_text_reads_back(n: i64)
    ensures
        tokens(text_of(Value::Number(n))) == seq![Value::Number(n)],
{
    let s = decimal(n as int);
    let len = s.len() as int;
    if n >= 0 {
        lemma_decimal_nat_digits(n as nat);
        assert(is_digit(s[0]));
        lemma_digit_run_to_end(s, 0);
        assert(s.subrange(0, len) =~= s);
        assert(number_at(s, 0) == Some((n, len)));
    } else {
        let digits = decimal_nat((-n) as nat);
        lemma_decimal_nat_digits((-n) as nat);
        assert(s == seq!['-'] + digits);
        assert forall|j: int| 1 <= j < s.len() implies is_digit(#[trigger] s[j]) by {
            assert(s[j] == digits[j - 1]);
        }
        assert(s[0] == '-');
        assert(is_digit(s[1]));
        lemma_digit_run_to_end(s, 1);
        assert(s.subrange(1, len) =~= digits);
        assert(number_at(s, 0) == Some((n, len)));
    }
    assert(lex_at(s, 0) == (Some(Value::Number(n)), len));
    assert(lex_from(s, len) =~= Seq::<Value>::empty());
    assert(lex_from(s, 0) =~= seq![Value::Number(n)] + lex_from(s, len));
    assert(lex_from(s, 0) =~= seq![Value::Number(n)]);
}

/// What is written of a placeholder with a positive index is read back
/// as that placeholder.
pub proof fn lemma_parameter_text_reads_back(p: usize)
    requires
        p >= 1,
    ensures
        tokens(text_of(Value::Parameter(p))) == seq![Value::Parameter(p)],
{
    let digits = decimal_nat(p as nat);
    let s = seq!['$'] + digits;
    let len = s.len() as int;
    lemma_decimal_nat_digits(p as nat);
    assert forall|j: int| 1 <= j < s.len() implies is_digit(#[trigger] s[j]) by {
        assert(s[j] == digits[j - 1]);
    }
    assert(s[0] == '$');
    lemma_digit_run_to_end(s, 1);
    assert(s.subrange(1, len) =~= digits);
    assert(parameter_at(s, 0) == (p, len));
    assert(number_at(s, 0) is None);
    assert(lex_at(s, 0) == (Some(Value::Parameter(p)), len));
    assert(lex_from(s, len) =~= Seq::<Value>::empty());
    assert(lex_from(s, 0) =~= seq![Value::Parameter(p)] + lex_from(s, len));
    assert(lex_from(s, 0) =~= seq![Value::Parameter(p)]);
}

/// The first half of a cycle keeps the names of the table apart.
pub proof fn lemma_drained_unique(s: Session)
    requires
        crate::word::unique_names(s.words),
    ensures
        crate::word::unique_names(drained(s).0.words),
    decreases s.stack.len(),
{
    if !(s.stack.len() == 0 || wants_data(s.stack)) {
        match apply_top(s) {
            Some(next) => {
                let a = s.stack.last();
                if a.action == Action::Define {
                    let first = operand(a.arguments, 1)->0;
                    let second = operand(a.arguments, 2)->0;
                    match crate::call::definition_of(first, second) {
                        Some(word) => {
                            crate::word::lemma_defined_unique(s.words, word);
                        },
                        None => {},
                    }
                }
                lemma_drained_unique(next);
            },
            None => {},
        }
    }
}

/// The evaluation of a session keeps the names of the table apart.
pub proof fn lemma_ran_unique(s: Session, cycles: nat)
    requires
        crate::word::unique_names(s.words),
    ensures
        crate::word::unique_names(ran(s, cycles).0.words),
    decreases cycles,
{
    if cycles > 0 {
        lemma_drained_unique(s);
        let d = drained(s).0;
        if drained(s).1 && d.pending.len() > 0 {
            lemma_ran_unique(dispatched(d), (cycles - 1) as nat);
        }
    }
}

/// The table is a map: where no name occurs twice in it before a line,
/// and in the empty table none does, no name occurs twice in it after
/// the line.
pub proof fn lemma_evaluation_keeps_names_apart(line: Seq<char>, words: Seq<Definition>)
    requires
        crate::word::unique_names(words),
    ensures
        crate::word::unique_names(evaluation(line, words).0.words),
{
    crate::word::lemma_with_builtins_unique(words);
    lemma_ran_unique(opening(line, words), crate::session::MAX_CYCLES as nat);
}

} // verus!
