//! The textual forms of values.

use crate::call::{Binding, Call, Parameter};
use crate::value::{lemma_lambda_view, lemma_stack_view, Expectation, LexItem, Value};
use vstd::prelude::*;
use vstd::string::*;

verus! {

/// The character of a decimal digit.
pub open spec fn digit_char(d: int) -> char {
    ('0' as int + d) as char
}

/// The decimal form of a natural number, without leading zeros.
pub open spec fn decimal_nat(n: nat) -> Seq<char>
    decreases n,
{
    if n < 10 {
        seq![digit_char(n as int)]
    } else {
        decimal_nat(n / 10).push(digit_char((n % 10) as int))
    }
}

/// The decimal form of an integer, with `-` before a negative one.
pub open spec fn decimal(n: int) -> Seq<char> {
    if n < 0 {
        seq!['-'] + decimal_nat((-n) as nat)
    } else {
        decimal_nat(n as nat)
    }
}

fn digit_text(d: u64) -> (r: &'static str)
    requires
        d < 10,
    ensures
        r@ == seq![digit_char(d as int)],
{
    proof {
        reveal_strlit("0");
        reveal_strlit("1");
        reveal_strlit("2");
        reveal_strlit("3");
        reveal_strlit("4");
        reveal_strlit("5");
        reveal_strlit("6");
        reveal_strlit("7");
        reveal_strlit("8");
        reveal_strlit("9");
    }
    let r = if d == 0 {
        "0"
    } else if d == 1 {
        "1"
    } else if d == 2 {
        "2"
    } else if d == 3 {
        "3"
    } else if d == 4 {
        "4"
    } else if d == 5 {
        "5"
    } else if d == 6 {
        "6"
    } else if d == 7 {
        "7"
    } else if d == 8 {
        "8"
    } else {
        "9"
    };
    assert(r@ =~= seq![digit_char(d as int)]);
    r
}

/// Appends the decimal form of `n`.
pub fn push_decimal(out: &mut String, n: u64)
    ensures
        final(out)@ == old(out)@ + decimal_nat(n as nat),
    decreases n,
{
    if n >= 10 {
        push_decimal(out, n / 10);
    }
    out.append(digit_text(n % 10));
    assert(out@ =~= old(out)@ + decimal_nat(n as nat));
}

/// The decimal form of a number.
pub fn number_text(n: i64) -> (r: String)
    ensures
        r@ == decimal(n as int),
{
    let mut out = String::new();
    if n < 0 {
        proof {
            reveal_strlit("-");
        }
        out.append("-");
        let magnitude: u64 = (-(n + 1)) as u64 + 1;
        push_decimal(&mut out, magnitude);
        assert(out@ =~= decimal(n as int));
    } else {
        push_decimal(&mut out, n as u64);
        assert(out@ =~= decimal(n as int));
    }
    out
}

/// The text of a value: a number in decimal, a name or a literal as it
/// is, a placeholder as `$` and its index, a group as its items between
/// brackets, with `'` before a block.
pub open spec fn text_of(v: Value) -> Seq<char>
    decreases v,
{
    match v {
        Value::Identifier(w) => w,
        Value::Number(n) => decimal(n as int),
        Value::Parameter(p) => seq!['$'] + decimal_nat(p as nat),
        Value::Block(items) => seq!['\'', '[', ' '] + stack_text(items) + seq![']'],
        Value::Lambda(items) => seq!['[', ' '] + stack_text(items) + seq![']'],
        Value::Literal(t) => t,
        Value::OpenGroup => seq!['['],
        Value::CloseGroup => seq![']'],
        Value::Quote => seq!['\''],
    }
}

/// The text of a stack, from its top down, a space after each item;
/// `None` for an empty one.
pub open spec fn stack_text(items: Seq<Value>) -> Seq<char>
    decreases items, 1int,
{
    if items.len() == 0 {
        seq!['N', 'o', 'n', 'e']
    } else {
        items_text(items)
    }
}

/// The texts of the items from the last to the first, a space after each.
pub open spec fn items_text(items: Seq<Value>) -> Seq<char>
    decreases items, 0int,
{
    if items.len() == 0 {
        Seq::empty()
    } else {
        text_of(items.last()) + seq![' '] + items_text(items.drop_last())
    }
}

/// The text of one item.
pub fn lexeme_text(token: &LexItem) -> (r: String)
    ensures
        r@ == text_of(token.deep_view()),
    decreases token,
{
    match token {
        LexItem::Word(w) => w.clone(),
        LexItem::Num(n) => number_text(*n),
        LexItem::Parameter(p) => {
            proof {
                reveal_strlit("$");
            }
            let mut out = String::from_str("$");
            push_decimal(&mut out, *p as u64);
            assert(out@ =~= seq!['$'] + decimal_nat(*p as nat));
            out
        },
        LexItem::Stack(s) => {
            proof {
                reveal_strlit("'[ ");
                reveal_strlit("]");
                lemma_stack_view(*s);
            }
            let mut out = String::from_str("'[ ");
            let inner = format_lexstack(s);
            out.append(inner.as_str());
            out.append("]");
            assert(out@ =~= seq!['\'', '[', ' '] + stack_text(s.deep_view()) + seq![']']);
            out
        },
        LexItem::Lambda(s) => {
            proof {
                reveal_strlit("[ ");
                reveal_strlit("]");
                lemma_lambda_view(*s);
            }
            let mut out = String::from_str("[ ");
            let inner = format_lexstack(s);
            out.append(inner.as_str());
            out.append("]");
            assert(out@ =~= seq!['[', ' '] + stack_text(s.deep_view()) + seq![']']);
            out
        },
        LexItem::Literal(t) => t.clone(),
        LexItem::OpenParen => {
            proof {
                reveal_strlit("[");
            }
            let out = String::from_str("[");
            assert(out@ =~= seq!['[']);
            out
        },
        LexItem::CloseParen => {
            proof {
                reveal_strlit("]");
            }
            let out = String::from_str("]");
            assert(out@ =~= seq![']']);
            out
        },
        LexItem::Quote => {
            proof {
                reveal_strlit("'");
            }
            let out = String::from_str("'");
            assert(out@ =~= seq!['\'']);
            out
        },
    }
}

/// The text of a stack of items, from its top down.
pub fn format_lexstack(stack: &Vec<LexItem>) -> (r: String)
    ensures
        r@ == stack_text(stack.deep_view()),
    decreases stack,
{
    let ghost model = stack.deep_view();
    let mut result = String::new();
    if stack.len() == 0 {
        proof {
            reveal_strlit("None");
        }
        result.append("None");
        assert(result@ =~= seq!['N', 'o', 'n', 'e']);
        return result;
    }
    let mut i: usize = stack.len();
    proof {
        assert(model.take(i as int) =~= model);
        assert(result@ + items_text(model) =~= items_text(model));
    }
    while i > 0
        invariant
            i <= stack.len(),
            model == stack.deep_view(),
            result@ + items_text(model.take(i as int)) == items_text(model),
        decreases i,
    {
        let ghost upper = model.take(i as int);
        i -= 1;
        let one = lexeme_text(&stack[i]);
        proof {
            reveal_strlit(" ");
            assert(upper.last() == stack[i as int].deep_view());
            assert(upper.drop_last() =~= model.take(i as int));
            assert(result@ + one@ + seq![' '] + items_text(model.take(i as int)) =~= result@
                + items_text(upper));
        }
        result.append(one.as_str());
        result.append(" ");
    }
    proof {
        assert(result@ + items_text(model.take(0)) =~= result@);
    }
    result
}

/// The text of one item and a space.
pub fn print_lexeme(token: &LexItem) -> (r: String)
    ensures
        r@ == text_of(token.deep_view()).push(' '),
{
    proof {
        reveal_strlit(" ");
    }
    let mut out = lexeme_text(token);
    out.append(" ");
    assert(out@ =~= text_of(token.deep_view()).push(' '));
    out
}

/// The name of an expectation.
pub open spec fn expectation_name(e: Expectation) -> Seq<char> {
    match e {
        Expectation::Num => "Num"@,
        Expectation::Literal => "Literal"@,
        Expectation::Stack => "Stack"@,
        Expectation::Lambda => "Lambda"@,
        Expectation::Any => "Any"@,
        Expectation::Word => "Word"@,
        Expectation::Parameter => "Parameter"@,
        Expectation::NumStaLit => "NumStaLit"@,
    }
}

/// The names of the expectations from the last to the first, a space
/// after each.
pub open spec fn expectations_text(stack: Seq<Expectation>) -> Seq<char>
    decreases stack.len(),
{
    if stack.len() == 0 {
        Seq::empty()
    } else {
        expectation_name(stack.last()) + seq![' '] + expectations_text(stack.drop_last())
    }
}

/// The text of a stack of expectations, from the one that is due next.
pub fn format_expstack(stack: &Vec<Expectation>) -> (r: String)
    ensures
        r@ == expectations_text(stack@),
{
    let mut result = String::new();
    let mut i: usize = stack.len();
    proof {
        assert(stack@.take(i as int) =~= stack@);
        assert(result@ + expectations_text(stack@) =~= expectations_text(stack@));
    }
    while i > 0
        invariant
            i <= stack.len(),
            result@ + expectations_text(stack@.take(i as int)) == expectations_text(stack@),
        decreases i,
    {
        let ghost upper = stack@.take(i as int);
        i -= 1;
        let name = match stack[i] {
            Expectation::Num => "Num",
            Expectation::Literal => "Literal",
            Expectation::Stack => "Stack",
            Expectation::Lambda => "Lambda",
            Expectation::Any => "Any",
            Expectation::Word => "Word",
            Expectation::Parameter => "Parameter",
            Expectation::NumStaLit => "NumStaLit",
        };
        proof {
            reveal_strlit(" ");
            assert(upper.last() == stack[i as int]);
            assert(upper.drop_last() =~= stack@.take(i as int));
            assert(name@ == expectation_name(stack[i as int]));
            assert(result@ + name@ + seq![' '] + expectations_text(stack@.take(i as int)) =~= result@
                + expectations_text(upper));
        }
        result.append(name);
        result.append(" ");
    }
    proof {
        assert(result@ + expectations_text(stack@.take(0)) =~= result@);
    }
    result
}

/// The text of a bound argument: its name in brackets, then its value.
pub open spec fn binding_text(b: Binding) -> Seq<char> {
    seq!['('] + decimal_nat(b.name as nat) + seq![')'] + text_of(b.value)
}

/// The texts of the arguments from the newest to the oldest, a space
/// after each.
pub open spec fn bindings_text(arguments: Seq<Binding>) -> Seq<char>
    decreases arguments.len(),
{
    if arguments.len() == 0 {
        Seq::empty()
    } else {
        binding_text(arguments.last()) + seq![' '] + bindings_text(arguments.drop_last())
    }
}

/// The text of the arguments of an activation; `None` where there are
/// none.
pub open spec fn arguments_text(arguments: Seq<Binding>) -> Seq<char> {
    if arguments.len() == 0 {
        seq!['N', 'o', 'n', 'e']
    } else {
        bindings_text(arguments)
    }
}

/// The text of an activation: its name, its arguments and its results.
pub open spec fn activation_text(
    name: Seq<char>,
    arguments: Seq<Binding>,
    results: Seq<Value>,
) -> Seq<char> {
    name + seq![',', ' ', 'a', 'r', 'g', 's', ':'] + arguments_text(arguments) + seq![
        ',',
        ' ',
        'r',
        'e',
        's',
        'u',
        'l',
        't',
        ':',
    ] + stack_text(results)
}

/// The text of the arguments of an activation, the newest first.
pub fn format_parstack(stack: &Vec<Parameter>) -> (r: String)
    ensures
        r@ == arguments_text(stack.deep_view()),
{
    let ghost model = stack.deep_view();
    let mut result = String::new();
    if stack.len() == 0 {
        proof {
            reveal_strlit("None");
        }
        result.append("None");
        assert(result@ =~= seq!['N', 'o', 'n', 'e']);
        return result;
    }
    let mut i: usize = stack.len();
    proof {
        assert(model.take(i as int) =~= model);
        assert(result@ + bindings_text(model) =~= bindings_text(model));
    }
    while i > 0
        invariant
            i <= stack.len(),
            model == stack.deep_view(),
            result@ + bindings_text(model.take(i as int)) == bindings_text(model),
        decreases i,
    {
        let ghost upper = model.take(i as int);
        let ghost so_far = result@;
        i -= 1;
        proof {
            reveal_strlit("(");
            reveal_strlit(")");
            reveal_strlit(" ");
            assert(upper.last() == stack[i as int].deep_view());
            assert(upper.drop_last() =~= model.take(i as int));
        }
        result.append("(");
        push_decimal(&mut result, stack[i].name as u64);
        result.append(")");
        let value = lexeme_text(&stack[i].value);
        result.append(value.as_str());
        result.append(" ");
        proof {
            assert(result@ =~= so_far + binding_text(upper.last()) + seq![' ']);
            assert(result@ + bindings_text(model.take(i as int)) =~= so_far + bindings_text(
                upper,
            ));
        }
    }
    proof {
        assert(result@ + bindings_text(model.take(0)) =~= result@);
    }
    result
}

impl Call {
    /// The text of the activation: its name, its arguments and its
    /// results.
    pub fn describe(&self) -> (r: String)
        ensures
            r@ == activation_text(
                self.deep_view().name,
                self.deep_view().arguments,
                self.deep_view().results,
            ),
    {
        proof {
            reveal_strlit(", args:");
            reveal_strlit(", result:");
        }
        let mut out = self.name.clone();
        out.append(", args:");
        let arguments = format_parstack(&self.arguments);
        out.append(arguments.as_str());
        out.append(", result:");
        let results = format_lexstack(&self.results);
        out.append(results.as_str());
        assert(out@ =~= activation_text(
            self.deep_view().name,
            self.deep_view().arguments,
            self.deep_view().results,
        ));
        out
    }
}

} // verus!
