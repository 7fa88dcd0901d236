//! From tokens to nested values.

use crate::lexer::{is_token, lemma_lex_from_tokens, tokens};
use crate::text::{decimal, number_text};
use crate::value::{lemma_lambda_view, lemma_stack_view, LexItem, Value};
use vstd::prelude::*;

verus! {

/// What a token becomes after a quote mark: a number or a name becomes a
/// literal with its text; anything else stays as it is.
pub open spec fn quoted_form(v: Value) -> Value {
    match v {
        Value::Number(n) => Value::Literal(decimal(n as int)),
        Value::Identifier(w) => Value::Literal(w),
        _ => v,
    }
}

/// Groups the tokens of one nesting level. The tokens are a stack: the
/// last is read first. The result is the values of the level, again as a
/// stack with the first read last, and the tokens that are left.
///
/// - A closing bracket ends the level, also where none was opened.
/// - An opening bracket begins a nested level, which ends at its closing
///   bracket or with the tokens. The group is a block after a quote mark,
///   a lambda otherwise.
/// - A quote mark turns the number or name after it into a literal. Before
///   anything else it has no effect.
///
/// `quoted` says whether a quote mark stands directly before the tokens.
pub open spec fn parse_level(tokens: Seq<Value>, quoted: bool) -> (Seq<Value>, Seq<Value>)
    decreases tokens.len(),
{
    if tokens.len() == 0 {
        (Seq::empty(), tokens)
    } else {
        let rest = tokens.drop_last();
        match tokens.last() {
            Value::CloseGroup => (Seq::empty(), rest),
            Value::Quote => parse_level(rest, true),
            Value::OpenGroup => {
                let (inner, after) = parse_level(rest, false);
                let group = if quoted {
                    Value::Block(inner)
                } else {
                    Value::Lambda(inner)
                };
                // What a level leaves is never longer than what it was given.
                if after.len() <= rest.len() {
                    let (siblings, left) = parse_level(after, false);
                    (siblings.push(group), left)
                } else {
                    (seq![group], after)
                }
            },
            token => {
                let item = if quoted {
                    quoted_form(token)
                } else {
                    token
                };
                let (siblings, left) = parse_level(rest, false);
                (siblings.push(item), left)
            },
        }
    }
}

/// The values of a line whose tokens are given in the order of the text,
/// as a stack: the value that was written first is the last.
pub open spec fn parse(tokens: Seq<Value>) -> Seq<Value> {
    parse_level(tokens.reverse(), false).0
}

/// What a level leaves are the lowest of the tokens it was given.
pub proof fn lemma_parse_level_prefix(tokens: Seq<Value>, quoted: bool)
    ensures
        parse_level(tokens, quoted).1.len() <= tokens.len(),
        parse_level(tokens, quoted).1 == tokens.take(parse_level(tokens, quoted).1.len() as int),
    decreases tokens.len(),
{
    if tokens.len() > 0 {
        let rest = tokens.drop_last();
        match tokens.last() {
            Value::CloseGroup => {
                assert(rest =~= tokens.take(rest.len() as int));
            },
            Value::Quote => {
                lemma_parse_level_prefix(rest, true);
                let left = parse_level(rest, true).1;
                assert(left =~= tokens.take(left.len() as int));
            },
            Value::OpenGroup => {
                lemma_parse_level_prefix(rest, false);
                let after = parse_level(rest, false).1;
                lemma_parse_level_prefix(after, false);
                let left = parse_level(after, false).1;
                assert(left =~= tokens.take(left.len() as int));
            },
            _ => {
                lemma_parse_level_prefix(rest, false);
                let left = parse_level(rest, false).1;
                assert(left =~= tokens.take(left.len() as int));
            },
        }
    } else {
        assert(tokens =~= tokens.take(0));
    }
}

/// A value as grouping leaves it: no bracket and no quote mark is left
/// in it, at any depth, and every placeholder has a positive index.
pub open spec fn well_formed(v: Value) -> bool
    decreases v,
{
    match v {
        Value::OpenGroup | Value::CloseGroup | Value::Quote => false,
        Value::Parameter(p) => p >= 1,
        Value::Block(items) => forall|i: int|
            0 <= i < items.len() ==> well_formed(#[trigger] items[i]),
        Value::Lambda(items) => forall|i: int|
            0 <= i < items.len() ==> well_formed(#[trigger] items[i]),
        _ => true,
    }
}

/// Grouping uses up every bracket and every quote mark: of tokens as
/// reading yields them it leaves well-formed values only.
pub proof fn lemma_parse_level_well_formed(tokens: Seq<Value>, quoted: bool)
    requires
        forall|i: int| 0 <= i < tokens.len() ==> is_token(#[trigger] tokens[i]),
    ensures
        forall|i: int|
            0 <= i < parse_level(tokens, quoted).0.len() ==> well_formed(
                #[trigger] parse_level(tokens, quoted).0[i],
            ),
    decreases tokens.len(),
{
    if tokens.len() > 0 {
        let rest = tokens.drop_last();
        let top = tokens.last();
        assert(is_token(tokens[tokens.len() - 1]));
        assert forall|i: int| 0 <= i < rest.len() implies is_token(#[trigger] rest[i]) by {
            assert(rest[i] == tokens[i]);
        }
        match top {
            Value::CloseGroup => {},
            Value::Quote => {
                lemma_parse_level_well_formed(rest, true);
                assert(parse_level(tokens, quoted) == parse_level(rest, true));
            },
            Value::OpenGroup => {
                lemma_parse_level_well_formed(rest, false);
                lemma_parse_level_prefix(rest, false);
                let (inner, after) = parse_level(rest, false);
                assert forall|i: int| 0 <= i < after.len() implies is_token(
                    #[trigger] after[i],
                ) by {
                    assert(after[i] == rest[i]);
                }
                lemma_parse_level_well_formed(after, false);
                let group = if quoted {
                    Value::Block(inner)
                } else {
                    Value::Lambda(inner)
                };
                assert(well_formed(group));
                let siblings = parse_level(after, false).0;
                let all = parse_level(tokens, quoted).0;
                assert(all == siblings.push(group));
                assert forall|i: int| 0 <= i < all.len() implies well_formed(#[trigger] all[i]) by {
                    if i < siblings.len() {
                        assert(all[i] == siblings[i]);
                    }
                }
            },
            _ => {
                lemma_parse_level_well_formed(rest, false);
                let item = if quoted {
                    quoted_form(top)
                } else {
                    top
                };
                assert(well_formed(item));
                let siblings = parse_level(rest, false).0;
                let all = parse_level(tokens, quoted).0;
                assert(all == siblings.push(item));
                assert forall|i: int| 0 <= i < all.len() implies well_formed(#[trigger] all[i]) by {
                    if i < siblings.len() {
                        assert(all[i] == siblings[i]);
                    }
                }
            },
        }
    }
}

/// The values of every line are well formed.
pub proof fn lemma_line_well_formed(line: Seq<char>)
    ensures
        forall|i: int|
            0 <= i < parse(tokens(line)).len() ==> well_formed(#[trigger] parse(tokens(line))[i]),
{
    lemma_lex_from_tokens(line, 0);
    let stack = tokens(line).reverse();
    assert forall|i: int| 0 <= i < stack.len() implies is_token(#[trigger] stack[i]) by {
        assert(stack[i] == tokens(line)[tokens(line).len() - 1 - i]);
    }
    lemma_parse_level_well_formed(stack, false);
}

/// Groups the tokens of one nesting level: takes them from the top of
/// `lex_input` and puts the values of the level below those already in
/// `parsed_input`.
pub fn parse_stacks(lex_input: &mut Vec<LexItem>, parsed_input: &mut Vec<LexItem>)
    ensures
        final(lex_input).deep_view() == parse_level(old(lex_input).deep_view(), false).1,
        final(parsed_input).deep_view() == parse_level(old(lex_input).deep_view(), false).0 + old(
            parsed_input,
        ).deep_view(),
        final(lex_input).len() <= old(lex_input).len(),
    decreases old(lex_input).len(),
{
    let ghost given = lex_input.deep_view();
    let ghost below = parsed_input.deep_view();
    let ghost mut done: Seq<Value> = Seq::empty();
    let mut quoted = false;
    proof {
        assert(parse_level(given, false).0 + done =~= parse_level(given, false).0);
        assert(done + below =~= below);
    }
    loop
        invariant_except_break
            parsed_input.deep_view() == done + below,
            parse_level(given, false).0 == parse_level(lex_input.deep_view(), quoted).0 + done,
            parse_level(given, false).1 == parse_level(lex_input.deep_view(), quoted).1,
        invariant
            lex_input.len() <= old(lex_input).len(),
        ensures
            lex_input.len() <= old(lex_input).len(),
            parsed_input.deep_view() == parse_level(given, false).0 + below,
            lex_input.deep_view() == parse_level(given, false).1,
        decreases lex_input.len(),
    {
        let ghost tokens = lex_input.deep_view();
        let ghost was_quoted = quoted;
        let ghost before = parsed_input.deep_view();
        let top = match lex_input.pop() {
            Some(t) => t,
            None => {
                proof {
                    assert(parse_level(given, false).0 + below =~= parsed_input.deep_view());
                }
                break;
            },
        };
        proof {
            assert(lex_input.deep_view() =~= tokens.drop_last());
            assert(top.deep_view() == tokens.last());
        }
        let item = match top {
            LexItem::CloseParen => {
                proof {
                    assert(parse_level(given, false).0 + below =~= parsed_input.deep_view());
                }
                break;
            },
            LexItem::Quote => {
                quoted = true;
                continue;
            },
            LexItem::OpenParen => {
                let mut inner: Vec<LexItem> = Vec::new();
                parse_stacks(lex_input, &mut inner);
                proof {
                    lemma_stack_view(inner);
                    lemma_lambda_view(inner);
                    assert(inner.deep_view() =~= parse_level(tokens.drop_last(), false).0);
                }
                if quoted {
                    LexItem::Stack(inner)
                } else {
                    LexItem::Lambda(inner)
                }
            },
            LexItem::Num(n) => {
                if quoted {
                    LexItem::Literal(number_text(n))
                } else {
                    LexItem::Num(n)
                }
            },
            LexItem::Word(w) => {
                if quoted {
                    LexItem::Literal(w)
                } else {
                    LexItem::Word(w)
                }
            },
            other => other,
        };
        quoted = false;
        parsed_input.insert(0, item);
        proof {
            let now = parse_level(lex_input.deep_view(), false).0;
            assert(parsed_input.deep_view() =~= seq![item.deep_view()] + before);
            assert(parse_level(tokens, was_quoted).0 =~= now.push(item.deep_view()));
            done = seq![item.deep_view()] + done;
            assert(parsed_input.deep_view() =~= done + below);
            assert(parse_level(given, false).0 =~= now + done);
        }
    }
}

} // verus!
