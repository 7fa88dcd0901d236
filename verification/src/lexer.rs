//! From a line of text to tokens.

use crate::value::{LexItem, Value};
use vstd::prelude::*;
use vstd::string::*;

verus! {

/// A decimal digit.
pub open spec fn is_digit(c: char) -> bool {
    '0' <= c && c <= '9'
}

/// A letter of the Latin alphabet, capital or small.
pub open spec fn is_letter(c: char) -> bool {
    ('A' <= c && c <= 'Z') || ('a' <= c && c <= 'z')
}

/// White space: a blank, a line feed or a tab.
pub open spec fn is_space(c: char) -> bool {
    c == ' ' || c == '\n' || c == '\t'
}

/// An opening bracket, square or round.
pub open spec fn is_open(c: char) -> bool {
    c == '[' || c == '('
}

/// A closing bracket, square or round.
pub open spec fn is_close(c: char) -> bool {
    c == ']' || c == ')'
}

/// A name begins with a letter, `+` or `#`.
pub open spec fn starts_word(c: char) -> bool {
    is_letter(c) || c == '+' || c == '#'
}

/// A name ends before white space or a closing bracket.
pub open spec fn ends_word(c: char) -> bool {
    is_space(c) || is_close(c)
}

/// The value of a decimal digit.
pub open spec fn digit_value(c: char) -> int {
    c as int - '0' as int
}

/// How many digits stand at `i` and after it, without a gap.
pub open spec fn digit_run(s: Seq<char>, i: int) -> nat
    decreases s.len() - i,
{
    if 0 <= i < s.len() && is_digit(s[i]) {
        1 + digit_run(s, i + 1)
    } else {
        0
    }
}

/// How many characters stand at `i` and after it before a name ends.
pub open spec fn word_run(s: Seq<char>, i: int) -> nat
    decreases s.len() - i,
{
    if 0 <= i < s.len() && !ends_word(s[i]) {
        1 + word_run(s, i + 1)
    } else {
        0
    }
}

/// The number that a sequence of digits writes.
pub open spec fn digits_value(s: Seq<char>) -> nat
    decreases s.len(),
{
    if s.len() == 0 {
        0
    } else {
        (digits_value(s.drop_last()) * 10 + digit_value(s.last())) as nat
    }
}

/// The nearest `i64` to an integer.
pub open spec fn clamp_i64(x: int) -> i64 {
    if x < i64::MIN {
        i64::MIN
    } else if x > i64::MAX {
        i64::MAX
    } else {
        x as i64
    }
}

/// The nearest `usize` to a natural number.
pub open spec fn clamp_usize(x: nat) -> usize {
    if x > usize::MAX {
        usize::MAX
    } else {
        x as usize
    }
}

/// The number that begins at `i`, if one does, and the place after it: a
/// run of digits, or `-` and a run of digits. One too large for an `i64`
/// is the nearest that fits.
pub open spec fn number_at(s: Seq<char>, i: int) -> Option<(i64, int)> {
    if 0 <= i < s.len() && is_digit(s[i]) {
        let e = i + digit_run(s, i);
        Some((clamp_i64(digits_value(s.subrange(i, e)) as int), e))
    } else if 0 <= i && i + 1 < s.len() && s[i] == '-' && is_digit(s[i + 1]) {
        let e = i + 1 + digit_run(s, i + 1);
        Some((clamp_i64(-(digits_value(s.subrange(i + 1, e)) as int)), e))
    } else {
        None
    }
}

/// The character at `i` and those after it up to the end of a name, and
/// the place after them.
pub open spec fn word_at(s: Seq<char>, i: int) -> (Seq<char>, int) {
    if 0 <= i < s.len() {
        let e = i + 1 + word_run(s, i + 1);
        (s.subrange(i, e), e)
    } else {
        (Seq::empty(), i)
    }
}

/// The index that the digits after the character at `i` write, 0 where
/// there are none, and the place after them. An index too large for a
/// `usize` is the largest one.
pub open spec fn parameter_at(s: Seq<char>, i: int) -> (usize, int) {
    if 0 <= i < s.len() {
        let e = i + 1 + digit_run(s, i + 1);
        (clamp_usize(digits_value(s.subrange(i + 1, e))), e)
    } else {
        (0, i)
    }
}

/// The token that begins at `i`, if one does, and the place after what was
/// read.
///
/// - A digit begins a number, which takes all the digits that follow.
///   `-` directly before a digit begins a negative number; any other `-`
///   is the one-character name `-`.
/// - A letter, `+` or `#` begins a name, which runs up to white space or
///   a closing bracket.
/// - `$` and the digits after it are a placeholder if they write a
///   positive index, and are passed over otherwise.
/// - `'` is a quote mark, `[` and `(` open a group, `]` and `)` close one.
/// - White space and every other character are passed over.
pub open spec fn lex_at(s: Seq<char>, i: int) -> (Option<Value>, int) {
    if !(0 <= i < s.len()) {
        (None, i)
    } else if let Some((n, e)) = number_at(s, i) {
        (Some(Value::Number(n)), e)
    } else if s[i] == '-' {
        (Some(Value::Identifier(seq!['-'])), i + 1)
    } else if starts_word(s[i]) {
        (Some(Value::Identifier(word_at(s, i).0)), word_at(s, i).1)
    } else if s[i] == '$' {
        let (index, e) = parameter_at(s, i);
        if index >= 1 {
            (Some(Value::Parameter(index)), e)
        } else {
            (None, e)
        }
    } else if is_open(s[i]) {
        (Some(Value::OpenGroup), i + 1)
    } else if is_close(s[i]) {
        (Some(Value::CloseGroup), i + 1)
    } else if s[i] == '\'' {
        (Some(Value::Quote), i + 1)
    } else {
        (None, i + 1)
    }
}

/// A run of digits ends in the text.
pub proof fn lemma_digit_run_bound(s: Seq<char>, i: int)
    requires
        0 <= i <= s.len(),
    ensures
        i + digit_run(s, i) <= s.len(),
    decreases s.len() - i,
{
    if i < s.len() && is_digit(s[i]) {
        lemma_digit_run_bound(s, i + 1);
    }
}

/// A name ends in the text.
pub proof fn lemma_word_run_bound(s: Seq<char>, i: int)
    requires
        0 <= i <= s.len(),
    ensures
        i + word_run(s, i) <= s.len(),
    decreases s.len() - i,
{
    if i < s.len() && !ends_word(s[i]) {
        lemma_word_run_bound(s, i + 1);
    }
}

/// Reading at a place in the text moves on, and not beyond the end.
pub proof fn lemma_lex_at_advances(s: Seq<char>, i: int)
    requires
        0 <= i < s.len(),
    ensures
        i < lex_at(s, i).1 <= s.len(),
{
    lemma_digit_run_bound(s, i);
    lemma_digit_run_bound(s, i + 1);
    lemma_word_run_bound(s, i + 1);
}

/// The tokens of the text from `i` on, in the order of the text.
pub open spec fn lex_from(s: Seq<char>, i: int) -> Seq<Value>
    decreases s.len() - i,
{
    if !(0 <= i < s.len()) {
        Seq::empty()
    } else {
        let (token, next) = lex_at(s, i);
        proof {
            lemma_lex_at_advances(s, i);
        }
        match token {
            Some(v) => seq![v] + lex_from(s, next),
            None => lex_from(s, next),
        }
    }
}

/// The tokens of a line, in the order of the text.
pub open spec fn tokens(s: Seq<char>) -> Seq<Value> {
    lex_from(s, 0)
}

/// What reading yields: a number, a name, a placeholder with a positive
/// index, a bracket or a quote mark; never a group or a literal.
pub open spec fn is_token(v: Value) -> bool {
    match v {
        Value::Block(_) | Value::Lambda(_) | Value::Literal(_) => false,
        Value::Parameter(p) => p >= 1,
        _ => true,
    }
}

/// Every token of a text is one in the sense of `is_token`: above all,
/// no placeholder has the index 0.
pub proof fn lemma_lex_from_tokens(s: Seq<char>, i: int)
    ensures
        forall|k: int| 0 <= k < lex_from(s, i).len() ==> is_token(#[trigger] lex_from(s, i)[k]),
    decreases s.len() - i,
{
    if 0 <= i < s.len() {
        lemma_lex_at_advances(s, i);
        let (token, next) = lex_at(s, i);
        lemma_lex_from_tokens(s, next);
        assert forall|k: int| 0 <= k < lex_from(s, i).len() implies is_token(
            #[trigger] lex_from(s, i)[k],
        ) by {
            match token {
                Some(v) => {
                    if k > 0 {
                        assert(lex_from(s, i)[k] == lex_from(s, next)[k - 1]);
                    }
                },
                None => {},
            }
        }
    }
}

/// The value of a character as a decimal digit, if it is one.
fn digit_of(c: char) -> (r: Option<u64>)
    ensures
        r == (if is_digit(c) {
            Some(digit_value(c) as u64)
        } else {
            None
        }),
{
    if c >= '0' && c <= '9' {
        Some((c as u64) - 48)
    } else {
        None
    }
}

/// Reads the run of digits at `from`: the place after it and the number
/// it writes, or `u64::MAX` if that is smaller.
fn read_digits(input: &str, from: usize) -> (r: (usize, u64))
    requires
        from <= input@.len(),
    ensures
        r.0 == from + digit_run(input@, from as int),
        r.0 <= input@.len(),
        r.1 == (if digits_value(input@.subrange(from as int, r.0 as int)) > u64::MAX {
            u64::MAX
        } else {
            digits_value(input@.subrange(from as int, r.0 as int)) as u64
        }),
{
    let len = input.unicode_len();
    let mut at: usize = from;
    let mut acc: u64 = 0;
    proof {
        assert(input@.subrange(from as int, from as int) =~= Seq::<char>::empty());
    }
    loop
        invariant
            from <= at <= len,
            len == input@.len(),
            at + digit_run(input@, at as int) == from + digit_run(input@, from as int),
            acc == (if digits_value(input@.subrange(from as int, at as int)) > u64::MAX {
                u64::MAX
            } else {
                digits_value(input@.subrange(from as int, at as int)) as u64
            }),
        ensures
            digit_run(input@, at as int) == 0,
        decreases len - at,
    {
        if at >= len {
            break;
        }
        let c = input.get_char(at);
        let d = match digit_of(c) {
            Some(d) => d,
            None => {
                break;
            },
        };
        proof {
            let seen = input@.subrange(from as int, at as int);
            let more = input@.subrange(from as int, at + 1);
            assert(more.drop_last() =~= seen);
            assert(more.last() == c);
        }
        acc = match acc.checked_mul(10) {
            Some(m) => match m.checked_add(d) {
                Some(v) => v,
                None => u64::MAX,
            },
            None => u64::MAX,
        };
        at += 1;
    }
    (at, acc)
}

/// Reads the number at the place, if one begins there, and moves the
/// place past it.
pub fn lex_number(input: &str, pos: &mut usize) -> (r: Option<i64>)
    ensures
        (match number_at(input@, *old(pos) as int) {
            Some((n, e)) => r == Some(n) && *final(pos) == e,
            None => r is None && *final(pos) == *old(pos),
        }),
{
    let len = input.unicode_len();
    let p = *pos;
    if p >= len {
        return None;
    }
    let c = input.get_char(p);
    if digit_of(c).is_some() {
        let (end, magnitude) = read_digits(input, p);
        *pos = end;
        if magnitude > 0x7fff_ffff_ffff_ffff {
            Some(i64::MAX)
        } else {
            Some(magnitude as i64)
        }
    } else if c == '-' && p + 1 < len && digit_of(input.get_char(p + 1)).is_some() {
        let (end, magnitude) = read_digits(input, p + 1);
        *pos = end;
        if magnitude >= 0x8000_0000_0000_0000 {
            Some(i64::MIN)
        } else {
            Some(-(magnitude as i64))
        }
    } else {
        None
    }
}

/// Passes over the character at the place and reads the index that the
/// digits after it write.
pub fn lex_parameter(input: &str, pos: &mut usize) -> (r: usize)
    ensures
        r == parameter_at(input@, *old(pos) as int).0,
        *final(pos) == parameter_at(input@, *old(pos) as int).1,
{
    let len = input.unicode_len();
    let p = *pos;
    if p >= len {
        return 0;
    }
    let (end, index) = read_digits(input, p + 1);
    *pos = end;
    if index > usize::MAX as u64 {
        usize::MAX
    } else {
        index as usize
    }
}

/// Reads the character at the place and those after it up to the end of a
/// name.
pub fn lex_word(input: &str, pos: &mut usize) -> (r: String)
    ensures
        r@ == word_at(input@, *old(pos) as int).0,
        *final(pos) == word_at(input@, *old(pos) as int).1,
{
    let len = input.unicode_len();
    let p = *pos;
    if p >= len {
        return String::new();
    }
    let mut at: usize = p + 1;
    loop
        invariant
            p < at <= len,
            len == input@.len(),
            at + word_run(input@, at as int) == p + 1 + word_run(input@, p + 1),
        ensures
            word_run(input@, at as int) == 0,
        decreases len - at,
    {
        if at >= len {
            break;
        }
        let c = input.get_char(at);
        if c == ' ' || c == '\n' || c == '\t' || c == ']' || c == ')' {
            break;
        }
        at += 1;
    }
    *pos = at;
    input.substring_char(p, at).to_owned()
}

/// Reads the token at the place, if one begins there, and moves the place
/// on.
pub fn next_lexeme(input: &str, pos: &mut usize) -> (r: Option<LexItem>)
    ensures
        r.deep_view() == lex_at(input@, *old(pos) as int).0,
        *final(pos) == lex_at(input@, *old(pos) as int).1,
{
    let len = input.unicode_len();
    let p = *pos;
    if p >= len {
        return None;
    }
    let c = input.get_char(p);
    match lex_number(input, pos) {
        Some(n) => {
            return Some(LexItem::Num(n));
        },
        None => {},
    }
    if c == '-' {
        *pos = p + 1;
        proof {
            reveal_strlit("-");
        }
        let w = String::from_str("-");
        assert(w@ =~= seq!['-']);
        Some(LexItem::Word(w))
    } else if (c >= 'A' && c <= 'Z') || (c >= 'a' && c <= 'z') || c == '+' || c == '#' {
        let w = lex_word(input, pos);
        Some(LexItem::Word(w))
    } else if c == '$' {
        let index = lex_parameter(input, pos);
        if index >= 1 {
            Some(LexItem::Parameter(index))
        } else {
            None
        }
    } else if c == '[' || c == '(' {
        *pos = p + 1;
        Some(LexItem::OpenParen)
    } else if c == ']' || c == ')' {
        *pos = p + 1;
        Some(LexItem::CloseParen)
    } else if c == '\'' {
        *pos = p + 1;
        Some(LexItem::Quote)
    } else {
        *pos = p + 1;
        None
    }
}

/// The tokens of a line, in the order of the text.
pub fn lex(input: &str) -> (r: Vec<LexItem>)
    ensures
        r.deep_view() == tokens(input@),
{
    let len = input.unicode_len();
    let mut out: Vec<LexItem> = Vec::new();
    let mut pos: usize = 0;
    while pos < len
        invariant
            pos <= len,
            len == input@.len(),
            out.deep_view() + lex_from(input@, pos as int) == tokens(input@),
        decreases len - pos,
    {
        let ghost before = out.deep_view();
        let ghost p = pos as int;
        proof {
            lemma_lex_at_advances(input@, p);
        }
        match next_lexeme(input, &mut pos) {
            Some(token) => {
                out.push(token);
                proof {
                    assert(out.deep_view() =~= before.push(token.deep_view()));
                    assert(out.deep_view() + lex_from(input@, pos as int) =~= before + lex_from(
                        input@,
                        p,
                    ));
                }
            },
            None => {},
        }
    }
    proof {
        assert(out.deep_view() + lex_from(input@, pos as int) =~= out.deep_view());
    }
    out
}

} // verus!
