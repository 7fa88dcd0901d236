//! The values of the language and their mathematical model.

use vstd::prelude::*;

verus! {

/// What a [`LexItem`] stands for. Sequences are held as stacks: the last
/// element is the logical top, the one that is met first when the
/// sequence is run.
pub enum Value {
    /// A bare name, to be looked up or defined.
    Identifier(Seq<char>),
    /// A signed 64-bit integer.
    Number(i64),
    /// The placeholder `$n`.
    Parameter(usize),
    /// Quoted, inert data.
    Block(Seq<Value>),
    /// An executable group, possibly a template with placeholders.
    Lambda(Seq<Value>),
    /// A quoted atom, kept as text.
    Literal(Seq<char>),
    /// An opening bracket, before grouping.
    OpenGroup,
    /// A closing bracket, before grouping.
    CloseGroup,
    /// A quote mark, before grouping.
    Quote,
}

/// A token of the lexer, a grouped value of the parser, or a result of
/// evaluation.
#[derive(Debug, PartialEq)]
pub enum LexItem {
    Word(String),
    OpenParen,
    CloseParen,
    Num(i64),
    Parameter(usize),
    Stack(Vec<LexItem>),
    Lambda(Vec<LexItem>),
    Literal(String),
    Quote,
}

impl DeepView for LexItem {
    type V = Value;

    open spec fn deep_view(&self) -> Value
        decreases self,
    {
        match self {
            LexItem::Word(w) => Value::Identifier(w@),
            LexItem::OpenParen => Value::OpenGroup,
            LexItem::CloseParen => Value::CloseGroup,
            LexItem::Num(n) => Value::Number(*n),
            LexItem::Parameter(p) => Value::Parameter(*p),
            LexItem::Stack(s) => Value::Block(
                Seq::new(
                    s@.len(),
                    |i: int|
                        if 0 <= i < s@.len() {
                            s@[i].deep_view()
                        } else {
                            Value::Quote
                        },
                ),
            ),
            LexItem::Lambda(s) => Value::Lambda(
                Seq::new(
                    s@.len(),
                    |i: int|
                        if 0 <= i < s@.len() {
                            s@[i].deep_view()
                        } else {
                            Value::Quote
                        },
                ),
            ),
            LexItem::Literal(t) => Value::Literal(t@),
            LexItem::Quote => Value::Quote,
        }
    }
}

/// A block stands for the block of what its items stand for.
pub proof fn lemma_stack_view(s: Vec<LexItem>)
    ensures
        LexItem::Stack(s).deep_view() == Value::Block(s.deep_view()),
{
    reveal_with_fuel(<LexItem as DeepView>::deep_view, 2);
    assert(LexItem::Stack(s).deep_view()->Block_0 =~= s.deep_view());
}

/// A lambda stands for the lambda of what its items stand for.
pub proof fn lemma_lambda_view(s: Vec<LexItem>)
    ensures
        LexItem::Lambda(s).deep_view() == Value::Lambda(s.deep_view()),
{
    reveal_with_fuel(<LexItem as DeepView>::deep_view, 2);
    assert(LexItem::Lambda(s).deep_view()->Lambda_0 =~= s.deep_view());
}

/// A copy of a sequence of items, item by item.
pub fn clone_items(items: &Vec<LexItem>) -> (r: Vec<LexItem>)
    ensures
        r.deep_view() == items.deep_view(),
    decreases items,
{
    let mut out: Vec<LexItem> = Vec::new();
    let mut i: usize = 0;
    while i < items.len()
        invariant
            i <= items.len(),
            out.len() == i,
            forall|j: int| 0 <= j < i ==> out[j].deep_view() == items[j].deep_view(),
        decreases items.len() - i,
    {
        let c = items[i].clone();
        out.push(c);
        i += 1;
    }
    assert(out.deep_view() =~= items.deep_view());
    out
}

impl Clone for LexItem {
    fn clone(&self) -> (r: Self)
        ensures
            r.deep_view() == self.deep_view(),
        decreases self,
    {
        match self {
            LexItem::Word(w) => LexItem::Word(w.clone()),
            LexItem::OpenParen => LexItem::OpenParen,
            LexItem::CloseParen => LexItem::CloseParen,
            LexItem::Num(n) => LexItem::Num(*n),
            LexItem::Parameter(p) => LexItem::Parameter(*p),
            LexItem::Stack(s) => {
                let c = clone_items(s);
                proof {
                    lemma_stack_view(*s);
                    lemma_stack_view(c);
                }
                LexItem::Stack(c)
            },
            LexItem::Lambda(s) => {
                let c = clone_items(s);
                proof {
                    lemma_lambda_view(*s);
                    lemma_lambda_view(c);
                }
                LexItem::Lambda(c)
            },
            LexItem::Literal(t) => LexItem::Literal(t.clone()),
            LexItem::Quote => LexItem::Quote,
        }
    }
}

/// The kind of value that an activation still asks for.
#[derive(Debug, Clone, Copy, PartialEq, Eq, Structural)]
pub enum Expectation {
    Num,
    Literal,
    Stack,
    Lambda,
    /// Any datum: a number, a block, a literal or a lambda.
    Any,
    Word,
    Parameter,
    /// A number, a block or a literal: what a placeholder of a template
    /// takes.
    NumStaLit,
}

/// Whether a value is of the kind that an expectation asks for. Names and
/// placeholders are data only to the expectation of their own kind;
/// brackets and quote marks are never data.
pub open spec fn satisfies(e: Expectation, v: Value) -> bool {
    match e {
        Expectation::Num => v is Number,
        Expectation::Literal => v is Literal,
        Expectation::Stack => v is Block,
        Expectation::Lambda => v is Lambda,
        Expectation::Any => v is Number || v is Block || v is Literal || v is Lambda,
        Expectation::Word => v is Identifier,
        Expectation::Parameter => v is Parameter,
        Expectation::NumStaLit => v is Number || v is Block || v is Literal,
    }
}

/// The largest placeholder index among the items themselves (not inside
/// nested groups), or 0 where there is none.
pub open spec fn max_parameter(items: Seq<Value>) -> usize
    decreases items.len(),
{
    if items.len() == 0 {
        0
    } else {
        let rest = max_parameter(items.drop_last());
        match items.last() {
            Value::Parameter(p) => if p > rest {
                p
            } else {
                rest
            },
            _ => rest,
        }
    }
}

/// The number of arguments that a value takes when it is run: for a lambda
/// its largest placeholder, so that `$3` alone asks for three; for anything
/// else none.
pub open spec fn arity_of(v: Value) -> usize {
    match v {
        Value::Lambda(items) => max_parameter(items),
        _ => 0,
    }
}

/// The expectations of a value that is run as a word: one generic
/// expectation for each argument.
pub open spec fn expectations_of(v: Value) -> Seq<Expectation> {
    Seq::new(arity_of(v) as nat, |i: int| Expectation::NumStaLit)
}

/// Whether `p` is the index of a placeholder among the items themselves.
pub open spec fn has_parameter(items: Seq<Value>, p: usize) -> bool {
    items.contains(Value::Parameter(p))
}

/// `max_parameter` bounds every placeholder among the items, and is one of
/// them unless it is 0.
pub proof fn lemma_max_parameter(items: Seq<Value>)
    ensures
        forall|p: usize| has_parameter(items, p) ==> p <= max_parameter(items),
        max_parameter(items) > 0 ==> has_parameter(items, max_parameter(items)),
    decreases items.len(),
{
    if items.len() > 0 {
        let front = items.drop_last();
        lemma_max_parameter(front);
        assert forall|p: usize| has_parameter(items, p) implies p <= max_parameter(items) by {
            let i = choose|i: int| 0 <= i < items.len() && items[i] == Value::Parameter(p);
            if i < items.len() - 1 {
                assert(front[i] == Value::Parameter(p));
                assert(has_parameter(front, p));
            } else {
                assert(items.last() == Value::Parameter(p));
            }
        }
        if max_parameter(items) > 0 {
            let m = max_parameter(items);
            if items.last() == Value::Parameter(m) {
                assert(items[items.len() - 1] == Value::Parameter(m));
            } else {
                assert(has_parameter(front, m));
                let i = choose|i: int| 0 <= i < front.len() && front[i] == Value::Parameter(m);
                assert(items[i] == Value::Parameter(m));
            }
        }
    }
}

/// Whether an item is of the kind that an expectation asks for.
pub fn meets(e: Expectation, item: &LexItem) -> (r: bool)
    ensures
        r == satisfies(e, item.deep_view()),
{
    match (e, item) {
        (Expectation::Num, LexItem::Num(_)) => true,
        (Expectation::Literal, LexItem::Literal(_)) => true,
        (Expectation::Stack, LexItem::Stack(_)) => true,
        (Expectation::Lambda, LexItem::Lambda(_)) => true,
        (Expectation::Any, LexItem::Num(_)) => true,
        (Expectation::Any, LexItem::Stack(_)) => true,
        (Expectation::Any, LexItem::Literal(_)) => true,
        (Expectation::Any, LexItem::Lambda(_)) => true,
        (Expectation::Word, LexItem::Word(_)) => true,
        (Expectation::Parameter, LexItem::Parameter(_)) => true,
        (Expectation::NumStaLit, LexItem::Num(_)) => true,
        (Expectation::NumStaLit, LexItem::Stack(_)) => true,
        (Expectation::NumStaLit, LexItem::Literal(_)) => true,
        _ => false,
    }
}

/// The largest placeholder index among the items themselves.
pub fn largest_parameter(items: &Vec<LexItem>) -> (r: usize)
    ensures
        r == max_parameter(items.deep_view()),
{
    let ghost model = items.deep_view();
    let mut best: usize = 0;
    let mut i: usize = 0;
    while i < items.len()
        invariant
            i <= items.len(),
            model == items.deep_view(),
            best == max_parameter(model.take(i as int)),
        decreases items.len() - i,
    {
        proof {
            assert(model.take(i + 1).drop_last() =~= model.take(i as int));
            assert(model.take(i + 1).last() == items[i as int].deep_view());
        }
        match &items[i] {
            LexItem::Parameter(p) => {
                if *p > best {
                    best = *p;
                }
            },
            _ => {},
        }
        i += 1;
    }
    proof {
        assert(model.take(i as int) =~= model);
    }
    best
}

impl LexItem {
    /// The number, if this is one.
    #[allow(non_snake_case)]
    pub fn get_Num(&self) -> (r: Option<i64>)
        ensures
            r == (match self.deep_view() {
                Value::Number(n) => Some(n),
                _ => None,
            }),
    {
        match self {
            LexItem::Num(n) => Some(*n),
            _ => None,
        }
    }

    /// The name, if this is an identifier.
    #[allow(non_snake_case)]
    pub fn get_Word(&self) -> (r: Option<String>)
        ensures
            r.deep_view() == (match self.deep_view() {
                Value::Identifier(w) => Some(w),
                _ => None,
            }),
    {
        match self {
            LexItem::Word(w) => Some(w.clone()),
            _ => None,
        }
    }

    /// The number of arguments that this value takes when it is run.
    pub fn get_arity(&self) -> (r: usize)
        ensures
            r == arity_of(self.deep_view()),
    {
        match self {
            LexItem::Lambda(s) => {
                proof {
                    lemma_lambda_view(*s);
                }
                largest_parameter(s)
            },
            _ => 0,
        }
    }

    /// The placeholder indices among a lambda's own items, each once, in
    /// rising order; `None` for anything but a lambda.
    pub fn get_parameters(&self) -> (r: Option<Vec<usize>>)
        ensures
            self.deep_view() is Lambda <==> r is Some,
            (r matches Some(v) ==> {
                &&& forall|i: int, j: int| 0 <= i < j < v.len() ==> v[i] < v[j]
                &&& forall|p: usize|
                    v@.contains(p) <==> has_parameter(self.deep_view()->Lambda_0, p)
            }),
    {
        match self {
            LexItem::Lambda(s) => {
                proof {
                    lemma_lambda_view(*s);
                }
                let ghost model = s.deep_view();
                let mut found: Vec<usize> = Vec::new();
                let mut i: usize = 0;
                while i < s.len()
                    invariant
                        i <= s.len(),
                        model == s.deep_view(),
                        forall|a: int, b: int| 0 <= a < b < found.len() ==> found[a] < found[b],
                        forall|p: usize|
                            found@.contains(p) <==> has_parameter(model.take(i as int), p),
                    decreases s.len() - i,
                {
                    let ghost before = found@;
                    let ghost seen = model.take(i as int);
                    let ghost next = model.take(i + 1);
                    proof {
                        assert(next =~= seen.push(model[i as int]));
                        assert(model[i as int] == s[i as int].deep_view());
                    }
                    match &s[i] {
                        LexItem::Parameter(p) => {
                            let at = insert_sorted(&mut found, *p);
                            proof {
                                assert forall|q: usize|
                                    found@.contains(q) <==> has_parameter(next, q) by {
                                    lemma_contains_push(seen, model[i as int], Value::Parameter(q));
                                }
                            }
                        },
                        _ => {
                            proof {
                                assert forall|q: usize|
                                    found@.contains(q) <==> has_parameter(next, q) by {
                                    lemma_contains_push(seen, model[i as int], Value::Parameter(q));
                                }
                            }
                        },
                    }
                    i += 1;
                }
                proof {
                    assert(model.take(i as int) =~= model);
                }
                Some(found)
            },
            _ => None,
        }
    }

    /// The expectations with which this value is run as a word.
    pub fn get_expectations(&self) -> (r: Vec<Expectation>)
        ensures
            r@ == expectations_of(self.deep_view()),
    {
        let n = self.get_arity();
        let mut exp: Vec<Expectation> = Vec::new();
        let mut i: usize = 0;
        while i < n
            invariant
                i <= n,
                exp@ == Seq::new(i as nat, |k: int| Expectation::NumStaLit),
            decreases n - i,
        {
            exp.push(Expectation::NumStaLit);
            i += 1;
            assert(exp@ =~= Seq::new(i as nat, |k: int| Expectation::NumStaLit));
        }
        exp
    }
}

/// An element is in `s.push(x)` exactly if it is `x` or in `s`.
pub proof fn lemma_contains_push<A>(s: Seq<A>, x: A, y: A)
    ensures
        s.push(x).contains(y) <==> (s.contains(y) || x == y),
{
    if s.contains(y) {
        let i = choose|i: int| 0 <= i < s.len() && s[i] == y;
        assert(s.push(x)[i] == y);
    }
    if x == y {
        assert(s.push(x)[s.len() as int] == y);
    }
    if s.push(x).contains(y) {
        let i = choose|i: int| 0 <= i < s.push(x).len() && s.push(x)[i] == y;
        if i < s.len() {
            assert(s[i] == y);
        }
    }
}

/// Puts `p` into a strictly rising sequence at its place, unless it is
/// there already. Returns the place.
fn insert_sorted(v: &mut Vec<usize>, p: usize) -> (at: usize)
    requires
        forall|i: int, j: int| 0 <= i < j < old(v).len() ==> old(v)[i] < old(v)[j],
    ensures
        forall|i: int, j: int| 0 <= i < j < final(v).len() ==> final(v)[i] < final(v)[j],
        forall|q: usize| final(v)@.contains(q) <==> (old(v)@.contains(q) || q == p),
        at < final(v).len(),
        final(v)[at as int] == p,
{
    let mut j: usize = 0;
    while j < v.len() && v[j] < p
        invariant
            j <= v.len(),
            *v == *old(v),
            forall|k: int| 0 <= k < j ==> v[k] < p,
        decreases v.len() - j,
    {
        j += 1;
    }
    if j < v.len() && v[j] == p {
        proof {
            assert forall|q: usize| v@.contains(q) <==> (old(v)@.contains(q) || q == p) by {
                if q == p {
                    assert(v@[j as int] == p);
                }
            }
        }
        return j;
    }
    let ghost before = v@;
    v.insert(j, p);
    proof {
        assert forall|a: int, b: int| 0 <= a < b < v.len() implies v[a] < v[b] by {
            if a < j && b > j {
                assert(before[a] < p);
                assert(p < before[j as int]);
                assert(before[j as int] <= before[b - 1]);
            }
        }
        assert forall|q: usize| v@.contains(q) <==> (before.contains(q) || q == p) by {
            if q == p {
                assert(v@[j as int] == p);
            }
            if before.contains(q) {
                let i = choose|i: int| 0 <= i < before.len() && before[i] == q;
                if i < j {
                    assert(v@[i] == q);
                } else {
                    assert(v@[i + 1] == q);
                }
            }
            if v@.contains(q) {
                let i = choose|i: int| 0 <= i < v@.len() && v@[i] == q;
                if i < j {
                    assert(before[i] == q);
                } else if i > j {
                    assert(before[i - 1] == q);
                }
            }
        }
    }
    j
}

} // verus!
