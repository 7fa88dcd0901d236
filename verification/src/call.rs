//! Activations: words that are being invoked, their bound arguments and
//! what the actions make of them.

use crate::value::{lemma_lambda_view, lemma_stack_view, Expectation, LexItem, Value};
use crate::word::{definition, Action, Definition, Word};
use vstd::prelude::*;
use vstd::string::*;

verus! {

/// Why the evaluation of a line was given up.
#[derive(Debug, Clone, Copy, PartialEq, Eq, Structural)]
pub enum EvalError {
    /// A word was applied although an argument that it needs was not
    /// bound.
    StackUnderflow,
}

/// The mathematical model of a [`Parameter`].
pub struct Binding {
    pub name: usize,
    pub value: Value,
}

/// An argument that an activation has bound. Its name is its place in
/// the order of binding, from 1: the placeholder `$2` stands for the
/// argument named 2.
#[derive(Debug, PartialEq)]
pub struct Parameter {
    pub name: usize,
    pub value: LexItem,
}

impl DeepView for Parameter {
    type V = Binding;

    open spec fn deep_view(&self) -> Binding {
        Binding { name: self.name, value: self.value.deep_view() }
    }
}

/// The mathematical model of a [`Call`].
pub struct Activation {
    pub name: Seq<char>,
    pub action: Action,
    pub arity: usize,
    /// In the order of binding.
    pub arguments: Seq<Binding>,
    /// A stack: the kind that is asked for next is the last.
    pub expectations: Seq<Expectation>,
    /// A stack: the last is met first when the results are run.
    pub results: Seq<Value>,
    pub substitution: Option<Value>,
}

/// A word that is being invoked.
#[derive(Debug, PartialEq)]
pub struct Call {
    pub name: String,
    pub action: Action,
    pub arity: usize,
    /// In the order of binding.
    pub arguments: Vec<Parameter>,
    /// A stack: the kind that is asked for next is the last.
    pub expectations: Vec<Expectation>,
    /// A stack: the last is met first when the results are run.
    pub results: Vec<LexItem>,
    pub substitution: Option<LexItem>,
}

impl DeepView for Call {
    type V = Activation;

    open spec fn deep_view(&self) -> Activation {
        Activation {
            name: self.name@,
            action: self.action,
            arity: self.arity,
            arguments: self.arguments.deep_view(),
            expectations: self.expectations@,
            results: self.results.deep_view(),
            substitution: self.substitution.deep_view(),
        }
    }
}

/// The activation with which the invocation of a word begins: nothing
/// bound, all its expectations open.
pub open spec fn activation(word: Definition) -> Activation {
    Activation {
        name: word.name,
        action: word.action,
        arity: word.arity,
        arguments: Seq::empty(),
        expectations: word.expectations,
        results: Seq::empty(),
        substitution: word.substitution,
    }
}

/// The name under which the next argument is bound: one more than the
/// number of those bound.
pub open spec fn next_name(bound: nat) -> usize {
    if bound < usize::MAX {
        (bound + 1) as usize
    } else {
        usize::MAX
    }
}

/// The activation after it has bound a value: the value is its newest
/// argument, and the expectation that was due, if one was, is gone.
pub open spec fn bound(a: Activation, v: Value) -> Activation {
    Activation {
        arguments: a.arguments.push(Binding { name: next_name(a.arguments.len()), value: v }),
        expectations: if a.expectations.len() > 0 {
            a.expectations.drop_last()
        } else {
            a.expectations
        },
        ..a
    }
}

/// The place of the first argument from `from` on that has the name, or
/// the number of arguments where there is none.
pub open spec fn first_bound(arguments: Seq<Binding>, name: usize, from: int) -> int
    decreases arguments.len() - from,
{
    if from < 0 || from >= arguments.len() {
        arguments.len() as int
    } else if arguments[from].name == name {
        from
    } else {
        first_bound(arguments, name, from + 1)
    }
}

/// The value of the argument that has the name, if one has.
pub open spec fn operand(arguments: Seq<Binding>, name: usize) -> Option<Value> {
    let i = first_bound(arguments, name, 0);
    if i < arguments.len() {
        Some(arguments[i].value)
    } else {
        None
    }
}

/// What an argument makes of a value: its own value if the value is the
/// placeholder of its name.
pub open spec fn reduced(a: Binding, v: Value) -> Option<Value> {
    match v {
        Value::Parameter(p) => if a.name == p {
            Some(a.value)
        } else {
            None
        },
        _ => None,
    }
}

/// An item of a template with the arguments filled in: a placeholder
/// whose argument is bound becomes that argument's value; every other
/// item, a nested group too, stays as it is.
pub open spec fn filled(v: Value, arguments: Seq<Binding>) -> Value {
    match v {
        Value::Parameter(p) => match operand(arguments, p) {
            Some(x) => x,
            None => v,
        },
        _ => v,
    }
}

/// The items of a template with the arguments filled in, item by item.
pub open spec fn substitute(items: Seq<Value>, arguments: Seq<Binding>) -> Seq<Value> {
    Seq::new(items.len(), |i: int| filled(items[i], arguments))
}

/// The results of an activation after its template has been applied:
/// what the template yields, in place of whatever the activation held.
/// A word that takes no arguments yields its template as it is: the
/// items of a lambda, any other value itself. A word that takes
/// arguments yields the items of its lambda with the arguments filled
/// in, and nothing where its template is no lambda. Without a template
/// the results stay as they are.
pub open spec fn template_results(a: Activation) -> Seq<Value> {
    match a.substitution {
        None => a.results,
        Some(template) => if a.arity > 0 {
            match template {
                Value::Lambda(items) => substitute(items, a.arguments),
                _ => Seq::empty(),
            }
        } else {
            match template {
                Value::Lambda(items) => items,
                _ => seq![template],
            }
        },
    }
}

/// The arguments without the one that has the name: without the first,
/// where several have it; all of them, where none has.
pub open spec fn without(arguments: Seq<Binding>, name: usize) -> Seq<Binding> {
    let i = first_bound(arguments, name, 0);
    if i < arguments.len() {
        arguments.remove(i)
    } else {
        arguments
    }
}

/// The arguments that are left when `+`, `-` or `#` has taken the two
/// that it reads.
pub open spec fn without_two(arguments: Seq<Binding>) -> Seq<Binding> {
    without(without(arguments, 1), 2)
}

/// The arguments that are left when `if` has taken the three that it
/// reads.
pub open spec fn without_three(arguments: Seq<Binding>) -> Seq<Binding> {
    without(without(without(arguments, 1), 2), 3)
}

/// Whether a value counts as true: a number other than 0.
pub open spec fn truthy(v: Value) -> bool {
    match v {
        Value::Number(n) => n != 0,
        _ => false,
    }
}

/// The sum of two numbers in 64 bits: it wraps round at the ends of the
/// range.
pub open spec fn wrapped_sum(a: i64, b: i64) -> i64 {
    if a + b > i64::MAX {
        (a + b - 0x1_0000_0000_0000_0000) as i64
    } else if a + b < i64::MIN {
        (a + b + 0x1_0000_0000_0000_0000) as i64
    } else {
        (a + b) as i64
    }
}

/// The difference of two numbers in 64 bits: it wraps round at the ends
/// of the range.
pub open spec fn wrapped_difference(a: i64, b: i64) -> i64 {
    if a - b > i64::MAX {
        (a - b - 0x1_0000_0000_0000_0000) as i64
    } else if a - b < i64::MIN {
        (a - b + 0x1_0000_0000_0000_0000) as i64
    } else {
        (a - b) as i64
    }
}

/// The item of a block that an index picks. A positive index counts from
/// the top of the block, 1 being the top; a negative one from the bottom,
/// -1 being the bottom. Any other index, and any index of a value that is
/// no block, picks nothing.
pub open spec fn extracted(block: Value, index: Value) -> Option<Value> {
    match (block, index) {
        (Value::Block(items), Value::Number(i)) => if 0 < i <= items.len() {
            Some(items[items.len() - i])
        } else if -items.len() <= i < 0 {
            Some(items[-i - 1])
        } else {
            None
        },
        _ => None,
    }
}

/// What `+` yields of the arguments named 1 and 2: their sum where both
/// are numbers, nothing where one is of another kind. `None` where one
/// is not bound.
pub open spec fn sum_results(arguments: Seq<Binding>) -> Option<Seq<Value>> {
    match (operand(arguments, 1), operand(arguments, 2)) {
        (Some(Value::Number(a)), Some(Value::Number(b))) => Some(
            seq![Value::Number(wrapped_sum(a, b))],
        ),
        (Some(_), Some(_)) => Some(Seq::empty()),
        _ => None,
    }
}

/// What `-` yields of the arguments named 1 and 2: the first less the
/// second where both are numbers, nothing where one is of another kind.
/// `None` where one is not bound.
pub open spec fn difference_results(arguments: Seq<Binding>) -> Option<Seq<Value>> {
    match (operand(arguments, 1), operand(arguments, 2)) {
        (Some(Value::Number(a)), Some(Value::Number(b))) => Some(
            seq![Value::Number(wrapped_difference(a, b))],
        ),
        (Some(_), Some(_)) => Some(Seq::empty()),
        _ => None,
    }
}

/// What `if` yields of the arguments named 1, 2 and 3: the second where
/// the first counts as true, the third otherwise. `None` where one is
/// not bound.
pub open spec fn choice_results(arguments: Seq<Binding>) -> Option<Seq<Value>> {
    match (operand(arguments, 1), operand(arguments, 2), operand(arguments, 3)) {
        (Some(predicate), Some(first), Some(second)) => Some(
            seq![if truthy(predicate) {
                first
            } else {
                second
            }],
        ),
        _ => None,
    }
}

/// What `#` yields of the arguments named 1 and 2: the item of the first
/// that the second picks, or nothing. `None` where one is not bound.
pub open spec fn extract_results(arguments: Seq<Binding>) -> Option<Seq<Value>> {
    match (operand(arguments, 1), operand(arguments, 2)) {
        (Some(block), Some(index)) => Some(
            match extracted(block, index) {
                Some(item) => seq![item],
                None => Seq::empty(),
            },
        ),
        _ => None,
    }
}

/// The word that `define` makes of the arguments named 1 and 2: the one
/// that is a name names the word, the other is its template. Of two
/// names the second names the word. Where neither is a name no word is
/// made.
pub open spec fn definition_of(first: Value, second: Value) -> Option<Definition> {
    match (first, second) {
        (_, Value::Identifier(name)) => Some(definition(name, Action::Substitution, Some(first))),
        (Value::Identifier(name), _) => Some(definition(name, Action::Substitution, Some(second))),
        _ => None,
    }
}

/// What a `first_bound` from the beginning finds is what one from `from`
/// finds, if no earlier argument has the name.
pub proof fn lemma_first_bound_from(arguments: Seq<Binding>, name: usize, from: int)
    requires
        0 <= from <= arguments.len(),
        forall|j: int| 0 <= j < from ==> arguments[j].name != name,
    ensures
        first_bound(arguments, name, 0) == first_bound(arguments, name, from),
    decreases from,
{
    if from > 0 {
        lemma_first_bound_from(arguments, name, from - 1);
    }
}

/// The argument that `operand` finds for a placeholder is one that
/// reduces the placeholder, and no earlier argument does.
pub proof fn lemma_operand_reduces(arguments: Seq<Binding>, p: usize)
    ensures
        operand(arguments, p) is Some ==> {
            let i = first_bound(arguments, p, 0);
            &&& 0 <= i < arguments.len()
            &&& reduced(arguments[i], Value::Parameter(p)) == operand(arguments, p)
            &&& forall|j: int| 0 <= j < i ==> reduced(arguments[j], Value::Parameter(p)) is None
        },
        operand(arguments, p) is None ==> forall|j: int|
            0 <= j < arguments.len() ==> reduced(arguments[j], Value::Parameter(p)) is None,
{
    lemma_first_bound(arguments, p, 0);
}

/// What `first_bound` finds has the name, and nothing before it has.
pub proof fn lemma_first_bound(arguments: Seq<Binding>, name: usize, from: int)
    requires
        0 <= from <= arguments.len(),
    ensures
        from <= first_bound(arguments, name, from) <= arguments.len(),
        first_bound(arguments, name, from) < arguments.len() ==> arguments[first_bound(
            arguments,
            name,
            from,
        )].name == name,
        forall|j: int| from <= j < first_bound(arguments, name, from) ==> arguments[j].name != name,
    decreases arguments.len() - from,
{
    if from < arguments.len() && arguments[from].name != name {
        lemma_first_bound(arguments, name, from + 1);
    }
}

/// The place that no argument of the name stands before, and that holds
/// one or is the end, is the place that `first_bound` finds.
pub proof fn lemma_first_bound_is(arguments: Seq<Binding>, name: usize, k: int)
    requires
        0 <= k <= arguments.len(),
        forall|j: int| 0 <= j < k ==> arguments[j].name != name,
        k < arguments.len() ==> arguments[k].name == name,
    ensures
        first_bound(arguments, name, 0) == k,
{
    lemma_first_bound_from(arguments, name, k);
}

/// To take the argument of one name leaves the arguments of every other
/// name what they were: the one that `operand` finds for the other name
/// is the same before and after.
pub proof fn lemma_without_keeps(arguments: Seq<Binding>, name: usize, other: usize)
    requires
        name != other,
    ensures
        operand(without(arguments, name), other) == operand(arguments, other),
{
    lemma_first_bound(arguments, name, 0);
    lemma_first_bound(arguments, other, 0);
    let i = first_bound(arguments, name, 0);
    let k = first_bound(arguments, other, 0);
    if i < arguments.len() {
        let left = arguments.remove(i);
        if k < i {
            lemma_first_bound_is(left, other, k);
        } else if k < arguments.len() {
            assert forall|j: int| 0 <= j < k - 1 implies left[j].name != other by {
                if j >= i {
                    assert(left[j] == arguments[j + 1]);
                }
            }
            assert(left[k - 1] == arguments[k]);
            lemma_first_bound_is(left, other, k - 1);
        } else {
            assert forall|j: int| 0 <= j < left.len() implies left[j].name != other by {
                if j >= i {
                    assert(left[j] == arguments[j + 1]);
                }
            }
            lemma_first_bound_is(left, other, left.len() as int);
        }
    }
}

/// What an action takes are the arguments that it reads: those that
/// `operand` finds for the names 1 and 2, and 3, in the arguments as
/// they were before any was taken.
pub proof fn lemma_taken_are_read(arguments: Seq<Binding>)
    ensures
        operand(without(arguments, 1), 2) == operand(arguments, 2),
        operand(without(without(arguments, 1), 2), 3) == operand(arguments, 3),
        operand(arguments, 1) is Some ==> without(arguments, 1).len() == arguments.len() - 1,
        operand(arguments, 1) is Some && operand(arguments, 2) is Some ==> without_two(
            arguments,
        ).len() == arguments.len() - 2,
        operand(arguments, 1) is Some && operand(arguments, 2) is Some && operand(arguments, 3)
            is Some ==> without_three(arguments).len() == arguments.len() - 3,
{
    lemma_without_keeps(arguments, 1, 2);
    lemma_without_keeps(arguments, 1, 3);
    lemma_without_keeps(without(arguments, 1), 2, 3);
    lemma_first_bound(arguments, 1, 0);
    lemma_first_bound(without(arguments, 1), 2, 0);
    lemma_first_bound(without(without(arguments, 1), 2), 3, 0);
}

/// Filling in is shallow: it keeps the number and the order of the
/// items, replaces a placeholder among them by the argument of its name,
/// and leaves every other item as it is, a group with the placeholders
/// inside it too.
pub proof fn lemma_substitute_shallow(items: Seq<Value>, arguments: Seq<Binding>)
    ensures
        substitute(items, arguments).len() == items.len(),
        forall|i: int|
            0 <= i < items.len() && !(#[trigger] items[i] is Parameter) ==> substitute(
                items,
                arguments,
            )[i] == items[i],
        forall|i: int|
            0 <= i < items.len() && #[trigger] items[i] is Parameter ==> substitute(
                items,
                arguments,
            )[i] == (match operand(arguments, items[i]->Parameter_0) {
                Some(x) => x,
                None => items[i],
            }),
{
}

/// The ends of a block: the index 1 picks its top, the index -1 its
/// bottom; 0 and the index one beyond its length pick nothing.
pub proof fn lemma_extract_ends(items: Seq<Value>)
    requires
        0 < items.len() < i64::MAX,
    ensures
        extracted(Value::Block(items), Value::Number(1i64)) == Some(items.last()),
        extracted(Value::Block(items), Value::Number(-1i64)) == Some(items.first()),
        extracted(Value::Block(items), Value::Number(0i64)) is None,
        extracted(Value::Block(items), Value::Number((items.len() + 1) as i64)) is None,
        extracted(Value::Block(items), Value::Number((-items.len() - 1) as i64)) is None,
{
}

/// The activation with which the invocation of a word begins.
pub fn make_call(word: &Word) -> (r: Call)
    ensures
        r.deep_view() == activation(word.deep_view()),
{
    let sub = match &word.substitution {
        Some(s) => Some(s.clone()),
        None => None,
    };
    let r = Call {
        name: word.name.clone(),
        action: word.action,
        arity: word.arity,
        arguments: Vec::new(),
        expectations: word.expectations.clone(),
        results: Vec::new(),
        substitution: sub,
    };
    proof {
        assert(r.arguments.deep_view() =~= Seq::empty());
        assert(r.results.deep_view() =~= Seq::empty());
        assert(r.expectations@ =~= word.expectations@);
    }
    r
}

/// The place of the argument that has the name, if one has.
pub fn find_argument(arguments: &Vec<Parameter>, name: usize) -> (r: Option<usize>)
    ensures
        (match r {
            Some(i) => i < arguments.len() && i == first_bound(arguments.deep_view(), name, 0),
            None => first_bound(arguments.deep_view(), name, 0) == arguments.len(),
        }),
{
    let ghost model = arguments.deep_view();
    let mut i: usize = 0;
    while i < arguments.len()
        invariant
            i <= arguments.len(),
            model == arguments.deep_view(),
            first_bound(model, name, 0) == first_bound(model, name, i as int),
        decreases arguments.len() - i,
    {
        assert(model[i as int] == arguments[i as int].deep_view());
        if arguments[i].name == name {
            return Some(i);
        }
        i += 1;
    }
    None
}

/// The value of the argument that has the name, if one has.
pub fn argument_value(arguments: &Vec<Parameter>, name: usize) -> (r: Option<&LexItem>)
    ensures
        r.deep_view() == operand(arguments.deep_view(), name),
{
    match find_argument(arguments, name) {
        Some(i) => {
            assert(arguments.deep_view()[i as int] == arguments[i as int].deep_view());
            Some(&arguments[i].value)
        },
        None => None,
    }
}

/// What an argument makes of an item: its own value if the item is the
/// placeholder of its name.
pub fn parameter_reduce<'a>(a: &'a Parameter, l: &'a LexItem) -> (r: Option<&'a LexItem>)
    ensures
        r.deep_view() == reduced(a.deep_view(), l.deep_view()),
{
    match l {
        LexItem::Parameter(p) => {
            if a.name == *p {
                Some(&a.value)
            } else {
                None
            }
        },
        _ => None,
    }
}

/// The value that the placeholder of an index stands for in an
/// activation: that of the argument named so, if one is.
pub fn action_parameter(call: &Call, index: usize) -> (r: Option<LexItem>)
    ensures
        r.deep_view() == operand(call.deep_view().arguments, index),
{
    match argument_value(&call.arguments, index) {
        Some(v) => Some(v.clone()),
        None => None,
    }
}

/// Whether an item counts as true: a number other than 0.
pub fn check_conditional(l: &LexItem) -> (r: bool)
    ensures
        r == truthy(l.deep_view()),
{
    match l {
        LexItem::Num(n) => *n != 0,
        _ => false,
    }
}

/// The action of a word that does nothing.
pub fn action_none(call: &mut Call)
    ensures
        final(call).deep_view() == old(call).deep_view(),
{
}

/// Takes the argument that has the name, if one has.
pub fn take_argument(arguments: &mut Vec<Parameter>, name: usize) -> (r: Option<LexItem>)
    ensures
        r.deep_view() == operand(old(arguments).deep_view(), name),
        final(arguments).deep_view() == without(old(arguments).deep_view(), name),
{
    match find_argument(arguments, name) {
        Some(i) => {
            let ghost before = arguments.deep_view();
            assert(before[i as int] == arguments[i as int].deep_view());
            let taken = arguments.remove(i);
            assert(arguments.deep_view() =~= before.remove(i as int));
            Some(taken.value)
        },
        None => None,
    }
}

/// Whether the arguments named 1 to `count` are all bound.
pub fn has_arguments(arguments: &Vec<Parameter>, count: usize) -> (r: bool)
    ensures
        r == (forall|name: usize|
            1 <= name <= count ==> (#[trigger] operand(arguments.deep_view(), name)) is Some),
{
    let mut name: usize = 0;
    while name < count
        invariant
            name <= count,
            forall|n: usize|
                1 <= n <= name ==> (#[trigger] operand(arguments.deep_view(), n)) is Some,
        decreases count - name,
    {
        name += 1;
        if find_argument(arguments, name).is_none() {
            assert(operand(arguments.deep_view(), name) is None);
            return false;
        }
    }
    true
}

/// The action of `+`. It takes the two arguments that it reads.
pub fn action_add(call: &mut Call) -> (r: Result<(), EvalError>)
    ensures
        (match sum_results(old(call).deep_view().arguments) {
            Some(made) => r is Ok && final(call).deep_view() == (Activation {
                arguments: without_two(old(call).deep_view().arguments),
                results: old(call).deep_view().results + made,
                ..old(call).deep_view()
            }),
            None => r == Err::<(), EvalError>(EvalError::StackUnderflow)
                && final(call).deep_view() == old(call).deep_view(),
        }),
        r is Ok ==> final(call).arguments.len() == old(call).arguments.len() - 2,
{
    if !has_arguments(&call.arguments, 2) {
        return Err(EvalError::StackUnderflow);
    }
    proof {
        lemma_taken_are_read(call.arguments.deep_view());
    }
    let a = take_argument(&mut call.arguments, 1).unwrap();
    let b = take_argument(&mut call.arguments, 2).unwrap();
    match (a, b) {
        (LexItem::Num(x), LexItem::Num(y)) => {
            let sum = x.wrapping_add(y);
            call.results.push(LexItem::Num(sum));
            assert(call.results.deep_view() =~= old(call).results.deep_view() + seq![
                Value::Number(wrapped_sum(x, y)),
            ]);
        },
        _ => {
            assert(call.results.deep_view() =~= old(call).results.deep_view() + Seq::empty());
        },
    }
    Ok(())
}

/// The action of `-`. It takes the two arguments that it reads.
pub fn action_subtract(call: &mut Call) -> (r: Result<(), EvalError>)
    ensures
        (match difference_results(old(call).deep_view().arguments) {
            Some(made) => r is Ok && final(call).deep_view() == (Activation {
                arguments: without_two(old(call).deep_view().arguments),
                results: old(call).deep_view().results + made,
                ..old(call).deep_view()
            }),
            None => r == Err::<(), EvalError>(EvalError::StackUnderflow)
                && final(call).deep_view() == old(call).deep_view(),
        }),
        r is Ok ==> final(call).arguments.len() == old(call).arguments.len() - 2,
{
    if !has_arguments(&call.arguments, 2) {
        return Err(EvalError::StackUnderflow);
    }
    proof {
        lemma_taken_are_read(call.arguments.deep_view());
    }
    let a = take_argument(&mut call.arguments, 1).unwrap();
    let b = take_argument(&mut call.arguments, 2).unwrap();
    match (a, b) {
        (LexItem::Num(x), LexItem::Num(y)) => {
            let difference = x.wrapping_sub(y);
            call.results.push(LexItem::Num(difference));
            assert(call.results.deep_view() =~= old(call).results.deep_view() + seq![
                Value::Number(wrapped_difference(x, y)),
            ]);
        },
        _ => {
            assert(call.results.deep_view() =~= old(call).results.deep_view() + Seq::empty());
        },
    }
    Ok(())
}

/// The action of `if`. It takes the three arguments that it reads.
pub fn action_if(call: &mut Call) -> (r: Result<(), EvalError>)
    ensures
        (match choice_results(old(call).deep_view().arguments) {
            Some(made) => r is Ok && final(call).deep_view() == (Activation {
                arguments: without_three(old(call).deep_view().arguments),
                results: old(call).deep_view().results + made,
                ..old(call).deep_view()
            }),
            None => r == Err::<(), EvalError>(EvalError::StackUnderflow)
                && final(call).deep_view() == old(call).deep_view(),
        }),
        r is Ok ==> final(call).arguments.len() == old(call).arguments.len() - 3,
{
    if !has_arguments(&call.arguments, 3) {
        return Err(EvalError::StackUnderflow);
    }
    proof {
        lemma_taken_are_read(call.arguments.deep_view());
    }
    let conditional = take_argument(&mut call.arguments, 1).unwrap();
    let if_clause = take_argument(&mut call.arguments, 2).unwrap();
    let else_clause = take_argument(&mut call.arguments, 3).unwrap();
    let chosen = if check_conditional(&conditional) {
        if_clause
    } else {
        else_clause
    };
    call.results.push(chosen);
    assert(call.results.deep_view() =~= old(call).results.deep_view() + seq![chosen.deep_view()]);
    Ok(())
}

/// The item of a block that an index picks, if it picks one.
pub fn extract(block: &LexItem, index: &LexItem) -> (r: Option<LexItem>)
    ensures
        r.deep_view() == extracted(block.deep_view(), index.deep_view()),
{
    match (block, index) {
        (LexItem::Stack(s), LexItem::Num(i)) => {
            proof {
                lemma_stack_view(*s);
            }
            let n = s.len();
            let i = *i;
            if i > 0 && (i as u64) <= (n as u64) {
                let at = n - (i as usize);
                assert(s.deep_view()[at as int] == s[at as int].deep_view());
                Some(s[at].clone())
            } else if i < 0 && ((-(i + 1)) as u64) < (n as u64) {
                let at = (-(i + 1)) as usize;
                assert(s.deep_view()[at as int] == s[at as int].deep_view());
                Some(s[at].clone())
            } else {
                None
            }
        },
        _ => None,
    }
}

/// The action of `#`. It takes the two arguments that it reads.
pub fn action_extract(call: &mut Call) -> (r: Result<(), EvalError>)
    ensures
        (match extract_results(old(call).deep_view().arguments) {
            Some(made) => r is Ok && final(call).deep_view() == (Activation {
                arguments: without_two(old(call).deep_view().arguments),
                results: old(call).deep_view().results + made,
                ..old(call).deep_view()
            }),
            None => r == Err::<(), EvalError>(EvalError::StackUnderflow)
                && final(call).deep_view() == old(call).deep_view(),
        }),
        r is Ok ==> final(call).arguments.len() == old(call).arguments.len() - 2,
{
    if !has_arguments(&call.arguments, 2) {
        return Err(EvalError::StackUnderflow);
    }
    proof {
        lemma_taken_are_read(call.arguments.deep_view());
    }
    let block = take_argument(&mut call.arguments, 1).unwrap();
    let index = take_argument(&mut call.arguments, 2).unwrap();
    match extract(&block, &index) {
        Some(item) => {
            call.results.push(item);
            assert(call.results.deep_view() =~= old(call).results.deep_view() + seq![
                item.deep_view(),
            ]);
        },
        None => {
            assert(call.results.deep_view() =~= old(call).results.deep_view() + Seq::empty());
        },
    }
    Ok(())
}

/// The word that `define` makes of its two arguments, if it makes one.
pub fn make_definition(first: &LexItem, second: &LexItem) -> (r: Option<Word>)
    ensures
        r.deep_view() == definition_of(first.deep_view(), second.deep_view()),
{
    match (first, second) {
        (_, LexItem::Word(w)) => Some(
            Word::make_word(w.clone(), Action::Substitution, Some(first.clone())),
        ),
        (LexItem::Word(w), _) => Some(
            Word::make_word(w.clone(), Action::Substitution, Some(second.clone())),
        ),
        _ => None,
    }
}

/// The items of a template with the arguments filled in.
pub fn substituted(items: &Vec<LexItem>, arguments: &Vec<Parameter>) -> (r: Vec<LexItem>)
    ensures
        r.deep_view() == substitute(items.deep_view(), arguments.deep_view()),
{
    let mut out: Vec<LexItem> = Vec::new();
    let mut i: usize = 0;
    while i < items.len()
        invariant
            i <= items.len(),
            out.len() == i,
            forall|j: int|
                0 <= j < i ==> out[j].deep_view() == filled(
                    #[trigger] items[j].deep_view(),
                    arguments.deep_view(),
                ),
        decreases items.len() - i,
    {
        let value = match &items[i] {
            LexItem::Parameter(p) => match argument_value(arguments, *p) {
                Some(v) => v.clone(),
                None => LexItem::Parameter(*p),
            },
            other => other.clone(),
        };
        out.push(value);
        i += 1;
    }
    assert(out.deep_view() =~= substitute(items.deep_view(), arguments.deep_view()));
    out
}

/// The action of a word that is made of a template: what the template
/// yields takes the place of the results. The template is used up.
pub fn action_substitution(call: &mut Call)
    ensures
        final(call).deep_view() == (Activation {
            results: template_results(old(call).deep_view()),
            substitution: None,
            ..old(call).deep_view()
        }),
{
    let sub = call.substitution.take();
    match sub {
        None => {},
        Some(template) => {
            if call.arity > 0 {
                match template {
                    LexItem::Lambda(s) => {
                        proof {
                            lemma_lambda_view(s);
                        }
                        call.results = substituted(&s, &call.arguments);
                    },
                    _ => {
                        call.results = Vec::new();
                        assert(call.results.deep_view() =~= Seq::empty());
                    },
                }
            } else {
                match template {
                    LexItem::Lambda(s) => {
                        proof {
                            lemma_lambda_view(s);
                        }
                        call.results = s;
                    },
                    other => {
                        let mut made: Vec<LexItem> = Vec::new();
                        made.push(other);
                        assert(made.deep_view() =~= seq![other.deep_view()]);
                        call.results = made;
                    },
                }
            }
        },
    }
}

impl Call {
    /// Binds a value as the newest argument and closes the expectation
    /// that is due.
    pub fn bind(&mut self, value: LexItem)
        ensures
            final(self).deep_view() == bound(old(self).deep_view(), value.deep_view()),
    {
        let name = match self.arguments.len().checked_add(1) {
            Some(n) => n,
            None => usize::MAX,
        };
        self.expectations.pop();
        self.arguments.push(Parameter { name, value });
        proof {
            assert(self.arguments.deep_view() =~= old(self).arguments.deep_view().push(
                Binding { name, value: value.deep_view() },
            ));
            if old(self).expectations@.len() > 0 {
                assert(self.expectations@ =~= old(self).expectations@.drop_last());
            }
        }
    }
}

} // verus!
