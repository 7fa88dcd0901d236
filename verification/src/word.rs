//! Words and the table that holds them.

use crate::value::{arity_of, expectations_of, Expectation, LexItem, Value};
use vstd::prelude::*;

verus! {

/// What a word does when it is applied.
#[derive(Debug, Clone, Copy, PartialEq, Eq, Structural)]
pub enum Action {
    /// Nothing at all.
    Nothing,
    /// The sum of two numbers.
    Add,
    /// The first number less the second.
    Subtract,
    /// One of two values, chosen by a number.
    If,
    /// A new word in the table.
    Define,
    /// One item of a block.
    Extract,
    /// The word's template, with its placeholders filled.
    Substitution,
}

/// The mathematical model of a [`Word`].
pub struct Definition {
    pub name: Seq<char>,
    pub arity: usize,
    pub action: Action,
    pub substitution: Option<Value>,
    /// A stack: the kind that is asked for first is the last.
    pub expectations: Seq<Expectation>,
}

/// A named unit that can be invoked: built in, or made of a template.
#[derive(Debug, PartialEq)]
pub struct Word {
    pub name: String,
    pub arity: usize,
    pub action: Action,
    pub substitution: Option<LexItem>,
    /// A stack: the kind that is asked for first is the last.
    pub expectations: Vec<Expectation>,
}

impl DeepView for Word {
    type V = Definition;

    open spec fn deep_view(&self) -> Definition {
        Definition {
            name: self.name@,
            arity: self.arity,
            action: self.action,
            substitution: self.substitution.deep_view(),
            expectations: self.expectations@,
        }
    }
}

/// The word of a name, an action and possibly a template. With a
/// template the word takes as many arguments as the template's largest
/// placeholder says, each of the generic kind; without one it takes none.
pub open spec fn definition(name: Seq<char>, action: Action, substitution: Option<Value>)
    -> Definition {
    Definition {
        name,
        arity: match substitution {
            Some(v) => arity_of(v),
            None => 0,
        },
        action,
        substitution,
        expectations: match substitution {
            Some(v) => expectations_of(v),
            None => Seq::empty(),
        },
    }
}

/// The place of the first word from `from` on that has the name, or the
/// length of the table where there is none.
pub open spec fn first_named(words: Seq<Definition>, name: Seq<char>, from: int) -> int
    decreases words.len() - from,
{
    if from < 0 || from >= words.len() {
        words.len() as int
    } else if words[from].name == name {
        from
    } else {
        first_named(words, name, from + 1)
    }
}

/// The word that a name stands for: the first in the table with that
/// name.
pub open spec fn lookup(words: Seq<Definition>, name: Seq<char>) -> Option<Definition> {
    let i = first_named(words, name, 0);
    if i < words.len() {
        Some(words[i])
    } else {
        None
    }
}

/// The table after a word has been defined: the word stands in the place
/// of the one that its name stood for, or at the end where the name was
/// free.
pub open spec fn defined(words: Seq<Definition>, word: Definition) -> Seq<Definition> {
    let i = first_named(words, word.name, 0);
    if i < words.len() {
        words.update(i, word)
    } else {
        words.push(word)
    }
}

/// `+`: two numbers.
pub open spec fn builtin_add() -> Definition {
    Definition {
        name: seq!['+'],
        arity: 2,
        action: Action::Add,
        substitution: None,
        expectations: seq![Expectation::Num, Expectation::Num],
    }
}

/// `-`: two numbers.
pub open spec fn builtin_subtract() -> Definition {
    Definition {
        name: seq!['-'],
        arity: 2,
        action: Action::Subtract,
        substitution: None,
        expectations: seq![Expectation::Num, Expectation::Num],
    }
}

/// `if`: first a number, then two data.
pub open spec fn builtin_if() -> Definition {
    Definition {
        name: seq!['i', 'f'],
        arity: 3,
        action: Action::If,
        substitution: None,
        expectations: seq![Expectation::Any, Expectation::Any, Expectation::Num],
    }
}

/// `define`: first a datum, then a name.
pub open spec fn builtin_define() -> Definition {
    Definition {
        name: seq!['d', 'e', 'f', 'i', 'n', 'e'],
        arity: 2,
        action: Action::Define,
        substitution: None,
        expectations: seq![Expectation::Word, Expectation::Any],
    }
}

/// `#`: first a block, then a number.
pub open spec fn builtin_extract() -> Definition {
    Definition {
        name: seq!['#'],
        arity: 2,
        action: Action::Extract,
        substitution: None,
        expectations: seq![Expectation::Num, Expectation::Stack],
    }
}

/// The table with the five built-in words defined in it.
pub open spec fn with_builtins(words: Seq<Definition>) -> Seq<Definition> {
    defined(
        defined(
            defined(defined(defined(words, builtin_add()), builtin_subtract()), builtin_if()),
            builtin_define(),
        ),
        builtin_extract(),
    )
}

/// What a search from the beginning finds is what one from `from` finds,
/// if no earlier word has the name.
pub proof fn lemma_first_named_from(words: Seq<Definition>, name: Seq<char>, from: int)
    requires
        0 <= from <= words.len(),
        forall|j: int| 0 <= j < from ==> words[j].name != name,
    ensures
        first_named(words, name, 0) == first_named(words, name, from),
    decreases from,
{
    if from > 0 {
        lemma_first_named_from(words, name, from - 1);
    }
}

/// What `first_named` finds has the name, and nothing before it has.
pub proof fn lemma_first_named(words: Seq<Definition>, name: Seq<char>, from: int)
    requires
        0 <= from <= words.len(),
    ensures
        from <= first_named(words, name, from) <= words.len(),
        first_named(words, name, from) < words.len() ==> words[first_named(
            words,
            name,
            from,
        )].name == name,
        forall|j: int| from <= j < first_named(words, name, from) ==> words[j].name != name,
    decreases words.len() - from,
{
    if from < words.len() && words[from].name != name {
        lemma_first_named(words, name, from + 1);
    }
}

/// The place that no word of the name stands before, and that holds one
/// or is the end of the table, is the place that `first_named` finds.
pub proof fn lemma_first_named_is(words: Seq<Definition>, name: Seq<char>, k: int)
    requires
        0 <= k <= words.len(),
        forall|j: int| 0 <= j < k ==> words[j].name != name,
        k < words.len() ==> words[k].name == name,
    ensures
        first_named(words, name, 0) == k,
{
    lemma_first_named_from(words, name, k);
}

/// After a word has been defined its name stands for it, and every other
/// name stands for what it stood for before.
pub proof fn lemma_defined_lookup(words: Seq<Definition>, word: Definition)
    ensures
        lookup(defined(words, word), word.name) == Some(word),
        forall|name: Seq<char>|
            name != word.name ==> lookup(defined(words, word), name) == lookup(words, name),
{
    let after = defined(words, word);
    let i = first_named(words, word.name, 0);
    lemma_first_named(words, word.name, 0);
    lemma_first_named_is(after, word.name, i);
    assert forall|name: Seq<char>| name != word.name implies lookup(after, name) == lookup(
        words,
        name,
    ) by {
        let k = first_named(words, name, 0);
        lemma_first_named(words, name, 0);
        if k < words.len() {
            lemma_first_named_is(after, name, k);
        } else {
            lemma_first_named_is(after, name, after.len() as int);
        }
    }
}

/// A word that is defined under a name which is taken stands in the
/// place of the earlier one: the name stands for the later word only.
pub proof fn lemma_redefinition_shadows(
    words: Seq<Definition>,
    first: Definition,
    second: Definition,
)
    requires
        first.name == second.name,
    ensures
        lookup(defined(defined(words, first), second), first.name) == Some(second),
        defined(defined(words, first), second) == defined(words, second),
{
    let once = defined(words, first);
    lemma_defined_lookup(once, second);
    let i = first_named(words, first.name, 0);
    lemma_first_named(words, first.name, 0);
    lemma_first_named_is(once, first.name, i);
    assert(defined(once, second) =~= defined(words, second));
}

/// The five built-in words have five names.
pub proof fn lemma_builtin_names_differ()
    ensures
        builtin_add().name != builtin_subtract().name,
        builtin_add().name != builtin_if().name,
        builtin_add().name != builtin_define().name,
        builtin_add().name != builtin_extract().name,
        builtin_subtract().name != builtin_if().name,
        builtin_subtract().name != builtin_define().name,
        builtin_subtract().name != builtin_extract().name,
        builtin_if().name != builtin_define().name,
        builtin_if().name != builtin_extract().name,
        builtin_define().name != builtin_extract().name,
{
    assert(builtin_add().name != builtin_subtract().name) by {
        assert(builtin_add().name[0] != builtin_subtract().name[0]);
    }
    assert(builtin_add().name != builtin_if().name) by {
        assert(builtin_add().name.len() != builtin_if().name.len());
    }
    assert(builtin_add().name != builtin_define().name) by {
        assert(builtin_add().name.len() != builtin_define().name.len());
    }
    assert(builtin_add().name != builtin_extract().name) by {
        assert(builtin_add().name[0] != builtin_extract().name[0]);
    }
    assert(builtin_subtract().name != builtin_if().name) by {
        assert(builtin_subtract().name.len() != builtin_if().name.len());
    }
    assert(builtin_subtract().name != builtin_define().name) by {
        assert(builtin_subtract().name.len() != builtin_define().name.len());
    }
    assert(builtin_subtract().name != builtin_extract().name) by {
        assert(builtin_subtract().name[0] != builtin_extract().name[0]);
    }
    assert(builtin_if().name != builtin_define().name) by {
        assert(builtin_if().name.len() != builtin_define().name.len());
    }
    assert(builtin_if().name != builtin_extract().name) by {
        assert(builtin_if().name.len() != builtin_extract().name.len());
    }
    assert(builtin_define().name != builtin_extract().name) by {
        assert(builtin_define().name.len() != builtin_extract().name.len());
    }
}

/// A table in which no name occurs twice: every name stands for at most
/// one word, as in a map from names to words.
pub open spec fn unique_names(words: Seq<Definition>) -> bool {
    forall|i: int, j: int|
        0 <= i < j < words.len() ==> (#[trigger] words[i]).name != (#[trigger] words[j]).name
}

/// To define a word keeps the names of a table apart.
pub proof fn lemma_defined_unique(words: Seq<Definition>, word: Definition)
    requires
        unique_names(words),
    ensures
        unique_names(defined(words, word)),
{
    let after = defined(words, word);
    let k = first_named(words, word.name, 0);
    lemma_first_named(words, word.name, 0);
    assert forall|i: int, j: int| 0 <= i < j < after.len() implies (#[trigger] after[i]).name != (
    #[trigger] after[j]).name by {
        if k < words.len() {
            assert(after[i].name == words[i].name);
            assert(after[j].name == words[j].name);
        } else if j < words.len() {
            assert(after[i] == words[i]);
            assert(after[j] == words[j]);
        } else {
            assert(after[i] == words[i]);
        }
    }
}

/// To define the built-in words keeps the names of a table apart.
pub proof fn lemma_with_builtins_unique(words: Seq<Definition>)
    requires
        unique_names(words),
    ensures
        unique_names(with_builtins(words)),
{
    let a = defined(words, builtin_add());
    let b = defined(a, builtin_subtract());
    let c = defined(b, builtin_if());
    let d = defined(c, builtin_define());
    lemma_defined_unique(words, builtin_add());
    lemma_defined_unique(a, builtin_subtract());
    lemma_defined_unique(b, builtin_if());
    lemma_defined_unique(c, builtin_define());
    lemma_defined_unique(d, builtin_extract());
}

/// In a table in which no name occurs twice a name stands for a word
/// exactly if the word is in the table under that name.
pub proof fn lemma_unique_lookup(words: Seq<Definition>, i: int)
    requires
        unique_names(words),
        0 <= i < words.len(),
    ensures
        lookup(words, words[i].name) == Some(words[i]),
{
    lemma_first_named(words, words[i].name, 0);
}

/// To define the built-in words where they are defined already changes
/// nothing.
pub proof fn lemma_with_builtins_twice(words: Seq<Definition>)
    ensures
        with_builtins(with_builtins(words)) == with_builtins(words),
{
    let a = defined(words, builtin_add());
    let b = defined(a, builtin_subtract());
    let c = defined(b, builtin_if());
    let d = defined(c, builtin_define());
    let e = defined(d, builtin_extract());
    lemma_defined_lookup(words, builtin_add());
    lemma_defined_lookup(a, builtin_subtract());
    lemma_defined_lookup(b, builtin_if());
    lemma_defined_lookup(c, builtin_define());
    lemma_defined_lookup(d, builtin_extract());
    lemma_builtin_names_differ();
    lemma_defined_same(e, builtin_add());
    lemma_defined_same(e, builtin_subtract());
    lemma_defined_same(e, builtin_if());
    lemma_defined_same(e, builtin_define());
    lemma_defined_same(e, builtin_extract());
}

/// To define a word under the name that stands for it already changes
/// nothing.
pub proof fn lemma_defined_same(words: Seq<Definition>, word: Definition)
    requires
        lookup(words, word.name) == Some(word),
    ensures
        defined(words, word) == words,
{
    lemma_first_named(words, word.name, 0);
    assert(defined(words, word) =~= words);
}

impl Word {
    /// A word of a name, an action and possibly a template.
    pub fn make_word(name: String, action: Action, substitution: Option<LexItem>) -> (r: Word)
        ensures
            r.deep_view() == definition(name@, action, substitution.deep_view()),
    {
        let expectations = match &substitution {
            Some(s) => s.get_expectations(),
            None => Vec::new(),
        };
        let arity = match &substitution {
            Some(s) => s.get_arity(),
            None => 0,
        };
        Word { name, arity, action, substitution, expectations }
    }

    /// Sets the expectations anew from the template, where there is one.
    pub fn setup_expectations(&mut self)
        ensures
            final(self).deep_view() == (Definition {
                expectations: match old(self).deep_view().substitution {
                    Some(v) => expectations_of(v),
                    None => old(self).deep_view().expectations,
                },
                ..old(self).deep_view()
            }),
    {
        match &self.substitution {
            Some(s) => {
                let e = s.get_expectations();
                self.expectations = e;
            },
            None => {},
        }
    }
}

/// The place of the word that a name stands for.
pub fn find_word(words: &Vec<Word>, name: &String) -> (r: Option<usize>)
    ensures
        (match r {
            Some(i) => i < words.len() && i == first_named(words.deep_view(), name@, 0),
            None => first_named(words.deep_view(), name@, 0) == words.len(),
        }),
{
    let ghost model = words.deep_view();
    let mut i: usize = 0;
    while i < words.len()
        invariant
            i <= words.len(),
            model == words.deep_view(),
            first_named(model, name@, 0) == first_named(model, name@, i as int),
        decreases words.len() - i,
    {
        assert(model[i as int] == words[i as int].deep_view());
        if words[i].name == *name {
            return Some(i);
        }
        i += 1;
    }
    None
}

/// Defines a word: in the place of the one that its name stood for, or at
/// the end of the table.
pub fn insert_word(words: &mut Vec<Word>, word: Word)
    ensures
        final(words).deep_view() == defined(old(words).deep_view(), word.deep_view()),
{
    match find_word(words, &word.name) {
        Some(i) => {
            words.set(i, word);
            assert(words.deep_view() =~= old(words).deep_view().update(i as int, word.deep_view()));
        },
        None => {
            words.push(word);
            assert(words.deep_view() =~= old(words).deep_view().push(word.deep_view()));
        },
    }
}

} // verus!
