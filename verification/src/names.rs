//! What the inputs are called.
//!
//! The names themselves belong to the input backend. Whoever calls the library gives the words
//! that a text uses with what each means, and the name of each input that may have to be shown.
use vstd::prelude::*;

use crate::input::{Holdable, Key, Mods};
use crate::text::same;

verus! {

/// What a word stands for.
#[derive(Debug, Clone, Copy, PartialEq, Eq, Structural)]
pub enum Meaning {
    /// An input.
    Input(Holdable),
    /// A name that is set aside for inputs that nothing can send yet.
    Reserved,
}

/// A word with its meaning.
#[derive(Debug)]
pub struct Word {
    pub text: String,
    pub meaning: Meaning,
}

/// An input with the name that it is shown by.
#[derive(Debug)]
pub struct Name {
    pub input: Holdable,
    pub text: String,
}

/// The words and names at hand.
#[derive(Debug)]
pub struct Lexicon {
    /// Words with their meanings; a word that is not here means no input.
    pub words: Vec<Word>,
    /// The name of each input that may have to be shown.
    pub names: Vec<Name>,
    /// The text of each set of modifier classes, in the order of their numbers.
    pub mods: Vec<String>,
}

/// What the first entry for a word says.
pub open spec fn meaning_in(words: Seq<Word>, token: Seq<char>) -> Option<Meaning>
    decreases words.len(),
{
    if words.len() == 0 {
        None
    } else if words[0].text@ == token {
        Some(words[0].meaning)
    } else {
        meaning_in(words.skip(1), token)
    }
}

/// What the first entry for an input says; nothing where there is none.
pub open spec fn name_in(names: Seq<Name>, input: Holdable) -> Seq<char>
    decreases names.len(),
{
    if names.len() == 0 {
        Seq::empty()
    } else if names[0].input == input {
        names[0].text@
    } else {
        name_in(names.skip(1), input)
    }
}

/// The number of a set of modifier classes.
pub open spec fn mods_number(mods: Mods) -> int {
    (if mods.shift {
        1int
    } else {
        0
    }) + (if mods.ctrl {
        2int
    } else {
        0
    }) + (if mods.alt {
        4int
    } else {
        0
    }) + (if mods.ralt {
        8int
    } else {
        0
    }) + (if mods.meta {
        16int
    } else {
        0
    })
}

/// The number of a set of modifier classes.
pub fn number_of_mods(mods: Mods) -> (number: usize)
    ensures
        number == mods_number(mods),
{
    let mut number: usize = 0;
    if mods.shift {
        number += 1;
    }
    if mods.ctrl {
        number += 2;
    }
    if mods.alt {
        number += 4;
    }
    if mods.ralt {
        number += 8;
    }
    if mods.meta {
        number += 16;
    }
    number
}

impl Lexicon {
    /// What a word means.
    pub open spec fn meaning(&self, token: Seq<char>) -> Option<Meaning> {
        meaning_in(self.words@, token)
    }

    /// What an input is called.
    pub open spec fn name(&self, input: Holdable) -> Seq<char> {
        name_in(self.names@, input)
    }

    /// What a set of modifier classes is called; nothing where the text is not given.
    pub open spec fn mods_name(&self, mods: Mods) -> Seq<char> {
        if mods_number(mods) < self.mods@.len() {
            self.mods@[mods_number(mods)]@
        } else {
            Seq::empty()
        }
    }

    /// What a word means.
    pub fn meaning_of(&self, token: &str) -> (r: Option<Meaning>)
        ensures
            r == self.meaning(token@),
    {
        let mut i: usize = 0;
        assert(self.words@.skip(0) =~= self.words@);
        while i < self.words.len()
            invariant
                i <= self.words@.len(),
                self.meaning(token@) == meaning_in(self.words@.skip(i as int), token@),
            decreases self.words@.len() - i,
        {
            if same(self.words[i].text.as_str(), token) {
                return Some(self.words[i].meaning);
            }
            i += 1;
            assert(self.words@.skip(i - 1).skip(1) =~= self.words@.skip(i as int));
        }
        None
    }

    /// What an input is called.
    pub fn name_of(&self, input: Holdable) -> (r: String)
        ensures
            r@ == self.name(input),
    {
        let mut i: usize = 0;
        assert(self.names@.skip(0) =~= self.names@);
        while i < self.names.len()
            invariant
                i <= self.names@.len(),
                self.name(input) == name_in(self.names@.skip(i as int), input),
            decreases self.names@.len() - i,
        {
            if self.names[i].input == input {
                return self.names[i].text.clone();
            }
            i += 1;
            assert(self.names@.skip(i - 1).skip(1) =~= self.names@.skip(i as int));
        }
        String::new()
    }

    /// What a set of modifier classes is called.
    pub fn mods_name_of(&self, mods: Mods) -> (r: String)
        ensures
            r@ == self.mods_name(mods),
    {
        let number = number_of_mods(mods);
        if number < self.mods.len() {
            self.mods[number].clone()
        } else {
            String::new()
        }
    }
}

/// The names of a list of keys.
pub open spec fn key_names(lexicon: &Lexicon, keys: Seq<Key>) -> Seq<Seq<char>> {
    keys.map_values(|key: Key| lexicon.name(Holdable::Key(key)))
}

/// The names of a list of keys.
pub fn names_of(lexicon: &Lexicon, keys: &Vec<Key>) -> (out: Vec<String>)
    ensures
        crate::text::texts(out@) == key_names(lexicon, keys@),
{
    let mut out: Vec<String> = Vec::new();
    let mut i: usize = 0;
    while i < keys.len()
        invariant
            i <= keys@.len(),
            crate::text::texts(out@) == key_names(lexicon, keys@).take(i as int),
        decreases keys@.len() - i,
    {
        let ghost before = crate::text::texts(out@);
        let name = lexicon.name_of(Holdable::Key(keys[i]));
        out.push(name);
        i += 1;
        assert(crate::text::texts(out@) =~= before.push(name@));
        assert(key_names(lexicon, keys@).take(i as int) =~= before.push(name@));
    }
    assert(key_names(lexicon, keys@).take(keys@.len() as int) =~= key_names(lexicon, keys@));
    out
}

/// A word means what its first entry says, and a word without an entry means nothing.
pub proof fn law_a_word_means_what_its_first_entry_says(
    words: Seq<Word>,
    token: Seq<char>,
    at: int,
)
    requires
        0 <= at <= words.len(),
        forall|i: int| 0 <= i < at ==> (#[trigger] words[i]).text@ != token,
        at < words.len() ==> words[at].text@ == token,
    ensures
        at < words.len() ==> meaning_in(words, token) == Some(words[at].meaning),
        at == words.len() ==> meaning_in(words, token) is None,
    decreases words.len(),
{
    if at > 0 {
        assert(words[0].text@ != token);
        let rest = words.skip(1);
        assert forall|i: int| 0 <= i < at - 1 implies (#[trigger] rest[i]).text@ != token by {
            assert(rest[i] == words[i + 1]);
        }
        law_a_word_means_what_its_first_entry_says(rest, token, at - 1);
    }
}

/// An input is shown by the name of its first entry, and one without an entry by nothing.
pub proof fn law_an_input_is_shown_by_its_first_name(names: Seq<Name>, input: Holdable, at: int)
    requires
        0 <= at <= names.len(),
        forall|i: int| 0 <= i < at ==> (#[trigger] names[i]).input != input,
        at < names.len() ==> names[at].input == input,
    ensures
        at < names.len() ==> name_in(names, input) == names[at].text@,
        at == names.len() ==> name_in(names, input) == Seq::<char>::empty(),
    decreases names.len(),
{
    if at > 0 {
        assert(names[0].input != input);
        let rest = names.skip(1);
        assert forall|i: int| 0 <= i < at - 1 implies (#[trigger] rest[i]).input != input by {
            assert(rest[i] == names[i + 1]);
        }
        law_an_input_is_shown_by_its_first_name(rest, input, at - 1);
    }
}

/// Each set of modifier classes has a number of its own below thirty-two: that of the empty set is
/// zero, and each class adds its power of two.
pub proof fn law_each_set_of_classes_has_its_number(a: Mods, b: Mods)
    ensures
        0 <= mods_number(a) < 32,
        mods_number(a) == mods_number(b) ==> a == b,
        mods_number(crate::input::no_mods()) == 0,
        !a.shift ==> mods_number(Mods { shift: true, ..a }) == mods_number(a) + 1,
        !a.ctrl ==> mods_number(Mods { ctrl: true, ..a }) == mods_number(a) + 2,
        !a.alt ==> mods_number(Mods { alt: true, ..a }) == mods_number(a) + 4,
        !a.ralt ==> mods_number(Mods { ralt: true, ..a }) == mods_number(a) + 8,
        !a.meta ==> mods_number(Mods { meta: true, ..a }) == mods_number(a) + 16,
{
}

} // verus!
