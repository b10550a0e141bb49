//! Rewriting a binds file in the house style.
//!
//! The file is read and written by `toml_edit`, which keeps every comment and all that is not
//! changed. The steps of each sequence are handed to [`super::tidy`] and put back. What comes of it
//! is read again before it is handed out: a file is only ever replaced by one that holds the tidied
//! sequences with all their comments, and that is tidy itself.
use toml_edit::{DocumentMut, Item, RawString, Value};
use vstd::prelude::*;

use crate::names::Lexicon;
use crate::text::{chars_of, same};

use super::slots::text_of_option;
use super::tidy::{
    all_strings, rewrite, tidy_steps, tidy_text, ArrayText, SeqArray, SeqStep, TidyArray, TidyText,
};
use super::tidy_laws::{every_comment, law_tidying_keeps_every_comment, written};

verus! {

/// The table of a binds file that holds its sections.
pub const SECTIONS: &'static str = "binds";

/// The field of a section that holds a sequence.
pub const SEQUENCE: &'static str = "seq";

// ------------------------------------------------------------------------------ the document

/// A section as it stands in the file: its key, and its sequence if it has one.
pub type SectionText = (Seq<char>, Option<ArrayText>);

/// A sequence to be written, with the key of its section.
pub type RewriteText = (Seq<char>, TidyText);

/// A section as it stands in the file.
#[derive(Debug)]
pub struct Section {
    pub key: String,
    pub array: Option<SeqArray>,
}

/// A sequence to be written.
#[derive(Debug)]
pub struct Rewrite {
    pub key: String,
    pub tidy: TidyArray,
}

impl View for Section {
    type V = SectionText;

    open spec fn view(&self) -> SectionText {
        (
            self.key@,
            match self.array {
                Some(array) => Some(array@),
                None => None,
            },
        )
    }
}

impl View for Rewrite {
    type V = RewriteText;

    open spec fn view(&self) -> RewriteText {
        (self.key@, self.tidy@)
    }
}

/// The mathematical values of a list of sections.
pub open spec fn sections_view(sections: Seq<Section>) -> Seq<SectionText> {
    sections.map_values(|section: Section| section@)
}

/// The mathematical values of a list of rewrites.
pub open spec fn rewrites_view(rewrites: Seq<Rewrite>) -> Seq<RewriteText> {
    rewrites.map_values(|rewrite: Rewrite| rewrite@)
}

/// The entries of a table of a document, each with its array under a field: `None` where the text is
/// no TOML or has no such table.
pub uninterp spec fn field_arrays(
    text: Seq<char>,
    table: Seq<char>,
    field: Seq<char>,
) -> Option<Seq<SectionText>>;

/// A document with arrays under a field of entries of a table replaced: `None` where the text is no
/// TOML, or has no such array.
pub uninterp spec fn with_field_arrays(
    text: Seq<char>,
    table: Seq<char>,
    field: Seq<char>,
    rewrites: Seq<RewriteText>,
    trailing_comma: bool,
) -> Option<Seq<char>>;

/// How long the run of a character is that ends before place `n`.
pub open spec fn run_at(s: Seq<char>, c: char, n: int) -> nat
    decreases n,
{
    if n <= 0 || s[n - 1] != c {
        0
    } else {
        1 + run_at(s, c, n - 1)
    }
}

/// Whether no run of quotes in a text is longer than the writer of TOML strings counts.
pub open spec fn runs_fit(s: Seq<char>) -> bool {
    forall|n: int|
        0 <= n <= s.len() ==> #[trigger] run_at(s, '\'', n) <= 255 && run_at(s, '"', n) <= 255
}

/// Whether every step of a tidy sequence can be written.
pub open spec fn steps_fit(tidy: TidyText) -> bool {
    forall|i: int| 0 <= i < tidy.0.len() ==> runs_fit((#[trigger] tidy.0[i]).1)
}

/// Whether every rewritten sequence can be written.
pub open spec fn all_fit(rewrites: Seq<RewriteText>) -> bool {
    forall|i: int| 0 <= i < rewrites.len() ==> steps_fit((#[trigger] rewrites[i]).1)
}

/// Reads the arrays of a document.
///
/// Stands for `toml_edit`: `DocumentMut` is parsed from the text, and of the table each entry's array
/// under the field is taken, in the order of the table, its elements with what stands before and
/// after them and what stands behind the last comma. The result is named, for the grammar of TOML is
/// more than can be said here; nothing else is claimed of it.
#[verifier::external_body]
fn read_arrays(text: &str, table: &str, field: &str) -> (r: Option<Vec<Section>>)
    ensures
        match r {
            Some(sections) => field_arrays(text@, table@, field@) == Some(
                sections_view(sections@),
            ),
            None => field_arrays(text@, table@, field@) is None,
        },
{
    let document = text.parse::<DocumentMut>().ok()?;
    let text_of = |raw: Option<&RawString>| raw.and_then(RawString::as_str).unwrap_or("").to_owned();
    Some(document.get(table)?.as_table()?.iter().map(|(key, entry)| Section {
        key: key.to_owned(),
        array: entry.get(field).and_then(Item::as_array).map(|array| SeqArray {
            steps: array.iter().map(|value| SeqStep {
                text: value.as_str().map(str::to_owned),
                prefix: text_of(value.decor().prefix()),
                suffix: text_of(value.decor().suffix()),
            }).collect(),
            trailing: text_of(Some(array.trailing())),
        }),
    }).collect())
}

/// Replaces arrays of a document and keeps the rest.
///
/// Stands for `toml_edit`: in the parsed `DocumentMut` each element of an array that is replaced
/// becomes a string with the given text and the given prefix, the trailing part and the trailing
/// comma are set, and the document is written out again. The result is named; nothing else is
/// claimed of it.
///
/// Runs of more than 255 quotes are left out: the encoder counts them in a byte.
#[verifier::external_body]
fn write_arrays(
    text: &str,
    table: &str,
    field: &str,
    rewrites: &Vec<Rewrite>,
    trailing_comma: bool,
) -> (out: Option<String>)
    requires
        all_fit(rewrites_view(rewrites@)),
    ensures
        text_of_option(out) == with_field_arrays(
            text@,
            table@,
            field@,
            rewrites_view(rewrites@),
            trailing_comma,
        ),
{
    let mut document = text.parse::<DocumentMut>().ok()?;
    let entries = document.get_mut(table)?.as_table_mut()?;
    for rewrite in rewrites {
        let entry = entries.get_mut(rewrite.key.as_str())?.as_table_like_mut()?;
        let array = entry.get_mut(field)?.as_array_mut()?;
        for (value, step) in array.iter_mut().zip(&rewrite.tidy.steps) {
            *value = Value::from(step.text.as_str());
            value.decor_mut().set_prefix(step.prefix.as_str());
        }
        array.set_trailing(rewrite.tidy.trailing.as_str());
        array.set_trailing_comma(trailing_comma);
    }
    Some(document.to_string())
}

// --------------------------------------------------------------------------------- the rules

/// The sections of a binds file: `None` where the text is no document with any.
pub open spec fn sections_of(text: Seq<char>) -> Option<Seq<SectionText>> {
    field_arrays(text, SECTIONS@, SEQUENCE@)
}

/// What is written: the sequence of each section that has one made of strings alone, tidied.
pub open spec fn rewrites_of(lexicon: &Lexicon, sections: Seq<SectionText>) -> Seq<RewriteText>
    decreases sections.len(),
{
    if sections.len() == 0 {
        seq![]
    } else {
        let before = rewrites_of(lexicon, sections.drop_last());
        match sections.last().1 {
            Some(array) => match rewrite(lexicon, array) {
                Some(tidy) => before.push((sections.last().0, tidy)),
                None => before,
            },
            None => before,
        }
    }
}

/// A binds file with its sequences tidied: `None` where the text is no document with binds, or
/// cannot be written.
pub open spec fn rewritten(lexicon: &Lexicon, text: Seq<char>) -> Option<Seq<char>> {
    match sections_of(text) {
        None => None,
        Some(sections) => {
            let rewrites = rewrites_of(lexicon, sections);
            if all_fit(rewrites) {
                with_field_arrays(text, SECTIONS@, SEQUENCE@, rewrites, true)
            } else {
                None
            }
        },
    }
}

/// The sequence of the first section with a key.
pub open spec fn sequence_in(sections: Seq<SectionText>, key: Seq<char>) -> Option<ArrayText>
    decreases sections.len(),
{
    if sections.len() == 0 {
        None
    } else if sections[0].0 == key {
        sections[0].1
    } else {
        sequence_in(sections.skip(1), key)
    }
}

/// Whether sections hold each sequence that was to be written, just as it was to be.
pub open spec fn all_written(rewrites: Seq<RewriteText>, sections: Seq<SectionText>) -> bool {
    forall|i: int|
        0 <= i < rewrites.len() ==> sequence_in(sections, (#[trigger] rewrites[i]).0) == Some(
            written(rewrites[i].1),
        )
}

/// Whether a text holds the tidied sequences of a text, with every comment.
pub open spec fn holds_tidied(lexicon: &Lexicon, text: Seq<char>, after: Seq<char>) -> bool {
    sections_of(text) is Some && sections_of(after) is Some && all_written(
        rewrites_of(lexicon, sections_of(text)->0),
        sections_of(after)->0,
    )
}

/// Whether a binds file is tidy: tidying it again writes it as it stands.
pub open spec fn is_tidy(lexicon: &Lexicon, text: Seq<char>) -> bool {
    rewritten(lexicon, text) == Some(text) && holds_tidied(lexicon, text, text)
}

/// A binds file in the house style. `None` where the text is no document with binds, or where what
/// would be written is not the tidied file, is not tidy, or has lost a comment: it is then to be
/// left alone.
pub open spec fn reformatted(lexicon: &Lexicon, text: Seq<char>) -> Option<Seq<char>> {
    match rewritten(lexicon, text) {
        Some(tidied) => if holds_tidied(lexicon, text, tidied) && is_tidy(lexicon, tidied) {
            Some(tidied)
        } else {
            None
        },
        None => None,
    }
}

/// A file in the house style stays as it is: whatever is handed out is left alone the next time,
/// character for character.
pub proof fn law_formatting_twice_changes_nothing(lexicon: &Lexicon, text: Seq<char>)
    ensures
        reformatted(lexicon, text) matches Some(once) ==> reformatted(lexicon, once) == Some(once),
{
}

proof fn lemma_rewrites_hold(lexicon: &Lexicon, sections: Seq<SectionText>, i: int)
    requires
        0 <= i < sections.len(),
        sections[i].1 is Some,
        all_strings(sections[i].1->0),
    ensures
        exists|k: int|
            0 <= k < rewrites_of(lexicon, sections).len() && #[trigger] rewrites_of(
                lexicon,
                sections,
            )[k] == (sections[i].0, tidy_text(lexicon, sections[i].1->0)),
    decreases sections.len(),
{
    let all = rewrites_of(lexicon, sections);
    let before = rewrites_of(lexicon, sections.drop_last());
    let meant = (sections[i].0, tidy_text(lexicon, sections[i].1->0));
    if i < sections.len() - 1 {
        lemma_rewrites_hold(lexicon, sections.drop_last(), i);
        let k = choose|k: int| 0 <= k < before.len() && #[trigger] before[k] == meant;
        assert(all[k] == before[k]);
    } else {
        assert(all[all.len() - 1] == meant);
    }
}

/// Formatting keeps every comment of every sequence that it tidies, in its place among the others.
pub proof fn law_formatting_keeps_every_comment(lexicon: &Lexicon, text: Seq<char>, i: int)
    requires
        reformatted(lexicon, text) is Some,
        0 <= i < sections_of(text)->0.len(),
        sections_of(text)->0[i].1 is Some,
        all_strings(sections_of(text)->0[i].1->0),
    ensures
        ({
            let (key, array) = sections_of(text)->0[i];
            let after = sections_of(reformatted(lexicon, text)->0);
            &&& after is Some
            &&& sequence_in(after->0, key) == Some(written(tidy_text(lexicon, array->0)))
            &&& every_comment(sequence_in(after->0, key)->0) == every_comment(array->0)
        }),
{
    let before = sections_of(text)->0;
    let array = before[i].1->0;
    let rewrites = rewrites_of(lexicon, before);
    lemma_rewrites_hold(lexicon, before, i);
    let k = choose|k: int|
        0 <= k < rewrites.len() && #[trigger] rewrites[k] == (
            before[i].0,
            tidy_text(lexicon, array),
        );
    assert(sequence_in(
        sections_of(reformatted(lexicon, text)->0)->0,
        rewrites[k].0,
    ) == Some(written(rewrites[k].1)));
    law_tidying_keeps_every_comment(lexicon, array);
}

// ------------------------------------------------------------------------------- the formatter

fn runs_are_short(text: &str) -> (r: bool)
    ensures
        r == runs_fit(text@),
{
    let all = chars_of(text);
    let mut single: usize = 0;
    let mut double: usize = 0;
    let mut i: usize = 0;
    while i < all.len()
        invariant
            i <= all@.len(),
            all@ == text@,
            single == run_at(text@, '\'', i as int),
            double == run_at(text@, '"', i as int),
            single <= 255,
            double <= 255,
            forall|n: int|
                0 <= n <= i ==> #[trigger] run_at(text@, '\'', n) <= 255 && run_at(text@, '"', n)
                    <= 255,
        decreases all@.len() - i,
    {
        if all[i] == '\'' {
            single += 1;
        } else {
            single = 0;
        }
        if all[i] == '"' {
            double += 1;
        } else {
            double = 0;
        }
        i += 1;
        if single > 255 || double > 255 {
            assert(run_at(text@, '\'', i as int) == single);
            return false;
        }
    }
    true
}

fn steps_are_short(tidy: &TidyArray) -> (r: bool)
    ensures
        r == steps_fit(tidy@),
{
    let mut i: usize = 0;
    while i < tidy.steps.len()
        invariant
            i <= tidy.steps@.len(),
            forall|k: int| 0 <= k < i ==> runs_fit((#[trigger] tidy@.0[k]).1),
        decreases tidy.steps@.len() - i,
    {
        assert(tidy@.0[i as int].1 == tidy.steps@[i as int].text@);
        if !runs_are_short(tidy.steps[i].text.as_str()) {
            return false;
        }
        i += 1;
    }
    true
}

fn all_are_short(rewrites: &Vec<Rewrite>) -> (r: bool)
    ensures
        r == all_fit(rewrites_view(rewrites@)),
{
    let ghost all = rewrites_view(rewrites@);
    let mut i: usize = 0;
    while i < rewrites.len()
        invariant
            i <= rewrites@.len(),
            all == rewrites_view(rewrites@),
            forall|k: int| 0 <= k < i ==> steps_fit((#[trigger] all[k]).1),
        decreases rewrites@.len() - i,
    {
        assert(all[i as int] == rewrites@[i as int]@);
        if !steps_are_short(&rewrites[i].tidy) {
            return false;
        }
        i += 1;
    }
    true
}

/// Tidies each sequence that is to be tidied.
fn tidy_all(lexicon: &Lexicon, sections: &Vec<Section>) -> (out: Vec<Rewrite>)
    ensures
        rewrites_view(out@) == rewrites_of(lexicon, sections_view(sections@)),
{
    let ghost all = sections_view(sections@);
    let mut out: Vec<Rewrite> = Vec::new();
    let mut i: usize = 0;
    proof {
        assert(all.take(0) =~= seq![]);
        assert(rewrites_view(out@) =~= seq![]);
    }
    while i < sections.len()
        invariant
            i <= sections@.len(),
            all == sections_view(sections@),
            rewrites_view(out@) == rewrites_of(lexicon, all.take(i as int)),
        decreases sections@.len() - i,
    {
        proof {
            assert(all.take(i + 1).drop_last() =~= all.take(i as int));
            assert(all.take(i + 1).last() == sections@[i as int]@);
        }
        if let Some(array) = &sections[i].array {
            if let Some(tidy) = tidy_steps(lexicon, array) {
                let ghost before = rewrites_view(out@);
                let one = Rewrite { key: sections[i].key.clone(), tidy };
                let ghost model = one@;
                out.push(one);
                assert(rewrites_view(out@) =~= before.push(model));
            }
        }
        i += 1;
    }
    assert(all.take(all.len() as int) =~= all);
    out
}

/// Whether an array is as it was to be written.
fn is_as_written(tidy: &TidyArray, array: &SeqArray) -> (r: bool)
    ensures
        r == (array@ == written(tidy@)),
{
    let ghost meant = written(tidy@);
    if tidy.steps.len() != array.steps.len() {
        assert(array@.0.len() != meant.0.len());
        return false;
    }
    if !same(tidy.trailing.as_str(), array.trailing.as_str()) {
        return false;
    }
    let mut i: usize = 0;
    while i < tidy.steps.len()
        invariant
            i <= tidy.steps@.len(),
            tidy.steps@.len() == array.steps@.len(),
            meant == written(tidy@),
            forall|k: int| 0 <= k < i ==> #[trigger] array@.0[k] == meant.0[k],
        decreases tidy.steps@.len() - i,
    {
        let step = &array.steps[i];
        proof {
            assert(array@.0[i as int] == step@);
            assert(tidy@.0[i as int] == (
                tidy.steps@[i as int].prefix@,
                tidy.steps@[i as int].text@,
            ));
        }
        let as_text = match &step.text {
            Some(text) => same(text.as_str(), tidy.steps[i].text.as_str()),
            None => false,
        };
        let bare = step.suffix.as_str().unicode_len() == 0;
        if !as_text || !bare || !same(step.prefix.as_str(), tidy.steps[i].prefix.as_str()) {
            assert(array@.0[i as int] != meant.0[i as int]);
            return false;
        }
        proof {
            assert(step.suffix@ =~= Seq::<char>::empty());
        }
        i += 1;
    }
    assert(array@.0 =~= meant.0);
    true
}

/// The sequence of the first section with a key.
fn find_sequence<'a>(sections: &'a Vec<Section>, key: &str) -> (r: Option<&'a SeqArray>)
    ensures
        match r {
            Some(array) => sequence_in(sections_view(sections@), key@) == Some(array@),
            None => sequence_in(sections_view(sections@), key@) is None,
        },
{
    let ghost all = sections_view(sections@);
    let mut i: usize = 0;
    assert(all.skip(0) =~= all);
    while i < sections.len()
        invariant
            i <= sections@.len(),
            all == sections_view(sections@),
            sequence_in(all, key@) == sequence_in(all.skip(i as int), key@),
        decreases sections@.len() - i,
    {
        assert(all.skip(i as int)[0] == sections@[i as int]@);
        if same(sections[i].key.as_str(), key) {
            return match &sections[i].array {
                Some(array) => Some(array),
                None => None,
            };
        }
        i += 1;
        assert(all.skip(i - 1).skip(1) =~= all.skip(i as int));
    }
    None
}

fn are_written(rewrites: &Vec<Rewrite>, sections: &Vec<Section>) -> (r: bool)
    ensures
        r == all_written(rewrites_view(rewrites@), sections_view(sections@)),
{
    let ghost all = rewrites_view(rewrites@);
    let ghost there = sections_view(sections@);
    let mut i: usize = 0;
    while i < rewrites.len()
        invariant
            i <= rewrites@.len(),
            all == rewrites_view(rewrites@),
            there == sections_view(sections@),
            forall|k: int|
                0 <= k < i ==> sequence_in(there, (#[trigger] all[k]).0) == Some(written(all[k].1)),
        decreases rewrites@.len() - i,
    {
        assert(all[i as int] == rewrites@[i as int]@);
        let kept = match find_sequence(sections, rewrites[i].key.as_str()) {
            Some(array) => is_as_written(&rewrites[i].tidy, array),
            None => false,
        };
        if !kept {
            assert(sequence_in(there, all[i as int].0) != Some(written(all[i as int].1)));
            return false;
        }
        i += 1;
    }
    true
}

/// Applies the style rules to a binds file and keeps every comment. `None` where the text is no
/// document with binds, or could not be written as meant: it is then to be left alone.
pub fn reformat(lexicon: &Lexicon, text: &str) -> (out: Option<String>)
    ensures
        text_of_option(out) == reformatted(lexicon, text@),
        out matches Some(once) ==> reformatted(lexicon, once@) == Some(once@),
{
    let sections = read_arrays(text, SECTIONS, SEQUENCE)?;
    let rewrites = tidy_all(lexicon, &sections);
    if !all_are_short(&rewrites) {
        return None;
    }
    let once = write_arrays(text, SECTIONS, SEQUENCE, &rewrites, true)?;
    let after = read_arrays(once.as_str(), SECTIONS, SEQUENCE)?;
    if !are_written(&rewrites, &after) {
        return None;
    }
    let again = tidy_all(lexicon, &after);
    if !are_written(&again, &after) || !all_are_short(&again) {
        return None;
    }
    let twice = write_arrays(once.as_str(), SECTIONS, SEQUENCE, &again, true)?;
    if !same(once.as_str(), twice.as_str()) {
        return None;
    }
    proof {
        law_formatting_twice_changes_nothing(lexicon, text@);
    }
    Some(once)
}

} // verus!
