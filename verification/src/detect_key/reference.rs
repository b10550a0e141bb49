//! The reference that is printed before the first press: every name that a binds file accepts.
use vstd::prelude::*;

use crate::text::{
    chars_of, is_space, pad_right, padded, texts, trailing_spaces, trim_end, trimmed_end,
};

verus! {

/// The main block of a keyboard, drawn.
pub const KEYBOARD_MAP: &'static str = r"
╭─────╮╭─────╮╭─────╮╭─────╮╭─────╮╭─────╮╭─────╮╭─────╮╭─────╮╭─────╮╭─────╮╭─────╮╭─────╮
│ esc ││  F1 ││  F2 ││  F3 ││  F4 ││  F5 ││  F6 ││  F7 ││  F8 ││  F9 ││ F10 ││ F11 ││ F12 │  (up to F24)
╰─────╯╰─────╯╰─────╯╰─────╯╰─────╯╰─────╯╰─────╯╰─────╯╰─────╯╰─────╯╰─────╯╰─────╯╰─────╯
╭─────╮╭─────╮╭─────╮╭─────╮╭─────╮╭─────╮╭─────╮╭─────╮╭─────╮╭─────╮╭─────╮╭─────╮╭─────╮╭───────────╮
│  `  ││  1  ││  2  ││  3  ││  4  ││  5  ││  6  ││  7  ││  8  ││  9  ││  0  ││  -  ││  =  ││ backspace │
╰─────╯╰─────╯╰─────╯╰─────╯╰─────╯╰─────╯╰─────╯╰─────╯╰─────╯╰─────╯╰─────╯╰─────╯╰─────╯╰───────────╯
╭───────╮╭─────╮╭─────╮╭─────╮╭─────╮╭─────╮╭─────╮╭─────╮╭─────╮╭─────╮╭─────╮╭─────╮╭─────╮╭─────────╮
│  tab  ││  q  ││  w  ││  e  ││  r  ││  t  ││  y  ││  u  ││  i  ││  o  ││  p  ││  [  ││  ]  ││    \    │
╰───────╯╰─────╯╰─────╯╰─────╯╰─────╯╰─────╯╰─────╯╰─────╯╰─────╯╰─────╯╰─────╯╰─────╯╰─────╯╰─────────╯
╭─────────╮╭─────╮╭─────╮╭─────╮╭─────╮╭─────╮╭─────╮╭─────╮╭─────╮╭─────╮╭─────╮╭─────╮╭──────────────╮
│capslock ││  a  ││  s  ││  d  ││  f  ││  g  ││  h  ││  j  ││  k  ││  l  ││  ;  ││  '  ││     Enter    │
╰─────────╯╰─────╯╰─────╯╰─────╯╰─────╯╰─────╯╰─────╯╰─────╯╰─────╯╰─────╯╰─────╯╰─────╯╰──────────────╯
╭────────────╮╭─────╮╭─────╮╭─────╮╭─────╮╭─────╮╭─────╮╭─────╮╭─────╮╭─────╮╭─────╮╭──────────────────╮
│   shift    ││  z  ││  x  ││  c  ││  v  ││  b  ││  n  ││  m  ││  ,  ││  .  ││  /  ││        rshift    │
╰────────────╯╰─────╯╰─────╯╰─────╯╰─────╯╰─────╯╰─────╯╰─────╯╰─────╯╰─────╯╰─────╯╰──────────────────╯
╭──────╮╭──────╮╭──────╮╭──────────────────────────────────────────────────╮╭────────────╮╭────────────╮
│ ctrl ││ meta ││ alt  ││                      space                       ││    ralt    ││    rctrl   │
╰──────╯╰──────╯╰──────╯╰──────────────────────────────────────────────────╯╰────────────╯╰────────────╯";

/// The families of inputs that the drawing does not show.
#[derive(Debug, Clone, Copy, PartialEq, Eq, Structural)]
pub enum Category {
    Main,
    Nav,
    Arrow,
    Numpad,
    Modifier,
    Media,
    Mouse,
    Pad,
}

/// One input of the backend's table.
pub struct MapEntry {
    pub category: Category,
    pub name: String,
    /// What is said of it besides its name; nothing where there is nothing to say.
    pub gloss: String,
}

/// What a family is called.
pub struct CategoryLabel {
    pub category: Category,
    pub text: String,
}

/// A key with its other spellings.
pub struct Spellings {
    pub name: String,
    pub aliases: Vec<String>,
}

/// The backend's table of inputs.
pub struct InputTable {
    pub entries: Vec<MapEntry>,
    pub labels: Vec<CategoryLabel>,
    pub spellings: Vec<Spellings>,
}

// -------------------------------------------------------------------------------- one set

/// How many bytes a text takes.
pub open spec fn byte_length(s: Seq<char>) -> nat
    decreases s.len(),
{
    if s.len() == 0 {
        0
    } else {
        byte_length(s.drop_last()) + char_bytes(s.last())
    }
}

/// How many bytes a character takes.
pub open spec fn char_bytes(c: char) -> nat {
    if (c as u32) < 0x80 {
        1
    } else if (c as u32) < 0x800 {
        2
    } else if (c as u32) < 0x10000 {
        3
    } else {
        4
    }
}

/// The widest that a line of a set may get, in bytes.
pub const WIDTH: usize = 88;

/// What continuation lines begin with: they align under the items.
pub const INDENT: &'static str = "               ";

/// Whether one more item makes a line too wide.
pub open spec fn too_wide(line: Seq<char>, item: Seq<char>) -> bool {
    byte_length(line) + 3 + byte_length(item) > WIDTH
}

/// The lines of the items that are left, after a line that was begun.
pub open spec fn wrapped(items: Seq<Seq<char>>, line: Seq<char>, first: bool) -> Seq<char>
    decreases items.len(),
{
    if items.len() == 0 {
        trimmed_end(line) + "\n"@
    } else if first {
        wrapped(items.skip(1), line + items[0], false)
    } else if too_wide(line, items[0]) {
        trimmed_end(line) + " ,\n"@ + wrapped(items.skip(1), INDENT@ + items[0], false)
    } else {
        wrapped(items.skip(1), line + " , "@ + items[0], false)
    }
}

/// One labelled set of items, with commas between and wrapped.
pub open spec fn set_text(label: Seq<char>, items: Seq<Seq<char>>) -> Seq<char> {
    wrapped(items, "  "@ + padded(label + ":"@, 13), true)
}

/// A length that is told apart only as far as a line may get.
spec fn capped(n: nat) -> nat {
    if n > WIDTH {
        WIDTH as nat + 1
    } else {
        n
    }
}

fn count_on(text: &str, start: usize) -> (n: usize)
    requires
        start <= WIDTH + 1,
    ensures
        n == capped(start as nat + byte_length(text@)),
        n <= WIDTH + 1,
{
    let all = chars_of(text);
    let mut n: usize = start;
    let mut i: usize = 0;
    assert(text@.take(0) =~= seq![]);
    while i < all.len()
        invariant
            i <= all@.len(),
            all@ == text@,
            n == capped(start as nat + byte_length(text@.take(i as int))),
            n <= WIDTH + 1,
        decreases all@.len() - i,
    {
        proof {
            assert(text@.take(i + 1).drop_last() =~= text@.take(i as int));
            assert(text@.take(i + 1).last() == text@[i as int]);
        }
        let c: u32 = all[i] as u32;
        if c < 0x80 {
            n += 1;
        } else if c < 0x800 {
            n += 2;
        } else if c < 0x10000 {
            n += 3;
        } else {
            n += 4;
        }
        if n > WIDTH {
            n = WIDTH + 1;
        }
        i += 1;
    }
    assert(text@.take(text@.len() as int) =~= text@);
    n
}

fn is_too_wide(line: &str, item: &str) -> (r: bool)
    ensures
        r == too_wide(line@, item@),
{
    let n: usize = count_on(line, 3);
    count_on(item, n) > WIDTH
}

/// Appends one labelled, comma-joined, wrapped set of items.
pub fn set_lines(text: &mut String, label: &str, items: &Vec<String>)
    ensures
        final(text)@ == old(text)@ + set_text(label@, texts(items@)),
{
    let ghost start = text@;
    let ghost all = texts(items@);
    let ghost meant = set_text(label@, all);
    let mut heading: String = label.to_owned();
    heading.append(":");
    let mut line: String = "  ".to_owned();
    line.append(pad_right(heading.as_str(), 13).as_str());
    let mut first: bool = true;
    let mut i: usize = 0;
    assert(all.skip(0) =~= all);
    while i < items.len()
        invariant
            i <= items@.len(),
            all == texts(items@),
            text@ + wrapped(all.skip(i as int), line@, first) == start + meant,
        decreases items@.len() - i,
    {
        let ghost rest = all.skip(i as int);
        let ghost before = text@;
        proof {
            assert(rest[0] == items@[i as int]@);
            assert(rest.skip(1) =~= all.skip(i + 1));
        }
        if first {
            line.append(items[i].as_str());
            first = false;
        } else if is_too_wide(line.as_str(), items[i].as_str()) {
            let ghost cut = trimmed_end(line@);
            text.append(trim_end(line.as_str()).as_str());
            text.append(" ,\n");
            line = INDENT.to_owned();
            line.append(items[i].as_str());
            assert(text@ + wrapped(rest.skip(1), line@, false) =~= before + (cut + " ,\n"@
                + wrapped(rest.skip(1), line@, false)));
        } else {
            line.append(" , ");
            line.append(items[i].as_str());
        }
        i += 1;
    }
    let ghost before = text@;
    let ghost cut = trimmed_end(line@);
    text.append(trim_end(line.as_str()).as_str());
    text.push('\n');
    proof {
        reveal_strlit("\n");
        assert(all.skip(i as int).len() == 0);
        assert(text@ =~= before + (cut + "\n"@));
    }
}

// ----------------------------------------------------------------------------- the families

/// An input with what is said of it.
pub open spec fn entry_text(name: Seq<char>, gloss: Seq<char>) -> Seq<char> {
    if gloss.len() == 0 {
        name
    } else {
        name + " ("@ + gloss + ")"@
    }
}

/// The inputs of a family, in the order of the table.
pub open spec fn family_items(entries: Seq<MapEntry>, category: Category) -> Seq<Seq<char>>
    decreases entries.len(),
{
    if entries.len() == 0 {
        seq![]
    } else {
        let before = family_items(entries.drop_last(), category);
        if entries.last().category == category {
            before.push(entry_text(entries.last().name@, entries.last().gloss@))
        } else {
            before
        }
    }
}

/// What a family is called; nothing where the table does not say.
pub open spec fn label_in(labels: Seq<CategoryLabel>, category: Category) -> Seq<char>
    decreases labels.len(),
{
    if labels.len() == 0 {
        Seq::empty()
    } else if labels[0].category == category {
        labels[0].text@
    } else {
        label_in(labels.skip(1), category)
    }
}

/// The lines of a family. A bare modifier is the left one, which is said below them.
pub open spec fn family_text(table: InputTable, category: Category) -> Seq<char> {
    set_text(label_in(table.labels@, category), family_items(table.entries@, category)) + (
    if category == Category::Modifier {
        "               (a bare modifier is the LEFT one)\n"@
    } else {
        Seq::empty()
    })
}

/// A key with its other spellings.
pub open spec fn spelled(name: Seq<char>, aliases: Seq<Seq<char>>) -> Seq<char>
    decreases aliases.len(),
{
    if aliases.len() == 0 {
        name
    } else {
        spelled(name, aliases.drop_last()) + "/"@ + aliases.last()
    }
}

/// The keys that have other spellings.
pub open spec fn alias_items(spellings: Seq<Spellings>) -> Seq<Seq<char>>
    decreases spellings.len(),
{
    if spellings.len() == 0 {
        seq![]
    } else {
        let before = alias_items(spellings.drop_last());
        let last = spellings.last();
        if last.aliases@.len() > 0 {
            before.push(spelled(last.name@, texts(last.aliases@)))
        } else {
            before
        }
    }
}

/// The families that are listed, one after another.
pub open spec fn families_text(table: InputTable) -> Seq<char> {
    family_text(table, Category::Nav) + family_text(table, Category::Arrow) + family_text(
        table,
        Category::Numpad,
    ) + family_text(table, Category::Modifier) + family_text(table, Category::Media) + family_text(
        table,
        Category::Mouse,
    ) + family_text(table, Category::Pad)
}

/// Everything after the drawing.
pub open spec fn reference_text(table: InputTable) -> Seq<char> {
    "Every name above is valid in a binds file. The rest of a full keyboard:\n\n"@ + families_text(
        table,
    ) + set_text(
        "unnamed"@,
        seq!["\"hid:<code>\" (decimal or 0x hex) is a raw USB HID usage code"@],
    ) + "\n"@ + set_text("aliases"@, alias_items(table.spellings@))
        + "\nReports the KEY, not the character: press '{' and it prints '['. Same key, shift ignored."@
        + "\nThis is also how profile/binds file treats it; writing '{' is the same as writing '[', same for 'A' and 'a', '!' and '1'...\n"@
        + "\nKeys that have no char to go by are named: backspace, enter, the modifiers (ctl, shift...), the arrows (up, down..), space (separator for chord members).\n"@
        + "\nOn X11, the focused program prints as `focus: <name>` whenever it changes.\n"@
}

fn find_label(table: &InputTable, category: Category) -> (r: String)
    ensures
        r@ == label_in(table.labels@, category),
{
    let mut i: usize = 0;
    assert(table.labels@.skip(0) =~= table.labels@);
    while i < table.labels.len()
        invariant
            i <= table.labels@.len(),
            label_in(table.labels@, category) == label_in(table.labels@.skip(i as int), category),
        decreases table.labels@.len() - i,
    {
        assert(table.labels@.skip(i as int).skip(1) =~= table.labels@.skip(i + 1));
        if table.labels[i].category == category {
            return table.labels[i].text.clone();
        }
        i += 1;
    }
    let none: String = String::new();
    assert(none@ =~= seq![]);
    none
}

fn list_family(table: &InputTable, category: Category) -> (out: Vec<String>)
    ensures
        texts(out@) == family_items(table.entries@, category),
{
    let ghost all = table.entries@;
    let mut out: Vec<String> = Vec::new();
    let mut i: usize = 0;
    assert(all.take(0) =~= seq![]);
    assert(texts(out@) =~= seq![]);
    while i < table.entries.len()
        invariant
            i <= table.entries@.len(),
            all == table.entries@,
            texts(out@) == family_items(all.take(i as int), category),
        decreases table.entries@.len() - i,
    {
        proof {
            assert(all.take(i + 1).drop_last() =~= all.take(i as int));
            assert(all.take(i + 1).last() == all[i as int]);
        }
        let entry = &table.entries[i];
        if entry.category == category {
            let mut item: String = entry.name.clone();
            if entry.gloss.as_str().unicode_len() > 0 {
                item.append(" (");
                item.append(entry.gloss.as_str());
                item.append(")");
            }
            let ghost before = texts(out@);
            let ghost said = item@;
            out.push(item);
            assert(texts(out@) =~= before.push(said));
        }
        i += 1;
    }
    assert(all.take(all.len() as int) =~= all);
    out
}

fn push_family(text: &mut String, table: &InputTable, category: Category)
    ensures
        final(text)@ == old(text)@ + family_text(*table, category),
{
    let ghost start = text@;
    let label = find_label(table, category);
    let items = list_family(table, category);
    set_lines(text, label.as_str(), &items);
    if category == Category::Modifier {
        text.append("               (a bare modifier is the LEFT one)\n");
    }
    assert(text@ =~= start + family_text(*table, category));
}

fn spell(name: &str, aliases: &Vec<String>) -> (out: String)
    ensures
        out@ == spelled(name@, texts(aliases@)),
{
    let ghost all = texts(aliases@);
    let mut out: String = name.to_owned();
    let mut i: usize = 0;
    assert(all.take(0) =~= seq![]);
    while i < aliases.len()
        invariant
            i <= aliases@.len(),
            all == texts(aliases@),
            out@ == spelled(name@, all.take(i as int)),
        decreases aliases@.len() - i,
    {
        proof {
            assert(all.take(i + 1).drop_last() =~= all.take(i as int));
            assert(all.take(i + 1).last() == aliases@[i as int]@);
        }
        out.append("/");
        out.append(aliases[i].as_str());
        i += 1;
    }
    assert(all.take(all.len() as int) =~= all);
    out
}

fn list_aliases(table: &InputTable) -> (out: Vec<String>)
    ensures
        texts(out@) == alias_items(table.spellings@),
{
    let ghost all = table.spellings@;
    let mut out: Vec<String> = Vec::new();
    let mut i: usize = 0;
    assert(all.take(0) =~= seq![]);
    assert(texts(out@) =~= seq![]);
    while i < table.spellings.len()
        invariant
            i <= table.spellings@.len(),
            all == table.spellings@,
            texts(out@) == alias_items(all.take(i as int)),
        decreases table.spellings@.len() - i,
    {
        proof {
            assert(all.take(i + 1).drop_last() =~= all.take(i as int));
            assert(all.take(i + 1).last() == all[i as int]);
        }
        let entry = &table.spellings[i];
        if entry.aliases.len() > 0 {
            let item = spell(entry.name.as_str(), &entry.aliases);
            let ghost before = texts(out@);
            let ghost said = item@;
            out.push(item);
            assert(texts(out@) =~= before.push(said));
        }
        i += 1;
    }
    assert(all.take(all.len() as int) =~= all);
    out
}

/// Everything after the drawing: the sets that it does not cover, and the rules.
pub fn reference(table: &InputTable) -> (text: String)
    ensures
        text@ == reference_text(*table),
{
    let mut text: String =
        "Every name above is valid in a binds file. The rest of a full keyboard:\n\n".to_owned();
    let ghost head = text@;
    push_family(&mut text, table, Category::Nav);
    push_family(&mut text, table, Category::Arrow);
    push_family(&mut text, table, Category::Numpad);
    push_family(&mut text, table, Category::Modifier);
    push_family(&mut text, table, Category::Media);
    push_family(&mut text, table, Category::Mouse);
    push_family(&mut text, table, Category::Pad);
    assert(text@ =~= head + families_text(*table));
    let mut unnamed: Vec<String> = Vec::new();
    unnamed.push("\"hid:<code>\" (decimal or 0x hex) is a raw USB HID usage code".to_owned());
    assert(texts(unnamed@) =~= seq![
        "\"hid:<code>\" (decimal or 0x hex) is a raw USB HID usage code"@,
    ]);
    set_lines(&mut text, "unnamed", &unnamed);
    text.append("\n");
    let aliases = list_aliases(table);
    set_lines(&mut text, "aliases", &aliases);
    text.append(
        "\nReports the KEY, not the character: press '{' and it prints '['. Same key, shift ignored.",
    );
    text.append(
        "\nThis is also how profile/binds file treats it; writing '{' is the same as writing '[', same for 'A' and 'a', '!' and '1'...\n",
    );
    text.append(
        "\nKeys that have no char to go by are named: backspace, enter, the modifiers (ctl, shift...), the arrows (up, down..), space (separator for chord members).\n",
    );
    text.append("\nOn X11, the focused program prints as `focus: <name>` whenever it changes.\n");
    text
}

/// What is printed before the first press; nothing where the run is to be quiet.
pub fn intro(table: &InputTable, quiet: bool) -> (r: Option<String>)
    ensures
        match r {
            Some(text) => !quiet && text@ == KEYBOARD_MAP@ + "\n\n"@ + reference_text(*table),
            None => quiet,
        },
{
    if quiet {
        return None;
    }
    let mut text: String = KEYBOARD_MAP.to_owned();
    text.append("\n\n");
    text.append(reference(table).as_str());
    Some(text)
}

// ------------------------------------------------------------------------- nothing is missing

/// Whether a word stands in a text.
pub open spec fn occurs(text: Seq<char>, word: Seq<char>) -> bool {
    exists|k: int|
        0 <= k && k + word.len() <= text.len() && #[trigger] text.subrange(k, k + word.len())
            == word
}

proof fn lemma_occurs_within(before: Seq<char>, text: Seq<char>, after: Seq<char>, word: Seq<char>)
    requires
        occurs(text, word),
    ensures
        occurs(before + text + after, word),
{
    let k = choose|k: int|
        0 <= k && k + word.len() <= text.len() && #[trigger] text.subrange(k, k + word.len())
            == word;
    let all = before + text + after;
    let at = before.len() + k;
    assert(all.subrange(at, at + word.len()) =~= word);
}

proof fn lemma_trailing_are_spaces(s: Seq<char>)
    ensures
        trailing_spaces(s) <= s.len(),
        forall|i: int| s.len() - trailing_spaces(s) <= i < s.len() ==> is_space(#[trigger] s[i]),
    decreases s.len(),
{
    if s.len() > 0 && is_space(s.last()) {
        lemma_trailing_are_spaces(s.drop_last());
        assert forall|i: int| s.len() - trailing_spaces(s) <= i < s.len() implies is_space(
            #[trigger] s[i],
        ) by {
            if i < s.len() - 1 {
                assert(s[i] == s.drop_last()[i]);
            }
        }
    }
}

proof fn lemma_occurs_trimmed(line: Seq<char>, word: Seq<char>)
    requires
        occurs(line, word),
        word.len() > 0,
        !is_space(word.last()),
    ensures
        occurs(trimmed_end(line), word),
{
    let k = choose|k: int|
        0 <= k && k + word.len() <= line.len() && #[trigger] line.subrange(k, k + word.len())
            == word;
    lemma_trailing_are_spaces(line);
    let end = k + word.len();
    assert(line[end - 1] == line.subrange(k, end)[word.len() - 1]);
    assert(end <= line.len() - trailing_spaces(line));
    assert(trimmed_end(line).subrange(k, end) =~= word);
}

proof fn lemma_wrapped_holds(items: Seq<Seq<char>>, line: Seq<char>, first: bool, word: Seq<char>)
    requires
        word.len() > 0,
        !is_space(word.last()),
        occurs(line, word) || exists|i: int| 0 <= i < items.len() && occurs(#[trigger] items[i], word),
    ensures
        occurs(wrapped(items, line, first), word),
    decreases items.len(),
{
    let none = Seq::<char>::empty();
    if items.len() == 0 {
        lemma_occurs_trimmed(line, word);
        lemma_occurs_within(none, trimmed_end(line), "\n"@, word);
        assert(none + trimmed_end(line) + "\n"@ =~= trimmed_end(line) + "\n"@);
    } else {
        let rest = items.skip(1);
        let later = exists|i: int| 0 <= i < rest.len() && occurs(#[trigger] rest[i], word);
        if !occurs(line, word) && !occurs(items[0], word) {
            let i = choose|i: int| 0 <= i < items.len() && occurs(#[trigger] items[i], word);
            assert(rest[i - 1] == items[i]);
            assert(later);
        }
        let sep = if first {
            none
        } else {
            " , "@
        };
        let longer = line + sep + items[0];
        if occurs(line, word) {
            lemma_occurs_within(none, line, sep + items[0], word);
            assert(none + line + (sep + items[0]) =~= longer);
        }
        if occurs(items[0], word) {
            lemma_occurs_within(line + sep, items[0], none, word);
            assert(line + sep + items[0] + none =~= longer);
            lemma_occurs_within(INDENT@, items[0], none, word);
            assert(INDENT@ + items[0] + none =~= INDENT@ + items[0]);
        }
        if first {
            assert(longer =~= line + items[0]);
            lemma_wrapped_holds(rest, line + items[0], false, word);
        } else if too_wide(line, items[0]) {
            let tail = wrapped(rest, INDENT@ + items[0], false);
            let whole = trimmed_end(line) + " ,\n"@ + tail;
            if occurs(items[0], word) || later {
                lemma_wrapped_holds(rest, INDENT@ + items[0], false, word);
                lemma_occurs_within(trimmed_end(line) + " ,\n"@, tail, none, word);
                assert(trimmed_end(line) + " ,\n"@ + tail + none =~= whole);
            } else {
                lemma_occurs_trimmed(line, word);
                lemma_occurs_within(none, trimmed_end(line), " ,\n"@ + tail, word);
                assert(none + trimmed_end(line) + (" ,\n"@ + tail) =~= whole);
            }
        } else {
            lemma_wrapped_holds(rest, longer, false, word);
        }
    }
}

proof fn lemma_family_holds(entries: Seq<MapEntry>, category: Category, i: int)
    requires
        0 <= i < entries.len(),
        entries[i].category == category,
    ensures
        exists|k: int|
            0 <= k < family_items(entries, category).len() && occurs(
                #[trigger] family_items(entries, category)[k],
                entries[i].name@,
            ),
    decreases entries.len(),
{
    let all = family_items(entries, category);
    let before = family_items(entries.drop_last(), category);
    let name = entries[i].name@;
    if i == entries.len() - 1 {
        let none = Seq::<char>::empty();
        let gloss = entries[i].gloss@;
        let item = entry_text(name, gloss);
        let start = 0int;
        assert(name.subrange(start, start + name.len()) =~= name);
        assert(occurs(name, name));
        lemma_occurs_within(none, name, " ("@ + gloss + ")"@, name);
        assert(none + name + (" ("@ + gloss + ")"@) =~= name + " ("@ + gloss + ")"@);
        assert(occurs(all[before.len() as int], name));
    } else {
        lemma_family_holds(entries.drop_last(), category, i);
        let k = choose|k: int| 0 <= k < before.len() && occurs(#[trigger] before[k], name);
        assert(all[k] == before[k]);
        assert(occurs(all[k], name));
    }
}

/// Whether a family is listed below the drawing.
pub open spec fn is_listed(category: Category) -> bool {
    !(category is Main)
}

/// Every name of a listed family is printed: an input that is added to the table shows up by
/// itself.
pub proof fn law_every_listed_name_is_printed(table: InputTable, i: int)
    requires
        0 <= i < table.entries@.len(),
        is_listed(table.entries@[i].category),
        table.entries@[i].name@.len() > 0,
        !is_space(table.entries@[i].name@.last()),
    ensures
        occurs(reference_text(table), table.entries@[i].name@),
{
    let entry = table.entries@[i];
    let category = entry.category;
    let word = entry.name@;
    let none = Seq::<char>::empty();
    let label = label_in(table.labels@, category);
    let items = family_items(table.entries@, category);
    lemma_family_holds(table.entries@, category, i);
    lemma_wrapped_holds(items, "  "@ + padded(label + ":"@, 13), true, word);
    let set = set_text(label, items);
    let family = family_text(table, category);
    let note = if category == Category::Modifier {
        "               (a bare modifier is the LEFT one)\n"@
    } else {
        none
    };
    lemma_occurs_within(none, set, note, word);
    assert(none + set + note =~= family);
    let a = family_text(table, Category::Nav);
    let b = a + family_text(table, Category::Arrow);
    let c = b + family_text(table, Category::Numpad);
    let d = c + family_text(table, Category::Modifier);
    let e = d + family_text(table, Category::Media);
    let f = e + family_text(table, Category::Mouse);
    if category is Arrow {
        lemma_occurs_right(a, family, word);
    } else if category is Nav {
        lemma_occurs_left(a, family_text(table, Category::Arrow), word);
    }
    if category is Numpad {
        lemma_occurs_right(b, family, word);
    } else if occurs(b, word) {
        lemma_occurs_left(b, family_text(table, Category::Numpad), word);
    }
    if category is Modifier {
        lemma_occurs_right(c, family, word);
    } else if occurs(c, word) {
        lemma_occurs_left(c, family_text(table, Category::Modifier), word);
    }
    if category is Media {
        lemma_occurs_right(d, family, word);
    } else if occurs(d, word) {
        lemma_occurs_left(d, family_text(table, Category::Media), word);
    }
    if category is Mouse {
        lemma_occurs_right(e, family, word);
    } else if occurs(e, word) {
        lemma_occurs_left(e, family_text(table, Category::Mouse), word);
    }
    if category is Pad {
        lemma_occurs_right(f, family, word);
    } else {
        lemma_occurs_left(f, family_text(table, Category::Pad), word);
    }
    lemma_families_in_reference(table, word);
}

proof fn lemma_occurs_left(text: Seq<char>, after: Seq<char>, word: Seq<char>)
    requires
        occurs(text, word),
    ensures
        occurs(text + after, word),
{
    let none = Seq::<char>::empty();
    lemma_occurs_within(none, text, after, word);
    assert(none + text + after =~= text + after);
}

proof fn lemma_occurs_right(before: Seq<char>, text: Seq<char>, word: Seq<char>)
    requires
        occurs(text, word),
    ensures
        occurs(before + text, word),
{
    let none = Seq::<char>::empty();
    lemma_occurs_within(before, text, none, word);
    assert(before + text + none =~= before + text);
}

proof fn lemma_families_in_reference(table: InputTable, word: Seq<char>)
    requires
        occurs(families_text(table), word),
    ensures
        occurs(reference_text(table), word),
{
    let head = "Every name above is valid in a binds file. The rest of a full keyboard:\n\n"@;
    let all = families_text(table);
    let whole = reference_text(table);
    let tail = whole.skip((head + all).len() as int);
    lemma_occurs_within(head, all, tail, word);
    assert(head + all + tail =~= whole);
}

/// A line of the reference is broken before an item that would carry it past eighty-eight bytes,
/// the comma and its blanks counted, and only there.
pub proof fn law_a_line_is_broken_where_it_is_full(line: Seq<char>, item: Seq<char>, c: char)
    ensures
        too_wide(line, item) <==> byte_length(line) + 3 + byte_length(item) > 88,
        byte_length(Seq::empty()) == 0,
        byte_length(line.push(c)) == byte_length(line) + char_bytes(c),
        c as u32 <= 0x7f ==> char_bytes(c) == 1,
        0x80 <= c as u32 <= 0x7ff ==> char_bytes(c) == 2,
        0x800 <= c as u32 <= 0xffff ==> char_bytes(c) == 3,
        c as u32 > 0xffff ==> char_bytes(c) == 4,
{
    assert(line.push(c).drop_last() =~= line);
}

/// A family lists its own inputs, in the order of the table and each with its gloss where it has
/// one, and is called by the first label for it.
pub proof fn law_a_family_lists_its_own_inputs(
    entries: Seq<MapEntry>,
    entry: MapEntry,
    category: Category,
    labels: Seq<CategoryLabel>,
    name: Seq<char>,
    gloss: Seq<char>,
)
    ensures
        family_items(Seq::empty(), category).len() == 0,
        family_items(entries.push(entry), category) == (if entry.category == category {
            family_items(entries, category).push(entry_text(entry.name@, entry.gloss@))
        } else {
            family_items(entries, category)
        }),
        entry_text(name, Seq::empty()) == name,
        gloss.len() > 0 ==> entry_text(name, gloss) == name + " ("@ + gloss + ")"@,
        labels.len() > 0 && labels[0].category == category ==> label_in(labels, category)
            == labels[0].text@,
        labels.len() > 0 && labels[0].category != category ==> label_in(labels, category)
            == label_in(labels.skip(1), category),
        is_listed(category) <==> category != Category::Main,
{
    assert(entries.push(entry).drop_last() =~= entries);
}

/// A key with other spellings is listed with all of them, and one without is not listed.
pub proof fn law_every_other_spelling_is_listed(
    spellings: Seq<Spellings>,
    more: Spellings,
    name: Seq<char>,
    aliases: Seq<Seq<char>>,
    alias: Seq<char>,
)
    ensures
        spelled(name, Seq::empty()) == name,
        spelled(name, aliases.push(alias)) == spelled(name, aliases) + "/"@ + alias,
        alias_items(Seq::empty()).len() == 0,
        more.aliases@.len() == 0 ==> alias_items(spellings.push(more)) == alias_items(spellings),
        more.aliases@.len() > 0 ==> alias_items(spellings.push(more)) == alias_items(
            spellings,
        ).push(spelled(more.name@, texts(more.aliases@))),
{
    assert(aliases.push(alias).drop_last() =~= aliases);
    assert(spellings.push(more).drop_last() =~= spellings);
}

} // verus!
