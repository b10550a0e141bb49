//! Tidying the sequences of a binds file.
//!
//! Keywords in upper case, the modifiers of a chord first, operands in one column, one level of
//! indent inside every block, and every comment kept. What stands outside the sequences is left as
//! it is.
use vstd::prelude::*;

use crate::input::{decorates, is_modifier, Holdable};
use crate::names::{Lexicon, Meaning};
use crate::text::{
    blanks, join, joined, lines, lines_of, padded, pad_right, raised, same, split_at_char, texts,
    to_upper, trim, trimmed, words, words_of,
};

verus! {

// --------------------------------------------------------------------------------- one step

/// The keywords that press or release.
pub open spec fn handles_keys(word: Seq<char>) -> bool {
    word == "PRESS"@ || word == "RELEASE"@
}

/// The keywords that open a block.
pub open spec fn opens_block(word: Seq<char>) -> bool {
    word == "RNG"@ || word == "LOOP"@
}

/// The keywords that close a block; they stand alone.
pub open spec fn closes_block(word: Seq<char>) -> bool {
    word == "GNR"@ || word == "POOL"@
}

/// The keywords that have operands.
pub open spec fn has_operands(word: Seq<char>) -> bool {
    handles_keys(word) || opens_block(word) || word == "WAIT"@
}

/// Whether a word names a modifier key.
pub open spec fn names_modifier(lexicon: &Lexicon, token: Seq<char>) -> bool {
    match lexicon.meaning(token) {
        Some(Meaning::Input(Holdable::Key(key))) => decorates(key),
        _ => false,
    }
}

/// The words of a list that name modifiers, or those that do not, in order.
pub open spec fn sifted(lexicon: &Lexicon, tokens: Seq<Seq<char>>, modifiers: bool) -> Seq<
    Seq<char>,
>
    decreases tokens.len(),
{
    if tokens.len() == 0 {
        seq![]
    } else {
        let before = sifted(lexicon, tokens.drop_last(), modifiers);
        if names_modifier(lexicon, tokens.last()) == modifiers {
            before.push(tokens.last())
        } else {
            before
        }
    }
}

/// A list with its modifiers first, each part in the order written.
pub open spec fn modifiers_first(lexicon: &Lexicon, tokens: Seq<Seq<char>>) -> Seq<Seq<char>> {
    sifted(lexicon, tokens, true) + sifted(lexicon, tokens, false)
}

/// The words of a step as they are written tidily.
pub open spec fn canonical(lexicon: &Lexicon, tokens: Seq<Seq<char>>) -> Seq<Seq<char>> {
    if tokens.len() == 0 {
        seq![]
    } else {
        let first = raised(tokens[0]);
        if handles_keys(first) {
            seq![first] + modifiers_first(lexicon, tokens.skip(1))
        } else if has_operands(first) {
            seq![first] + tokens.skip(1)
        } else if closes_block(first) {
            seq![first]
        } else {
            modifiers_first(lexicon, tokens)
        }
    }
}

/// A tidy step with its operands in a column.
pub open spec fn aligned(tokens: Seq<Seq<char>>, width: nat) -> Seq<char> {
    if tokens.len() > 1 && has_operands(tokens[0]) {
        padded(tokens[0], width) + " "@ + joined(tokens.skip(1), " "@)
    } else {
        joined(tokens, " "@)
    }
}

fn is_keyword(word: &str) -> (r: bool)
    ensures
        r == has_operands(word@),
{
    same(word, "PRESS") || same(word, "RELEASE") || same(word, "WAIT") || same(word, "RNG") || same(
        word,
        "LOOP",
    )
}

/// The leading keyword of a tidy step, if it has one that takes operands.
pub fn keyword_of(tokens: &Vec<String>) -> (r: Option<&String>)
    ensures
        match r {
            Some(word) => tokens@.len() > 0 && word@ == tokens@[0]@ && has_operands(tokens@[0]@),
            None => tokens@.len() == 0 || !has_operands(tokens@[0]@),
        },
{
    if tokens.len() > 0 && is_keyword(tokens[0].as_str()) {
        Some(&tokens[0])
    } else {
        None
    }
}

/// Whether a tidy step opens a block.
pub open spec fn is_opening(tokens: Seq<Seq<char>>) -> bool {
    tokens.len() > 0 && opens_block(tokens[0])
}

/// Whether a tidy step closes a block.
pub open spec fn is_closing(tokens: Seq<Seq<char>>) -> bool {
    tokens.len() > 0 && closes_block(tokens[0])
}

/// Whether a tidy step opens a block.
pub fn is_block_start(tokens: &Vec<String>) -> (r: bool)
    ensures
        r == is_opening(texts(tokens@)),
{
    tokens.len() > 0 && (same(tokens[0].as_str(), "RNG") || same(tokens[0].as_str(), "LOOP"))
}

/// Whether a tidy step closes a block.
pub fn is_block_end(tokens: &Vec<String>) -> (r: bool)
    ensures
        r == is_closing(texts(tokens@)),
{
    tokens.len() > 0 && (same(tokens[0].as_str(), "GNR") || same(tokens[0].as_str(), "POOL"))
}

fn is_mod(lexicon: &Lexicon, token: &str) -> (r: bool)
    ensures
        r == names_modifier(lexicon, token@),
{
    match lexicon.meaning_of(token) {
        Some(Meaning::Input(Holdable::Key(key))) => is_modifier(key),
        _ => false,
    }
}

/// Appends the words from a place on that name modifiers, or those that do not.
fn push_sifted(
    out: &mut Vec<String>,
    lexicon: &Lexicon,
    tokens: &Vec<String>,
    from: usize,
    modifiers: bool,
)
    requires
        from <= tokens@.len(),
    ensures
        texts(final(out)@) == texts(old(out)@) + sifted(
            lexicon,
            texts(tokens@).skip(from as int),
            modifiers,
        ),
{
    let ghost all = texts(tokens@).skip(from as int);
    let ghost first = texts(out@);
    let mut i: usize = from;
    proof {
        assert(all.take(0) =~= seq![]);
        assert(first + sifted(lexicon, all.take(0), modifiers) =~= first);
    }
    while i < tokens.len()
        invariant
            from <= i <= tokens@.len(),
            all == texts(tokens@).skip(from as int),
            texts(out@) == first + sifted(lexicon, all.take(i - from), modifiers),
        decreases tokens@.len() - i,
    {
        proof {
            assert(all.take(i - from + 1).drop_last() =~= all.take(i - from));
            assert(all.take(i - from + 1).last() == tokens@[i as int]@);
        }
        if is_mod(lexicon, tokens[i].as_str()) == modifiers {
            let ghost before = texts(out@);
            out.push(tokens[i].clone());
            proof {
                assert(texts(out@) =~= before.push(tokens@[i as int]@));
                assert(texts(out@) =~= first + sifted(lexicon, all.take(i - from + 1), modifiers));
            }
        }
        i += 1;
    }
    assert(all.take(all.len() as int) =~= all);
}

/// The words of a step as they are written tidily: the keyword in upper case, the modifiers of a
/// chord first.
pub fn canonical_step(lexicon: &Lexicon, step: &str) -> (out: Vec<String>)
    ensures
        texts(out@) == canonical(lexicon, words(step@)),
{
    let tokens = words_of(step);
    let ghost all = texts(tokens@);
    let mut out: Vec<String> = Vec::new();
    assert(texts(out@) =~= seq![]);
    if tokens.len() == 0 {
        assert(all.len() == 0);
        return out;
    }
    assert(all[0] == tokens@[0]@);
    let upper = to_upper(tokens[0].as_str());
    let ghost first = upper@;
    let keys = same(upper.as_str(), "PRESS") || same(upper.as_str(), "RELEASE");
    let keyword = is_keyword(upper.as_str());
    let closing = same(upper.as_str(), "GNR") || same(upper.as_str(), "POOL");
    if keys || keyword || closing {
        out.push(upper);
        assert(texts(out@) =~= seq![first]);
        if keys {
            push_sifted(&mut out, lexicon, &tokens, 1, true);
            push_sifted(&mut out, lexicon, &tokens, 1, false);
            assert(texts(out@) =~= seq![first] + modifiers_first(lexicon, all.skip(1)));
        } else if keyword {
            let mut i: usize = 1;
            assert(texts(out@) =~= seq![first] + all.skip(1).take(0));
            while i < tokens.len()
                invariant
                    1 <= i <= tokens@.len(),
                    all == texts(tokens@),
                    texts(out@) == seq![first] + all.skip(1).take(i - 1),
                decreases tokens@.len() - i,
            {
                let ghost before = texts(out@);
                out.push(tokens[i].clone());
                i += 1;
                assert(texts(out@) =~= before.push(tokens@[i - 1]@));
                assert(texts(out@) =~= seq![first] + all.skip(1).take(i - 1));
            }
            assert(all.skip(1).take(all.len() - 1) =~= all.skip(1));
        }
    } else {
        push_sifted(&mut out, lexicon, &tokens, 0, true);
        push_sifted(&mut out, lexicon, &tokens, 0, false);
        assert(all.skip(0) =~= all);
        assert(texts(out@) =~= modifiers_first(lexicon, all));
    }
    out
}

/// Pads a keyword so that operands across a sequence start in the same column.
pub fn align(tokens: &Vec<String>, width: usize) -> (out: String)
    ensures
        out@ == aligned(texts(tokens@), width as nat),
{
    let ghost all = texts(tokens@);
    if tokens.len() > 1 && is_keyword(tokens[0].as_str()) {
        assert(all[0] == tokens@[0]@);
        let mut out = pad_right(tokens[0].as_str(), width);
        out.append(" ");
        let mut rest: Vec<String> = Vec::new();
        let mut i: usize = 1;
        assert(texts(rest@) =~= all.skip(1).take(0));
        while i < tokens.len()
            invariant
                1 <= i <= tokens@.len(),
                all == texts(tokens@),
                texts(rest@) == all.skip(1).take(i - 1),
            decreases tokens@.len() - i,
        {
            let ghost before = texts(rest@);
            rest.push(tokens[i].clone());
            i += 1;
            assert(texts(rest@) =~= before.push(tokens@[i - 1]@));
            assert(all.skip(1).take(i - 1) =~= before.push(tokens@[i - 1]@));
        }
        assert(all.skip(1).take(all.len() - 1) =~= all.skip(1));
        out.append(join(&rest, " ").as_str());
        out
    } else {
        if tokens.len() > 0 {
            assert(all[0] == tokens@[0]@);
        }
        join(tokens, " ")
    }
}

// ------------------------------------------------------------------------------- comments

/// Whether a line is a comment.
pub open spec fn is_comment(line: Seq<char>) -> bool {
    line.len() > 0 && line[0] == '#'
}

/// The comments among lines, without the white space around them.
pub open spec fn comments_among(lines: Seq<Seq<char>>) -> Seq<Seq<char>>
    decreases lines.len(),
{
    if lines.len() == 0 {
        seq![]
    } else {
        let before = comments_among(lines.drop_last());
        let line = trimmed(lines.last());
        if is_comment(line) {
            before.push(line)
        } else {
            before
        }
    }
}

/// The comments of what stands between two values.
pub open spec fn comment_lines(decor: Seq<char>) -> Seq<Seq<char>> {
    comments_among(lines(decor))
}

/// Appends the comments of what stands between two values.
fn push_comments(out: &mut Vec<String>, decor: &str)
    ensures
        texts(final(out)@) == texts(old(out)@) + comment_lines(decor@),
{
    let found = lines_of(decor);
    let ghost all = texts(found@);
    let ghost first = texts(out@);
    let mut i: usize = 0;
    proof {
        assert(all.take(0) =~= seq![]);
        assert(first + comments_among(all.take(0)) =~= first);
    }
    while i < found.len()
        invariant
            i <= found@.len(),
            all == texts(found@),
            texts(out@) == first + comments_among(all.take(i as int)),
        decreases found@.len() - i,
    {
        proof {
            assert(all.take(i + 1).drop_last() =~= all.take(i as int));
            assert(all.take(i + 1).last() == found@[i as int]@);
        }
        let line = trim(found[i].as_str());
        if line.as_str().unicode_len() > 0 && line.as_str().get_char(0) == '#' {
            let ghost before = texts(out@);
            let ghost word = line@;
            out.push(line);
            proof {
                assert(texts(out@) =~= before.push(word));
                assert(texts(out@) =~= first + comments_among(all.take(i + 1)));
            }
        }
        i += 1;
    }
    assert(all.take(all.len() as int) =~= all);
}

/// How many blanks a level of blocks is indented by.
pub open spec fn indent_of(level: nat) -> nat {
    4 * (level + 1)
}

/// The beginning of a line with so many blanks.
pub open spec fn fresh_line(indent: nat) -> Seq<char> {
    seq!['\n'] + blanks(indent)
}

/// Comments on lines of their own.
pub open spec fn stacked(comments: Seq<Seq<char>>, indent: nat) -> Seq<char>
    decreases comments.len(),
{
    if comments.len() == 0 {
        seq![]
    } else {
        stacked(comments.drop_last(), indent) + fresh_line(indent) + comments.last()
    }
}

/// What stands before a tidy step: its comments, and the beginning of its own line.
pub open spec fn step_decor(comments: Seq<Seq<char>>, indent: nat) -> Seq<char> {
    stacked(comments, indent) + fresh_line(indent)
}

/// What stands after the last tidy step: the comments that are left, and the end of the line.
pub open spec fn tail_decor(comments: Seq<Seq<char>>) -> Seq<char> {
    stacked(comments, indent_of(0)) + seq!['\n']
}

fn push_fresh_line(out: &mut String, level: usize)
    ensures
        final(out)@ == old(out)@ + fresh_line(indent_of(level as nat)),
{
    out.push('\n');
    out.append("    ");
    proof {
        reveal_strlit("    ");
        assert(out@ =~= old(out)@ + fresh_line(indent_of(0)));
    }
    let mut n: usize = 0;
    while n < level
        invariant
            n <= level,
            out@ == old(out)@ + fresh_line(indent_of(n as nat)),
        decreases level - n,
    {
        out.append("    ");
        n += 1;
        proof {
            reveal_strlit("    ");
            assert(out@ =~= old(out)@ + fresh_line(indent_of(n as nat)));
        }
    }
}

fn stack_comments(comments: &Vec<String>, level: usize) -> (out: String)
    ensures
        out@ == stacked(texts(comments@), indent_of(level as nat)),
{
    let ghost all = texts(comments@);
    let mut out: String = String::new();
    let mut i: usize = 0;
    assert(all.take(0) =~= seq![]);
    assert(out@ =~= seq![]);
    while i < comments.len()
        invariant
            i <= comments@.len(),
            all == texts(comments@),
            out@ == stacked(all.take(i as int), indent_of(level as nat)),
        decreases comments@.len() - i,
    {
        proof {
            assert(all.take(i + 1).drop_last() =~= all.take(i as int));
            assert(all.take(i + 1).last() == comments@[i as int]@);
        }
        push_fresh_line(&mut out, level);
        out.append(comments[i].as_str());
        i += 1;
    }
    assert(all.take(all.len() as int) =~= all);
    out
}

/// Whether a character may stand in a comment: a tab, or no control character of the ASCII range.
pub open spec fn comment_char(c: char) -> bool {
    c == '\t' || (c >= ' ' && c != '\u{7f}')
}

/// Whether a text is a comment from its first character to its last.
pub open spec fn is_whole_comment(c: Seq<char>) -> bool {
    is_comment(c) && forall|i: int| 0 <= i < c.len() ==> comment_char(#[trigger] c[i])
}

/// Whether a line is blank, or a comment behind blanks.
pub open spec fn is_filler(line: Seq<char>) -> bool {
    exists|n: nat|
        n <= line.len() && line.take(n as int) == #[trigger] blanks(n) && (n == line.len()
            || is_whole_comment(line.skip(n as int)))
}

/// Whether a text may stand between two values: lines that are blank or comments, and a last one
/// that is blank.
pub open spec fn is_trivia(decor: Seq<char>) -> bool {
    let pieces = split_at_char(decor, '\n');
    &&& pieces.last() == blanks(pieces.last().len())
    &&& forall|i: int| 0 <= i < pieces.len() - 1 ==> is_filler(#[trigger] pieces[i])
}

/// Whether a text holds what comments and line ends are made of, and nothing else.
pub open spec fn is_commentary(decor: Seq<char>) -> bool {
    forall|i: int|
        0 <= i < decor.len() ==> comment_char(#[trigger] decor[i]) || decor[i] == '\n' || (decor[i]
            == '\r' && i + 1 < decor.len() && decor[i + 1] == '\n')
}

// --------------------------------------------------------------------------------- one array

/// One element of a sequence as it stands in the file: its text where it is a string, and what
/// stands before and after it.
pub type StepText = (Option<Seq<char>>, Seq<char>, Seq<char>);

/// A sequence as it stands in the file: its elements, and what stands after the last comma.
pub type ArrayText = (Seq<StepText>, Seq<char>);

/// A sequence as it is to be written: for each element what stands before it and its text, and
/// what stands after the last comma.
pub type TidyText = (Seq<(Seq<char>, Seq<char>)>, Seq<char>);

/// One element of a sequence as it stands in the file.
#[derive(Debug)]
pub struct SeqStep {
    pub text: Option<String>,
    pub prefix: String,
    pub suffix: String,
}

/// A sequence as it stands in the file.
#[derive(Debug)]
pub struct SeqArray {
    pub steps: Vec<SeqStep>,
    pub trailing: String,
}

/// One element of a sequence as it is to be written.
#[derive(Debug)]
pub struct TidyStep {
    pub prefix: String,
    pub text: String,
}

/// A sequence as it is to be written.
#[derive(Debug)]
pub struct TidyArray {
    pub steps: Vec<TidyStep>,
    pub trailing: String,
}

impl View for SeqStep {
    type V = StepText;

    open spec fn view(&self) -> StepText {
        (super::slots::text_of_option(self.text), self.prefix@, self.suffix@)
    }
}

impl View for SeqArray {
    type V = ArrayText;

    open spec fn view(&self) -> ArrayText {
        (self.steps@.map_values(|step: SeqStep| step@), self.trailing@)
    }
}

impl View for TidyArray {
    type V = TidyText;

    open spec fn view(&self) -> TidyText {
        (
            self.steps@.map_values(|step: TidyStep| (step.prefix@, step.text@)),
            self.trailing@,
        )
    }
}

/// Whether every element of a sequence is a string.
pub open spec fn all_strings(array: ArrayText) -> bool {
    forall|i: int| 0 <= i < array.0.len() ==> (#[trigger] array.0[i]).0 is Some
}

/// The words of each step, written tidily.
pub open spec fn canonical_steps(lexicon: &Lexicon, array: ArrayText) -> Seq<Seq<Seq<char>>> {
    array.0.map_values(|step: StepText| canonical(lexicon, words(step.0->0)))
}

/// The length of the longest keyword with operands.
pub open spec fn keyword_width(steps: Seq<Seq<Seq<char>>>) -> nat
    decreases steps.len(),
{
    if steps.len() == 0 {
        0
    } else {
        let before = keyword_width(steps.drop_last());
        let step = steps.last();
        if step.len() > 0 && has_operands(step[0]) && step[0].len() > before {
            step[0].len()
        } else {
            before
        }
    }
}

/// The level of a step where so many blocks are open before it: one that closes a block stands
/// where the one that opened it does.
pub open spec fn level_at(open: nat, step: Seq<Seq<char>>) -> nat {
    if is_closing(step) && open > 0 {
        (open - 1) as nat
    } else {
        open
    }
}

/// How many blocks are open after the first `n` steps.
pub open spec fn nesting(steps: Seq<Seq<Seq<char>>>, n: int) -> nat
    decreases n,
{
    if n <= 0 {
        0
    } else {
        let level = level_at(nesting(steps, n - 1), steps[n - 1]);
        if is_opening(steps[n - 1]) {
            level + 1
        } else {
            level
        }
    }
}

/// The comments that stand before an element: those after the one before it, and its own.
pub open spec fn carried(array: ArrayText, i: int) -> Seq<Seq<char>> {
    (if i > 0 {
        comment_lines(array.0[i - 1].2)
    } else {
        seq![]
    }) + comment_lines(array.0[i].1)
}

/// The comments that stand behind the last element.
pub open spec fn carried_last(array: ArrayText) -> Seq<Seq<char>> {
    (if array.0.len() > 0 {
        comment_lines(array.0.last().2)
    } else {
        seq![]
    }) + comment_lines(array.1)
}

/// How a sequence is written tidily.
pub open spec fn tidy_text(lexicon: &Lexicon, array: ArrayText) -> TidyText {
    let steps = canonical_steps(lexicon, array);
    let width = keyword_width(steps);
    (
        Seq::new(
            array.0.len(),
            |i: int|
                (
                    step_decor(
                        carried(array, i),
                        indent_of(level_at(nesting(steps, i), steps[i])),
                    ),
                    aligned(steps[i], width),
                ),
        ),
        tail_decor(carried_last(array)),
    )
}

/// How a sequence is written, if it is to be written anew: one with an element that is no string
/// is left alone.
pub open spec fn rewrite(lexicon: &Lexicon, array: ArrayText) -> Option<TidyText> {
    if all_strings(array) {
        Some(tidy_text(lexicon, array))
    } else {
        None
    }
}

fn canonical_all(lexicon: &Lexicon, array: &SeqArray) -> (r: Option<Vec<Vec<String>>>)
    ensures
        match r {
            Some(steps) => all_strings(array@) && steps@.len() == array.steps@.len() && (forall|
                i: int,
            |
                0 <= i < steps@.len() ==> texts((#[trigger] steps@[i])@) == canonical_steps(
                    lexicon,
                    array@,
                )[i]),
            None => !all_strings(array@),
        },
{
    let mut steps: Vec<Vec<String>> = Vec::new();
    let mut i: usize = 0;
    while i < array.steps.len()
        invariant
            i <= array.steps@.len(),
            steps@.len() == i,
            forall|k: int| 0 <= k < i ==> (#[trigger] array@.0[k]).0 is Some,
            forall|k: int|
                0 <= k < i ==> texts((#[trigger] steps@[k])@) == canonical_steps(
                    lexicon,
                    array@,
                )[k],
        decreases array.steps@.len() - i,
    {
        assert(array@.0[i as int] == array.steps@[i as int]@);
        match &array.steps[i].text {
            None => {
                assert(array@.0[i as int].0 is None);
                return None;
            },
            Some(text) => {
                steps.push(canonical_step(lexicon, text.as_str()));
            },
        }
        i += 1;
    }
    Some(steps)
}

fn widest_keyword(steps: &Vec<Vec<String>>) -> (width: usize)
    ensures
        width == keyword_width(steps@.map_values(|step: Vec<String>| texts(step@))),
{
    let ghost all = steps@.map_values(|step: Vec<String>| texts(step@));
    let mut width: usize = 0;
    let mut i: usize = 0;
    assert(all.take(0) =~= seq![]);
    while i < steps.len()
        invariant
            i <= steps@.len(),
            all == steps@.map_values(|step: Vec<String>| texts(step@)),
            width == keyword_width(all.take(i as int)),
        decreases steps@.len() - i,
    {
        proof {
            assert(all.take(i + 1).drop_last() =~= all.take(i as int));
            assert(all.take(i + 1).last() == texts(steps@[i as int]@));
        }
        if let Some(word) = keyword_of(&steps[i]) {
            assert(texts(steps@[i as int]@)[0] == word@);
            let n: usize = word.as_str().unicode_len();
            if n > width {
                width = n;
            }
        } else {
            if steps[i].len() > 0 {
                assert(texts(steps@[i as int]@)[0] == steps@[i as int]@[0]@);
            }
        }
        i += 1;
    }
    assert(all.take(all.len() as int) =~= all);
    width
}

fn carry(array: &SeqArray, i: usize) -> (out: Vec<String>)
    requires
        i < array.steps@.len(),
    ensures
        texts(out@) == carried(array@, i as int),
{
    let mut out: Vec<String> = Vec::new();
    assert(texts(out@) =~= seq![]);
    if i > 0 {
        assert(array@.0[i - 1] == array.steps@[i - 1]@);
        push_comments(&mut out, array.steps[i - 1].suffix.as_str());
        assert(texts(out@) =~= comment_lines(array@.0[i - 1].2));
    }
    assert(array@.0[i as int] == array.steps@[i as int]@);
    push_comments(&mut out, array.steps[i].prefix.as_str());
    assert(texts(out@) =~= carried(array@, i as int));
    out
}

fn carry_last(array: &SeqArray) -> (out: Vec<String>)
    ensures
        texts(out@) == carried_last(array@),
{
    let mut out: Vec<String> = Vec::new();
    assert(texts(out@) =~= seq![]);
    let n: usize = array.steps.len();
    if n > 0 {
        assert(array@.0.last() == array.steps@[n - 1]@);
        push_comments(&mut out, array.steps[n - 1].suffix.as_str());
        assert(texts(out@) =~= comment_lines(array@.0.last().2));
    }
    push_comments(&mut out, array.trailing.as_str());
    assert(texts(out@) =~= carried_last(array@));
    out
}

/// Writes one sequence tidily: modifiers first in each chord, operands in a column, one level of
/// indent inside every block, every comment carried along. One with an element that is no string
/// is left alone.
pub fn tidy_steps(lexicon: &Lexicon, array: &SeqArray) -> (r: Option<TidyArray>)
    ensures
        match r {
            Some(tidy) => rewrite(lexicon, array@) == Some(tidy@),
            None => rewrite(lexicon, array@) is None,
        },
{
    let steps = match canonical_all(lexicon, array) {
        Some(steps) => steps,
        None => {
            return None;
        },
    };
    let ghost all = canonical_steps(lexicon, array@);
    assert(steps@.map_values(|step: Vec<String>| texts(step@)) =~= all);
    let width = widest_keyword(&steps);
    let ghost meant = tidy_text(lexicon, array@);
    let mut out: Vec<TidyStep> = Vec::new();
    let mut depth: usize = 0;
    let mut i: usize = 0;
    while i < steps.len()
        invariant
            i <= steps@.len(),
            steps@.len() == array.steps@.len(),
            all == canonical_steps(lexicon, array@),
            all.len() == steps@.len(),
            width == keyword_width(all),
            meant == tidy_text(lexicon, array@),
            forall|k: int| 0 <= k < steps@.len() ==> texts((#[trigger] steps@[k])@) == all[k],
            depth == nesting(all, i as int),
            depth <= i,
            out@.len() == i,
            forall|k: int|
                0 <= k < i ==> ((#[trigger] out@[k]).prefix@, out@[k].text@) == meant.0[k],
        decreases steps@.len() - i,
    {
        assert(texts(steps@[i as int]@) == all[i as int]);
        if is_block_end(&steps[i]) && depth > 0 {
            depth -= 1;
        }
        let comments = carry(array, i);
        let mut prefix = stack_comments(&comments, depth);
        push_fresh_line(&mut prefix, depth);
        let text = align(&steps[i], width);
        if is_block_start(&steps[i]) {
            depth += 1;
        }
        out.push(TidyStep { prefix, text });
        i += 1;
    }
    let comments = carry_last(array);
    let mut trailing = stack_comments(&comments, 0);
    trailing.push('\n');
    let tidy = TidyArray { steps: out, trailing };
    proof {
        assert(tidy@.0 =~= meant.0);
        assert(trailing@ =~= tail_decor(carried_last(array@)));
    }
    Some(tidy)
}

} // verus!
