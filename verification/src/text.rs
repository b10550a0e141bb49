//! Strings as sequences of characters: words, lines, case, padding and numbers.

use vstd::prelude::*;
use vstd::string::*;

verus! {

/// `String::push`: appends one character at the end.
pub assume_specification[ String::push ](s: &mut String, c: char)
    ensures
        final(s)@ == old(s)@.push(c),
;

/// The characters of `s`, one per element.
pub fn chars_of(s: &str) -> (out: Vec<char>)
    ensures
        out@ == s@,
{
    let mut out: Vec<char> = Vec::new();
    for c in it: s.chars()
        invariant
            out@ == s@.take(it.index() as int),
            it.seq() == s@,
    {
        out.push(c);
    }
    out
}

/// The text that `v[from..to]` spells.
pub fn text_of(v: &Vec<char>, from: usize, to: usize) -> (out: String)
    requires
        from <= to <= v@.len(),
    ensures
        out@ == v@.subrange(from as int, to as int),
{
    let mut out: String = String::new();
    let mut i: usize = from;
    while i < to
        invariant
            from <= i <= to <= v@.len(),
            out@ == v@.subrange(from as int, i as int),
        decreases to - i,
    {
        out.push(v[i]);
        i += 1;
        assert(v@.subrange(from as int, i as int) =~= v@.subrange(from as int, i - 1).push(
            v@[i - 1],
        ));
    }
    out
}

/// Whether two texts are the same.
pub fn same(a: &str, b: &str) -> (r: bool)
    ensures
        r == (a@ == b@),
{
    let x = chars_of(a);
    let y = chars_of(b);
    if x.len() != y.len() {
        return false;
    }
    let mut i: usize = 0;
    while i < x.len()
        invariant
            x@ == a@,
            y@ == b@,
            x@.len() == y@.len(),
            i <= x@.len(),
            forall|k: int| 0 <= k < i ==> x@[k] == y@[k],
        decreases x@.len() - i,
    {
        if x[i] != y[i] {
            assert(a@[i as int] != b@[i as int]);
            return false;
        }
        i += 1;
    }
    assert(a@ =~= b@);
    true
}

/// The texts of a list of strings.
pub open spec fn texts(list: Seq<String>) -> Seq<Seq<char>> {
    list.map_values(|s: String| s@)
}

/// Whether `list` holds the text `s`, and the first place where it stands.
pub fn position_of(list: &Vec<String>, s: &str) -> (r: Option<usize>)
    ensures
        match r {
            Some(i) => {
                &&& i < list@.len()
                &&& list@[i as int]@ == s@
                &&& forall|k: int| 0 <= k < i ==> list@[k]@ != s@
            },
            None => forall|k: int| 0 <= k < list@.len() ==> list@[k]@ != s@,
        },
        r is Some <==> texts(list@).contains(s@),
{
    let mut i: usize = 0;
    while i < list.len()
        invariant
            i <= list@.len(),
            forall|k: int| 0 <= k < i ==> list@[k]@ != s@,
        decreases list@.len() - i,
    {
        if same(list[i].as_str(), s) {
            assert(texts(list@)[i as int] == s@);
            return Some(i);
        }
        i += 1;
    }
    assert(forall|k: int| 0 <= k < texts(list@).len() ==> texts(list@)[k] == list@[k]@);
    None
}

/// Copies every text of a list.
pub fn copy_texts(list: &Vec<String>) -> (out: Vec<String>)
    ensures
        texts(out@) == texts(list@),
{
    let mut out: Vec<String> = Vec::new();
    let mut i: usize = 0;
    while i < list.len()
        invariant
            i <= list@.len(),
            out@.len() == i,
            forall|k: int| 0 <= k < i ==> out@[k]@ == list@[k]@,
        decreases list@.len() - i,
    {
        out.push(list[i].clone());
        i += 1;
    }
    assert(texts(out@) =~= texts(list@));
    out
}

// ------------------------------------------------------------------- white space

/// The characters of Unicode's `White_Space` property.
pub open spec fn is_space(c: char) -> bool {
    ||| '\u{9}' <= c <= '\u{d}'
    ||| c == '\u{20}'
    ||| c == '\u{85}'
    ||| c == '\u{a0}'
    ||| c == '\u{1680}'
    ||| '\u{2000}' <= c <= '\u{200a}'
    ||| c == '\u{2028}'
    ||| c == '\u{2029}'
    ||| c == '\u{202f}'
    ||| c == '\u{205f}'
    ||| c == '\u{3000}'
}

/// Whether a character is white space.
pub fn is_whitespace(c: char) -> (r: bool)
    ensures
        r == is_space(c),
{
    ('\u{9}' <= c && c <= '\u{d}') || c == '\u{20}' || c == '\u{85}' || c == '\u{a0}' || c
        == '\u{1680}' || ('\u{2000}' <= c && c <= '\u{200a}') || c == '\u{2028}' || c
        == '\u{2029}' || c == '\u{202f}' || c == '\u{205f}' || c == '\u{3000}'
}

/// How many white-space characters `s` begins with.
pub open spec fn leading_spaces(s: Seq<char>) -> nat
    decreases s.len(),
{
    if s.len() > 0 && is_space(s[0]) {
        1 + leading_spaces(s.skip(1))
    } else {
        0
    }
}

/// How many characters `s` begins with that are no white space.
pub open spec fn leading_word(s: Seq<char>) -> nat
    decreases s.len(),
{
    if s.len() > 0 && !is_space(s[0]) {
        1 + leading_word(s.skip(1))
    } else {
        0
    }
}

/// How many white-space characters `s` ends with.
pub open spec fn trailing_spaces(s: Seq<char>) -> nat
    decreases s.len(),
{
    if s.len() > 0 && is_space(s.last()) {
        1 + trailing_spaces(s.drop_last())
    } else {
        0
    }
}

pub proof fn lemma_leading_spaces(s: Seq<char>)
    ensures
        leading_spaces(s) <= s.len(),
        leading_spaces(s) < s.len() ==> !is_space(s[leading_spaces(s) as int]),
        forall|k: int| 0 <= k < leading_spaces(s) ==> is_space(#[trigger] s[k]),
    decreases s.len(),
{
    if s.len() > 0 && is_space(s[0]) {
        lemma_leading_spaces(s.skip(1));
        assert forall|k: int| 0 <= k < leading_spaces(s) implies is_space(#[trigger] s[k]) by {
            if k > 0 {
                assert(s.skip(1)[k - 1] == s[k]);
            }
        }
    }
}

pub proof fn lemma_leading_word(s: Seq<char>)
    ensures
        leading_word(s) <= s.len(),
        leading_word(s) < s.len() ==> is_space(s[leading_word(s) as int]),
        forall|k: int| 0 <= k < leading_word(s) ==> !is_space(#[trigger] s[k]),
    decreases s.len(),
{
    if s.len() > 0 && !is_space(s[0]) {
        lemma_leading_word(s.skip(1));
        assert forall|k: int| 0 <= k < leading_word(s) implies !is_space(#[trigger] s[k]) by {
            if k > 0 {
                assert(s.skip(1)[k - 1] == s[k]);
            }
        }
    }
}

pub proof fn lemma_trailing_spaces(s: Seq<char>)
    ensures
        trailing_spaces(s) <= s.len(),
    decreases s.len(),
{
    if s.len() > 0 && is_space(s.last()) {
        lemma_trailing_spaces(s.drop_last());
    }
}

/// `s` without the white space it begins with.
pub open spec fn trimmed_start(s: Seq<char>) -> Seq<char> {
    s.skip(leading_spaces(s) as int)
}

/// `s` without the white space it ends with.
pub open spec fn trimmed_end(s: Seq<char>) -> Seq<char> {
    s.take(s.len() - trailing_spaces(s))
}

/// `s` without the white space around it.
pub open spec fn trimmed(s: Seq<char>) -> Seq<char> {
    trimmed_end(trimmed_start(s))
}

/// The words of `s`: its longest runs without white space, in order.
pub open spec fn words(s: Seq<char>) -> Seq<Seq<char>>
    decreases s.len(),
    via words_decreases
{
    let t = trimmed_start(s);
    if t.len() == 0 {
        Seq::empty()
    } else {
        seq![t.take(leading_word(t) as int)] + words(t.skip(leading_word(t) as int))
    }
}

#[via_fn]
proof fn words_decreases(s: Seq<char>) {
    lemma_leading_spaces(s);
    let t = trimmed_start(s);
    if t.len() > 0 {
        lemma_leading_word(t);
        assert(t[0] == s[leading_spaces(s) as int]);
        assert(leading_word(t) > 0);
    }
}

/// The end of the run of white space (or of anything else) that begins at `from`.
fn run_end(v: &Vec<char>, from: usize, space: bool) -> (to: usize)
    requires
        from <= v@.len(),
    ensures
        from <= to <= v@.len(),
        space ==> to == from + leading_spaces(v@.skip(from as int)),
        !space ==> to == from + leading_word(v@.skip(from as int)),
{
    let mut to: usize = from;
    while to < v.len() && is_whitespace(v[to]) == space
        invariant
            from <= to <= v@.len(),
            space ==> leading_spaces(v@.skip(from as int)) == (to - from) + leading_spaces(
                v@.skip(to as int),
            ),
            !space ==> leading_word(v@.skip(from as int)) == (to - from) + leading_word(
                v@.skip(to as int),
            ),
        decreases v@.len() - to,
    {
        assert(v@.skip(to as int).skip(1) =~= v@.skip(to + 1));
        assert(v@.skip(to as int)[0] == v@[to as int]);
        to += 1;
    }
    assert(to < v@.len() ==> v@.skip(to as int)[0] == v@[to as int]);
    to
}

/// Splits a text into its words.
pub fn words_of(s: &str) -> (out: Vec<String>)
    ensures
        texts(out@) == words(s@),
{
    let v = chars_of(s);
    let mut out: Vec<String> = Vec::new();
    let mut i: usize = 0;
    assert(v@.skip(0) =~= s@);
    loop
        invariant
            v@ == s@,
            i <= v@.len(),
            texts(out@) + words(v@.skip(i as int)) == words(s@),
        ensures
            texts(out@) == words(s@),
        decreases v@.len() - i,
    {
        let ghost rest = v@.skip(i as int);
        let from = run_end(&v, i, true);
        let ghost t = trimmed_start(rest);
        assert(t =~= v@.skip(from as int));
        if from == v.len() {
            assert(words(rest) =~= Seq::<Seq<char>>::empty());
            assert(texts(out@) + words(rest) =~= texts(out@));
            break;
        }
        let to = run_end(&v, from, false);
        proof {
            lemma_leading_spaces(rest);
            lemma_leading_word(t);
            assert(t[0] == v@[from as int]);
            assert(rest[leading_spaces(rest) as int] == t[0]);
        }
        let word = text_of(&v, from, to);
        assert(word@ =~= t.take(leading_word(t) as int));
        assert(t.skip(leading_word(t) as int) =~= v@.skip(to as int));
        let ghost before = texts(out@);
        out.push(word);
        assert(texts(out@) =~= before.push(word@));
        assert(before + words(rest) =~= before.push(word@) + words(v@.skip(to as int)));
        i = to;
    }
    out
}

/// A text without the white space around it.
pub fn trim(s: &str) -> (out: String)
    ensures
        out@ == trimmed(s@),
{
    let v = chars_of(s);
    assert(v@.skip(0) =~= v@);
    let from = run_end(&v, 0, true);
    let mut to: usize = v.len();
    let ghost t = trimmed_start(s@);
    assert(t.take(t.len() as int) =~= t);
    while to > from && is_whitespace(v[to - 1])
        invariant
            v@ == s@,
            from <= to <= v@.len(),
            t == v@.skip(from as int),
            trailing_spaces(t) == (v@.len() - to) + trailing_spaces(t.take(to - from)),
        decreases to,
    {
        assert(t.take(to - from).drop_last() =~= t.take(to - from - 1));
        assert(t.take(to - from).last() == v@[to - 1]);
        to -= 1;
    }
    proof {
        assert(to > from ==> t.take(to - from).last() == v@[to - 1]);
        assert(v@.subrange(from as int, to as int) =~= trimmed(s@));
    }
    text_of(&v, from, to)
}

/// A text without the white space it ends with.
pub fn trim_end(s: &str) -> (out: String)
    ensures
        out@ == trimmed_end(s@),
{
    let v = chars_of(s);
    let mut to: usize = v.len();
    assert(v@.take(v@.len() as int) =~= v@);
    while to > 0 && is_whitespace(v[to - 1])
        invariant
            v@ == s@,
            to <= v@.len(),
            trailing_spaces(s@) == (v@.len() - to) + trailing_spaces(v@.take(to as int)),
        decreases to,
    {
        assert(v@.take(to as int).drop_last() =~= v@.take(to - 1));
        assert(v@.take(to as int).last() == v@[to - 1]);
        to -= 1;
    }
    proof {
        assert(to > 0 ==> v@.take(to as int).last() == v@[to - 1]);
        assert(v@.subrange(0, to as int) =~= trimmed_end(s@));
    }
    text_of(&v, 0, to)
}

// -------------------------------------------------------------------------- case

/// A character with ASCII letters lowered.
pub open spec fn lower_char(c: char) -> char {
    if 'A' <= c <= 'Z' {
        (c as u8 + 32) as char
    } else {
        c
    }
}

/// A character with ASCII letters raised.
pub open spec fn upper_char(c: char) -> char {
    if 'a' <= c <= 'z' {
        (c as u8 - 32) as char
    } else {
        c
    }
}

/// A text with its ASCII letters lowered.
pub open spec fn lowered(s: Seq<char>) -> Seq<char> {
    s.map_values(|c: char| lower_char(c))
}

/// A text with its ASCII letters raised.
pub open spec fn raised(s: Seq<char>) -> Seq<char> {
    s.map_values(|c: char| upper_char(c))
}

/// Lowers an ASCII letter.
pub fn to_lower_char(c: char) -> (r: char)
    ensures
        r == lower_char(c),
{
    if 'A' <= c && c <= 'Z' {
        (c as u8 + 32) as char
    } else {
        c
    }
}

/// Raises an ASCII letter.
pub fn to_upper_char(c: char) -> (r: char)
    ensures
        r == upper_char(c),
{
    if 'a' <= c && c <= 'z' {
        (c as u8 - 32) as char
    } else {
        c
    }
}

/// Lowers the ASCII letters of a text.
pub fn to_lower(s: &str) -> (out: String)
    ensures
        out@ == lowered(s@),
{
    let v = chars_of(s);
    let mut out: String = String::new();
    let mut i: usize = 0;
    while i < v.len()
        invariant
            v@ == s@,
            i <= v@.len(),
            out@ == lowered(s@).take(i as int),
        decreases v@.len() - i,
    {
        out.push(to_lower_char(v[i]));
        i += 1;
        assert(lowered(s@).take(i as int) =~= lowered(s@).take(i - 1).push(lower_char(s@[i - 1])));
    }
    assert(lowered(s@).take(s@.len() as int) =~= lowered(s@));
    out
}

/// Raises the ASCII letters of a text.
pub fn to_upper(s: &str) -> (out: String)
    ensures
        out@ == raised(s@),
{
    let v = chars_of(s);
    let mut out: String = String::new();
    let mut i: usize = 0;
    while i < v.len()
        invariant
            v@ == s@,
            i <= v@.len(),
            out@ == raised(s@).take(i as int),
        decreases v@.len() - i,
    {
        out.push(to_upper_char(v[i]));
        i += 1;
        assert(raised(s@).take(i as int) =~= raised(s@).take(i - 1).push(upper_char(s@[i - 1])));
    }
    assert(raised(s@).take(s@.len() as int) =~= raised(s@));
    out
}

/// Whether two texts differ in the case of ASCII letters at most.
pub fn same_ignoring_case(a: &str, b: &str) -> (r: bool)
    ensures
        r == (lowered(a@) == lowered(b@)),
{
    same(to_lower(a).as_str(), to_lower(b).as_str())
}

// ------------------------------------------------------------- joining and padding

/// `list` with `sep` between neighbours.
pub open spec fn joined(list: Seq<Seq<char>>, sep: Seq<char>) -> Seq<char>
    decreases list.len(),
{
    if list.len() == 0 {
        Seq::empty()
    } else if list.len() == 1 {
        list[0]
    } else {
        joined(list.drop_last(), sep) + sep + list.last()
    }
}

/// Joins texts with a separator between neighbours.
pub fn join(list: &Vec<String>, sep: &str) -> (out: String)
    ensures
        out@ == joined(texts(list@), sep@),
{
    let mut out: String = String::new();
    let mut i: usize = 0;
    let ghost all = texts(list@);
    while i < list.len()
        invariant
            i <= list@.len(),
            all == texts(list@),
            out@ == joined(all.take(i as int), sep@),
        decreases list@.len() - i,
    {
        if i > 0 {
            out.append(sep);
        }
        out.append(list[i].as_str());
        i += 1;
        assert(all.take(i as int).drop_last() =~= all.take(i - 1));
        assert(all.take(i as int).last() == list@[i - 1]@);
        if i == 1 {
            assert(out@ =~= list@[0]@);
        }
    }
    assert(all.take(all.len() as int) =~= all);
    out
}

/// `n` blanks.
pub open spec fn blanks(n: nat) -> Seq<char> {
    Seq::new(n, |i: int| ' ')
}

/// `s` followed by blanks up to `width` characters.
pub open spec fn padded(s: Seq<char>, width: nat) -> Seq<char> {
    if s.len() < width {
        s + blanks((width - s.len()) as nat)
    } else {
        s
    }
}

/// Pads a text with blanks on the right, counting characters.
pub fn pad_right(s: &str, width: usize) -> (out: String)
    ensures
        out@ == padded(s@, width as nat),
{
    let mut out: String = s.to_owned();
    let mut n: usize = s.unicode_len();
    while n < width
        invariant
            n >= s@.len(),
            n > s@.len() ==> n <= width,
            out@ == s@ + blanks((n - s@.len()) as nat),
        decreases width - n,
    {
        out.push(' ');
        n += 1;
        assert(out@ =~= s@ + blanks((n - s@.len()) as nat));
    }
    out
}

// ----------------------------------------------------------------- splitting at a character

/// The pieces of `s` between the occurrences of `sep`: one more than there are of those.
pub open spec fn split_at_char(s: Seq<char>, sep: char) -> Seq<Seq<char>>
    decreases s.len(),
{
    if s.len() == 0 {
        seq![Seq::empty()]
    } else {
        let pieces = split_at_char(s.drop_last(), sep);
        if s.last() == sep {
            pieces.push(Seq::empty())
        } else {
            pieces.drop_last().push(pieces.last().push(s.last()))
        }
    }
}

pub proof fn lemma_split_nonempty(s: Seq<char>, sep: char)
    ensures
        split_at_char(s, sep).len() > 0,
    decreases s.len(),
{
    if s.len() > 0 {
        lemma_split_nonempty(s.drop_last(), sep);
    }
}

/// Splits a text at every occurrence of a character.
pub fn split_char(s: &str, sep: char) -> (out: Vec<String>)
    ensures
        texts(out@) == split_at_char(s@, sep),
{
    let v = chars_of(s);
    let mut out: Vec<String> = Vec::new();
    let mut piece: String = String::new();
    let mut i: usize = 0;
    proof {
        assert(v@.take(0) =~= Seq::<char>::empty());
        assert(texts(out@).push(piece@) =~= seq![Seq::<char>::empty()]);
    }
    while i < v.len()
        invariant
            v@ == s@,
            i <= v@.len(),
            texts(out@).push(piece@) == split_at_char(v@.take(i as int), sep),
        decreases v@.len() - i,
    {
        let ghost before = texts(out@).push(piece@);
        let c = v[i];
        proof {
            assert(v@.take(i + 1).drop_last() =~= v@.take(i as int));
            assert(v@.take(i + 1).last() == c);
            assert(before.drop_last() =~= texts(out@));
        }
        if c == sep {
            let ghost old_out = out@;
            out.push(piece);
            assert(texts(out@) =~= before);
            piece = String::new();
        } else {
            piece.push(c);
        }
        i += 1;
    }
    let ghost before = texts(out@).push(piece@);
    out.push(piece);
    proof {
        assert(texts(out@) =~= before);
        assert(v@.take(v@.len() as int) =~= s@);
    }
    out
}

/// A line without the carriage return that stood before its line feed.
pub open spec fn without_return(s: Seq<char>) -> Seq<char> {
    if s.len() > 0 && s.last() == '\r' {
        s.drop_last()
    } else {
        s
    }
}

/// The lines of `s`: what its line feeds end, and what follows the last one if anything does.
pub open spec fn lines(s: Seq<char>) -> Seq<Seq<char>> {
    let pieces = split_at_char(s, '\n');
    let ended = pieces.drop_last().map_values(|p: Seq<char>| without_return(p));
    if pieces.last().len() == 0 {
        ended
    } else {
        ended.push(pieces.last())
    }
}

/// Splits a text into its lines.
pub fn lines_of(s: &str) -> (out: Vec<String>)
    ensures
        texts(out@) == lines(s@),
{
    let pieces = split_char(s, '\n');
    proof {
        lemma_split_nonempty(s@, '\n');
    }
    assert(texts(pieces@).len() == pieces@.len());
    let mut out: Vec<String> = Vec::new();
    let last: usize = pieces.len() - 1;
    let mut i: usize = 0;
    let ghost ended = texts(pieces@).drop_last().map_values(|p: Seq<char>| without_return(p));
    while i < last
        invariant
            last == pieces@.len() - 1,
            i <= last,
            ended == texts(pieces@).drop_last().map_values(|p: Seq<char>| without_return(p)),
            texts(out@) == ended.take(i as int),
        decreases last - i,
    {
        let v = chars_of(pieces[i].as_str());
        let n: usize = if v.len() > 0 && v[v.len() - 1] == '\r' {
            v.len() - 1
        } else {
            v.len()
        };
        let line = text_of(&v, 0, n);
        assert(line@ =~= without_return(pieces@[i as int]@));
        let ghost before = texts(out@);
        out.push(line);
        assert(texts(out@) =~= before.push(line@));
        assert(ended.take(i + 1) =~= ended.take(i as int).push(ended[i as int]));
        i += 1;
    }
    assert(ended.take(last as int) =~= ended);
    assert(texts(pieces@).last() == pieces@[last as int]@);
    if !pieces[last].as_str().is_empty() {
        let ghost before = texts(out@);
        out.push(pieces[last].clone());
        assert(texts(out@) =~= before.push(pieces@[last as int]@));
    }
    out
}

// ----------------------------------------------------------------------- numbers

/// The decimal digit of `d < 10`.
pub open spec fn digit_char(d: nat) -> char {
    (d + 48) as char
}

/// The decimal spelling of `n`.
pub open spec fn decimal(n: nat) -> Seq<char>
    decreases n,
{
    if n < 10 {
        seq![digit_char(n)]
    } else {
        decimal(n / 10).push(digit_char(n % 10))
    }
}

/// Spells a number in decimal.
pub fn decimal_of(n: u64) -> (out: String)
    ensures
        out@ == decimal(n as nat),
    decreases n,
{
    if n < 10 {
        let mut out: String = String::new();
        out.push((n as u8 + 48) as char);
        assert(out@ =~= decimal(n as nat));
        out
    } else {
        let mut out: String = decimal_of(n / 10);
        out.push(((n % 10) as u8 + 48) as char);
        out
    }
}

/// The number that decimal digits spell, or `None` where one is no digit.
pub open spec fn digits_value(s: Seq<char>) -> Option<nat>
    decreases s.len(),
{
    if s.len() == 0 {
        Some(0)
    } else {
        match digits_value(s.drop_last()) {
            Some(high) => if '0' <= s.last() <= '9' {
                Some(high * 10 + (s.last() as nat - 48) as nat)
            } else {
                None
            },
            None => None,
        }
    }
}

/// What a decimal number no larger than `max` spells: at least one digit, after a `+` if there
/// is one.
pub open spec fn number_value(s: Seq<char>, max: nat) -> Option<nat> {
    let digits = if s.len() > 0 && s[0] == '+' {
        s.skip(1)
    } else {
        s
    };
    match digits_value(digits) {
        Some(n) => if digits.len() > 0 && n <= max {
            Some(n)
        } else {
            None
        },
        None => None,
    }
}

proof fn lemma_digits_prefix(s: Seq<char>, i: int)
    requires
        0 <= i <= s.len(),
    ensures
        digits_value(s.take(i)) is None ==> digits_value(s) is None,
        digits_value(s) is Some ==> digits_value(s)->0 >= digits_value(s.take(i))->0,
    decreases s.len(),
{
    if i == s.len() {
        assert(s.take(i) =~= s);
    } else {
        lemma_digits_prefix(s.drop_last(), i);
        assert(s.drop_last().take(i) =~= s.take(i));
    }
}

/// Reads a decimal number no larger than `max`.
pub fn number_of(s: &str, max: u64) -> (r: Option<u64>)
    ensures
        match r {
            Some(n) => number_value(s@, max as nat) == Some(n as nat),
            None => number_value(s@, max as nat) is None,
        },
{
    let v = chars_of(s);
    let from: usize = if v.len() > 0 && v[0] == '+' {
        1
    } else {
        0
    };
    let ghost digits = s@.skip(from as int);
    assert(s@.skip(0) =~= s@);
    if from == v.len() {
        return None;
    }
    let mut n: u64 = 0;
    let mut i: usize = from;
    assert(digits.take(0) =~= Seq::<char>::empty());
    while i < v.len()
        invariant
            v@ == s@,
            from <= i <= v@.len(),
            from < v@.len(),
            digits == s@.skip(from as int),
            from == (if s@.len() > 0 && s@[0] == '+' {
                1int
            } else {
                0int
            }),
            s@.skip(0) == s@,
            n <= max,
            digits_value(digits.take(i - from)) == Some(n as nat),
        decreases v@.len() - i,
    {
        let c = v[i];
        proof {
            assert(digits.take(i - from + 1).drop_last() =~= digits.take(i - from));
            assert(digits.take(i - from + 1).last() == c);
            lemma_digits_prefix(digits, i - from + 1);
        }
        if c < '0' || '9' < c {
            return None;
        }
        let d: u64 = c as u64 - 48;
        let wide: u128 = (n as u128) * 10 + d as u128;
        if wide > max as u128 {
            return None;
        }
        n = wide as u64;
        i += 1;
    }
    assert(digits.take(digits.len() as int) =~= digits);
    Some(n)
}

} // verus!
