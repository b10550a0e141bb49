//! Facts about texts: words, joining, splitting and trimming.
use vstd::prelude::*;

use crate::text::{
    blanks, decimal, digits_value, is_space, joined, leading_spaces, leading_word,
    lemma_leading_spaces, lemma_leading_word, lemma_split_nonempty, lines, lower_char, lowered,
    number_value, padded, raised, split_at_char, trailing_spaces, trimmed, trimmed_end,
    trimmed_start, upper_char, without_return, words,
};

verus! {

/// Whether a text is a single word.
pub open spec fn is_word(w: Seq<char>) -> bool {
    w.len() > 0 && forall|i: int| 0 <= i < w.len() ==> !is_space(#[trigger] w[i])
}

/// Whether every text of a list is a single word.
pub open spec fn are_words(list: Seq<Seq<char>>) -> bool {
    forall|i: int| 0 <= i < list.len() ==> is_word(#[trigger] list[i])
}

/// A word at the front is the first word, where white space or nothing follows it.
pub proof fn lemma_word_first(w: Seq<char>, rest: Seq<char>)
    requires
        is_word(w),
        rest.len() == 0 || is_space(rest[0]),
    ensures
        words(w + rest) == seq![w] + words(rest),
{
    let s = w + rest;
    assert(s[0] == w[0]);
    assert(leading_spaces(s) == 0);
    assert(trimmed_start(s) =~= s);
    lemma_leading_word(s);
    let n = leading_word(s) as int;
    if n < w.len() {
        assert(s[n] == w[n]);
    } else if n > w.len() {
        assert(s[w.len() as int] == rest[0]);
    }
    assert(s.take(n) =~= w);
    assert(s.skip(n) =~= rest);
}

/// White space at the front holds no word.
pub proof fn lemma_spaces_first(sp: Seq<char>, rest: Seq<char>)
    requires
        forall|i: int| 0 <= i < sp.len() ==> is_space(#[trigger] sp[i]),
    ensures
        leading_spaces(sp + rest) == sp.len() + leading_spaces(rest),
        trimmed_start(sp + rest) == trimmed_start(rest),
        words(sp + rest) == words(rest),
    decreases sp.len(),
{
    if sp.len() == 0 {
        assert(sp + rest =~= rest);
    } else {
        let s = sp + rest;
        assert(s[0] == sp[0]);
        assert(s.skip(1) =~= sp.skip(1) + rest);
        assert forall|i: int| 0 <= i < sp.skip(1).len() implies is_space(#[trigger] sp.skip(1)[i]) by {
            assert(sp[i + 1] == sp.skip(1)[i]);
        }
        lemma_spaces_first(sp.skip(1), rest);
        lemma_leading_spaces(rest);
        assert(trimmed_start(s) =~= trimmed_start(rest));
    }
}

/// The words of a text are words.
pub proof fn lemma_words_are_words(s: Seq<char>)
    ensures
        are_words(words(s)),
    decreases s.len(),
{
    lemma_leading_spaces(s);
    let t = trimmed_start(s);
    if t.len() > 0 {
        lemma_leading_word(t);
        let n = leading_word(t) as int;
        assert(t[0] == s[leading_spaces(s) as int]);
        assert(n > 0);
        let first = t.take(n);
        assert(is_word(first)) by {
            assert forall|i: int| 0 <= i < first.len() implies !is_space(#[trigger] first[i]) by {
                assert(first[i] == t[i]);
            }
        }
        lemma_words_are_words(t.skip(n));
        assert forall|i: int| 0 <= i < words(s).len() implies is_word(#[trigger] words(s)[i]) by {
            if i > 0 {
                assert(words(s)[i] == words(t.skip(n))[i - 1]);
            }
        }
    }
}

/// A joined list begins with its first text.
pub proof fn lemma_joined_first(list: Seq<Seq<char>>, sep: Seq<char>)
    requires
        list.len() > 1,
    ensures
        joined(list, sep) == list[0] + sep + joined(list.skip(1), sep),
    decreases list.len(),
{
    let rest = list.skip(1);
    if list.len() == 2 {
        assert(list.drop_last() =~= seq![list[0]]);
        assert(rest =~= seq![list[1]]);
        assert(joined(list.drop_last(), sep) == list[0]);
    } else {
        assert(list.drop_last().skip(1) =~= rest.drop_last());
        assert(list.drop_last()[0] == list[0]);
        lemma_joined_first(list.drop_last(), sep);
        assert(rest.last() == list.last());
        assert(joined(list, sep) =~= list[0] + sep + joined(rest, sep));
    }
}

/// Words joined by blanks are those words.
pub proof fn lemma_words_of_joined(list: Seq<Seq<char>>)
    requires
        are_words(list),
    ensures
        words(joined(list, " "@)) == list,
    decreases list.len(),
{
    reveal_strlit(" ");
    if list.len() == 0 {
        assert(joined(list, " "@) =~= Seq::<char>::empty());
        assert(trimmed_start(Seq::<char>::empty()) =~= Seq::<char>::empty());
        assert(words(joined(list, " "@)) =~= list);
    } else if list.len() == 1 {
        let w = list[0];
        assert(w + Seq::<char>::empty() =~= w);
        lemma_word_first(w, Seq::empty());
        assert(trimmed_start(Seq::<char>::empty()) =~= Seq::<char>::empty());
        assert(words(w) =~= list);
    } else {
        lemma_joined_first(list, " "@);
        let rest = joined(list.skip(1), " "@);
        assert forall|i: int| 0 <= i < list.skip(1).len() implies is_word(
            #[trigger] list.skip(1)[i],
        ) by {
            assert(is_word(list[i + 1]));
        }
        lemma_words_of_joined(list.skip(1));
        assert(is_space(' '));
        assert(joined(list, " "@) =~= list[0] + (" "@ + rest));
        lemma_word_first(list[0], " "@ + rest);
        lemma_spaces_first(" "@, rest);
        assert(seq![list[0]] + list.skip(1) =~= list);
    }
}

/// A padded word in front of other words.
pub proof fn lemma_words_of_padded(w: Seq<char>, width: nat, rest: Seq<char>)
    requires
        is_word(w),
    ensures
        words(padded(w, width) + " "@ + rest) == seq![w] + words(rest),
{
    reveal_strlit(" ");
    let gap = if w.len() < width {
        blanks((width - w.len()) as nat) + " "@
    } else {
        " "@
    };
    assert forall|i: int| 0 <= i < gap.len() implies is_space(#[trigger] gap[i]) by {}
    assert(padded(w, width) + " "@ + rest =~= w + (gap + rest));
    assert((gap + rest)[0] == gap[0]);
    lemma_word_first(w, gap + rest);
    lemma_spaces_first(gap, rest);
}

/// Raising letters twice is raising them once.
pub proof fn lemma_raised_twice(s: Seq<char>)
    ensures
        raised(raised(s)) == raised(s),
{
    assert(raised(raised(s)) =~= raised(s));
}

/// Splitting at a separator between two texts splits each of them.
pub proof fn lemma_split_concat(a: Seq<char>, b: Seq<char>, sep: char)
    ensures
        split_at_char(a + seq![sep] + b, sep) == split_at_char(a, sep) + split_at_char(b, sep),
    decreases b.len(),
{
    let s = a + seq![sep] + b;
    lemma_split_nonempty(b, sep);
    if b.len() == 0 {
        assert(s.drop_last() =~= a);
        assert(s.last() == sep);
        assert(split_at_char(b, sep) =~= seq![Seq::<char>::empty()]);
        assert(split_at_char(s, sep) =~= split_at_char(a, sep) + split_at_char(b, sep));
    } else {
        assert(s.drop_last() =~= a + seq![sep] + b.drop_last());
        assert(s.last() == b.last());
        lemma_split_concat(a, b.drop_last(), sep);
        lemma_split_nonempty(b.drop_last(), sep);
        let pieces = split_at_char(s.drop_last(), sep);
        let tail = split_at_char(b.drop_last(), sep);
        assert(pieces == split_at_char(a, sep) + tail);
        if b.last() == sep {
            assert(split_at_char(s, sep) =~= split_at_char(a, sep) + split_at_char(b, sep));
        } else {
            assert(pieces.last() == tail.last());
            assert(pieces.drop_last() =~= split_at_char(a, sep) + tail.drop_last());
            assert(split_at_char(s, sep) =~= split_at_char(a, sep) + split_at_char(b, sep));
        }
    }
}

/// A text without the separator is one piece.
pub proof fn lemma_split_plain(s: Seq<char>, sep: char)
    requires
        !s.contains(sep),
    ensures
        split_at_char(s, sep) == seq![s],
    decreases s.len(),
{
    if s.len() == 0 {
        assert(s =~= Seq::<char>::empty());
    } else {
        assert(s[s.len() - 1] != sep);
        assert forall|i: int| 0 <= i < s.drop_last().len() implies s.drop_last()[i] != sep by {
            assert(s[i] != sep);
        }
        lemma_split_plain(s.drop_last(), sep);
        assert(s.drop_last().push(s.last()) =~= s);
        assert(split_at_char(s, sep) =~= seq![s]);
    }
}

/// Blanks alone trim to nothing.
pub proof fn lemma_trimmed_blanks(n: nat)
    ensures
        trimmed(blanks(n)) == Seq::<char>::empty(),
{
    let sp = blanks(n);
    assert forall|i: int| 0 <= i < sp.len() implies is_space(#[trigger] sp[i]) by {}
    lemma_spaces_first(sp, Seq::empty());
    assert(sp + Seq::<char>::empty() =~= sp);
    assert(trimmed_start(Seq::<char>::empty()) =~= Seq::<char>::empty());
    assert(trimmed_end(Seq::<char>::empty()) =~= Seq::<char>::empty());
}

/// A text that neither begins nor ends with white space is what is left of it behind blanks.
pub proof fn lemma_trimmed_behind_blanks(n: nat, s: Seq<char>)
    requires
        s.len() > 0,
        !is_space(s[0]),
        !is_space(s.last()),
    ensures
        trimmed(blanks(n) + s) == s,
{
    let sp = blanks(n);
    assert forall|i: int| 0 <= i < sp.len() implies is_space(#[trigger] sp[i]) by {}
    lemma_spaces_first(sp, s);
    assert(trimmed_start(s) =~= s);
    assert(trailing_spaces(s) == 0);
    assert(trimmed_end(s) =~= s);
}

/// What is left of a text after trimming neither begins nor ends with white space.
pub proof fn lemma_trimmed_ends(s: Seq<char>)
    ensures
        trimmed(s).len() > 0 ==> !is_space(trimmed(s)[0]) && !is_space(trimmed(s).last()),
        forall|c: char| trimmed(s).contains(c) ==> s.contains(c),
{
    lemma_leading_spaces(s);
    let t = trimmed_start(s);
    lemma_trailing(t);
    let u = trimmed(s);
    if u.len() > 0 {
        assert(u[0] == t[0]);
        assert(t[0] == s[leading_spaces(s) as int]);
        assert(u.last() == t[t.len() - trailing_spaces(t) - 1]);
    }
    assert forall|c: char| u.contains(c) implies s.contains(c) by {
        let i = choose|i: int| 0 <= i < u.len() && u[i] == c;
        assert(t[i] == c);
        assert(s[i + leading_spaces(s)] == c);
    }
}

proof fn lemma_trailing(s: Seq<char>)
    ensures
        trailing_spaces(s) <= s.len(),
        trailing_spaces(s) < s.len() ==> !is_space(s[s.len() - trailing_spaces(s) - 1]),
    decreases s.len(),
{
    if s.len() > 0 && is_space(s.last()) {
        lemma_trailing(s.drop_last());
        if trailing_spaces(s) < s.len() {
            assert(s[s.len() - trailing_spaces(s) - 1] == s.drop_last()[s.drop_last().len()
                - trailing_spaces(s.drop_last()) - 1]);
        }
    }
}

// ---------------------------------------------------------------------------------- numbers

/// A number that was written reads back as itself, with or without a plus sign, unless it is more
/// than is asked for.
pub proof fn law_a_number_reads_back(n: nat, max: nat)
    ensures
        n <= max ==> number_value(decimal(n), max) == Some(n),
        n > max ==> number_value(decimal(n), max) is None,
        n <= max ==> number_value(seq!['+'] + decimal(n), max) == Some(n),
{
    lemma_decimal(n);
    let text = decimal(n);
    assert(text[0] != '+');
    let signed = seq!['+'] + text;
    assert(signed.skip(1) =~= text);
    assert(signed[0] == '+');
}

proof fn lemma_decimal(n: nat)
    ensures
        digits_value(decimal(n)) == Some(n),
        decimal(n).len() > 0,
        forall|i: int| 0 <= i < decimal(n).len() ==> '0' <= (#[trigger] decimal(n)[i]) <= '9',
    decreases n,
{
    reveal_with_fuel(digits_value, 2);
    let text = decimal(n);
    if n < 10 {
        assert(text.drop_last() =~= Seq::<char>::empty());
    } else {
        lemma_decimal(n / 10);
        let high = decimal(n / 10);
        assert(text.drop_last() =~= high);
        assert(n == (n / 10) * 10 + n % 10);
        assert forall|i: int| 0 <= i < text.len() implies '0' <= (#[trigger] text[i]) <= '9' by {
            if i < high.len() {
                assert(text[i] == high[i]);
            }
        }
    }
}

/// A text with anything but digits is no number, and neither is an empty one.
pub proof fn law_only_digits_make_a_number(s: Seq<char>, max: nat, i: int)
    requires
        s.len() > 0 ==> s[0] != '+',
        s.len() == 0 || (0 <= i < s.len() && !('0' <= s[i] <= '9')),
    ensures
        number_value(s, max) is None,
{
    if s.len() > 0 {
        lemma_not_digits(s, i);
    }
}

proof fn lemma_not_digits(s: Seq<char>, i: int)
    requires
        0 <= i < s.len(),
        !('0' <= s[i] <= '9'),
    ensures
        digits_value(s) is None,
    decreases s.len(),
{
    if i < s.len() - 1 {
        assert(s.drop_last()[i] == s[i]);
        lemma_not_digits(s.drop_last(), i);
    }
}

// ------------------------------------------------------------------------------------ case

/// Lowering and raising change the twenty-six letters and nothing else: each becomes the letter of
/// the same name, thirty-two places away, and one undoes the other.
pub proof fn law_case_belongs_to_letters(c: char, s: Seq<char>, t: Seq<char>)
    ensures
        lower_char('A') == 'a',
        lower_char('Z') == 'z',
        upper_char('a') == 'A',
        upper_char('z') == 'Z',
        'A' <= c <= 'Z' ==> lower_char(c) as int == c as int + 32 && upper_char(lower_char(c)) == c,
        'a' <= c <= 'z' ==> upper_char(c) as int == c as int - 32 && lower_char(upper_char(c)) == c,
        !('A' <= c <= 'Z') ==> lower_char(c) == c,
        !('a' <= c <= 'z') ==> upper_char(c) == c,
        lowered(s).len() == s.len(),
        lowered(s + t) == lowered(s) + lowered(t),
        lowered(raised(s)) == lowered(s),
        lowered(lowered(s)) == lowered(s),
{
    assert(lowered(s + t) =~= lowered(s) + lowered(t));
    assert(lowered(raised(s)) =~= lowered(s));
    assert(lowered(lowered(s)) =~= lowered(s));
}

// ---------------------------------------------------------------------------------- trimming

/// Trimming takes white space off both ends and nothing else.
pub proof fn law_trimming_takes_white_space_off_both_ends(
    front: Seq<char>,
    s: Seq<char>,
    back: Seq<char>,
)
    requires
        forall|i: int| 0 <= i < front.len() ==> is_space(#[trigger] front[i]),
        forall|i: int| 0 <= i < back.len() ==> is_space(#[trigger] back[i]),
        s.len() > 0,
        !is_space(s[0]),
        !is_space(s.last()),
    ensures
        trimmed(front + s + back) == s,
{
    assert(front + s + back =~= front + (s + back));
    lemma_spaces_first(front, s + back);
    assert((s + back)[0] == s[0]);
    assert(trimmed_start(s + back) =~= s + back);
    lemma_trailing_after(s, back);
    assert((s + back).take(s.len() as int) =~= s);
}

proof fn lemma_trailing_after(s: Seq<char>, back: Seq<char>)
    requires
        forall|i: int| 0 <= i < back.len() ==> is_space(#[trigger] back[i]),
        s.len() > 0,
        !is_space(s.last()),
    ensures
        trailing_spaces(s + back) == back.len(),
    decreases back.len(),
{
    if back.len() == 0 {
        assert(s + back =~= s);
    } else {
        assert((s + back).last() == back[back.len() - 1]);
        assert((s + back).drop_last() =~= s + back.drop_last());
        assert forall|i: int| 0 <= i < back.drop_last().len() implies is_space(
            #[trigger] back.drop_last()[i],
        ) by {
            assert(back.drop_last()[i] == back[i]);
        }
        lemma_trailing_after(s, back.drop_last());
    }
}

/// The white space of a text file: tab, line feed, return and space are, letters, digits and signs
/// are not.
pub proof fn law_what_is_white_space(c: char)
    ensures
        is_space(' '),
        is_space('\t'),
        is_space('\n'),
        is_space('\r'),
        '!' <= c <= '~' ==> !is_space(c),
{
}

/// Text is padded to a width with blanks behind it, and never cut.
pub proof fn law_padding_never_cuts(s: Seq<char>, width: nat)
    ensures
        padded(s, width).len() == (if s.len() < width {
            width
        } else {
            s.len()
        }),
        padded(s, width).take(s.len() as int) == s,
        forall|i: int| s.len() <= i < padded(s, width).len() ==> #[trigger] padded(s, width)[i] == ' ',
{
    assert(padded(s, width).take(s.len() as int) =~= s);
}

/// The lines of a text are what its line feeds end, without the return that may stand before each,
/// and what follows the last one; the end of the text ends no empty line.
pub proof fn law_line_feeds_end_lines(first: Seq<char>, rest: Seq<char>)
    requires
        !first.contains('\n'),
        first.len() > 0 ==> first.last() != '\r',
    ensures
        lines(Seq::empty()) == Seq::<Seq<char>>::empty(),
        lines(first + seq!['\n'] + rest) == seq![first] + lines(rest),
        lines(first + seq!['\r', '\n'] + rest) == seq![first] + lines(rest),
        first.len() > 0 ==> lines(first) == seq![first],
{
    lemma_lines_first(first, first, rest);
    let returned = first.push('\r');
    assert(!returned.contains('\n')) by {
        assert forall|i: int| 0 <= i < returned.len() implies returned[i] != '\n' by {
            if i < first.len() {
                assert(first[i] != '\n');
            }
        }
    }
    assert(returned.drop_last() =~= first);
    lemma_lines_first(returned, first, rest);
    assert(returned + seq!['\n'] + rest =~= first + seq!['\r', '\n'] + rest);
    lemma_split_plain(first, '\n');
    lemma_split_plain(Seq::empty(), '\n');
    assert(lines(Seq::empty()) =~= Seq::<Seq<char>>::empty());
    if first.len() > 0 {
        assert(lines(first) =~= seq![first]);
    }
}

proof fn lemma_lines_first(piece: Seq<char>, line: Seq<char>, rest: Seq<char>)
    requires
        !piece.contains('\n'),
        without_return(piece) == line,
    ensures
        lines(piece + seq!['\n'] + rest) == seq![line] + lines(rest),
{
    lemma_split_concat(piece, rest, '\n');
    lemma_split_plain(piece, '\n');
    lemma_split_nonempty(rest, '\n');
    let after = split_at_char(rest, '\n');
    let pieces = split_at_char(piece + seq!['\n'] + rest, '\n');
    assert(pieces =~= seq![piece] + after);
    assert(pieces.last() == after.last());
    assert(pieces.drop_last() =~= seq![piece] + after.drop_last());
    assert(lines(piece + seq!['\n'] + rest) =~= seq![line] + lines(rest));
}

/// A number is written without a zero in front, digit by digit: ten times a number and a digit is
/// the number and the digit behind it.
pub proof fn law_a_number_is_written_digit_by_digit(n: nat, digit: nat)
    requires
        digit < 10,
    ensures
        decimal(0) == seq!['0'],
        decimal(7) == seq!['7'],
        n > 0 ==> decimal(n)[0] != '0',
        n > 0 ==> decimal(n * 10 + digit) == decimal(n).push((48 + digit) as char),
        decimal(digit) == seq![(48 + digit) as char],
    decreases n,
{
    let m = n * 10 + digit;
    assert(m / 10 == n && m % 10 == digit);
    if n >= 10 {
        law_a_number_is_written_digit_by_digit(n / 10, n % 10);
        lemma_decimal(n / 10);
        assert(n == (n / 10) * 10 + n % 10);
        assert(decimal(n)[0] == decimal(n / 10)[0]);
    }
}

} // verus!
