//! Which programs a profile applies to.
use vstd::prelude::*;

use crate::text::{chars_of, lowered, to_lower};

verus! {

/// Whether a text matches a pattern in which `*` stands for any run of characters, none included.
pub open spec fn matches_pattern(pattern: Seq<char>, text: Seq<char>) -> bool
    decreases pattern.len(), text.len(),
{
    if pattern.len() == 0 {
        text.len() == 0
    } else if pattern[0] == '*' {
        matches_pattern(pattern.skip(1), text) || (text.len() > 0 && matches_pattern(
            pattern,
            text.skip(1),
        ))
    } else {
        text.len() > 0 && pattern[0] == text[0] && matches_pattern(pattern.skip(1), text.skip(1))
    }
}

/// Whether the focused program's name matches a pattern, in any mix of upper and lower case.
pub fn program_matches(pattern: &str, class: &str) -> (r: bool)
    ensures
        r == matches_pattern(lowered(pattern@), lowered(class@)),
{
    let small_pattern = to_lower(pattern);
    let small_class = to_lower(class);
    let p = chars_of(small_pattern.as_str());
    let t = chars_of(small_class.as_str());
    // Each row says, for one rest of the pattern, which rests of the text it matches.
    let mut row = empty_rest_row(&t);
    let mut i: usize = p.len();
    assert(p@.skip(i as int) =~= Seq::<char>::empty());
    while i > 0
        invariant
            i <= p@.len(),
            row@.len() == t@.len() + 1,
            forall|j: int|
                0 <= j <= t@.len() ==> row@[j] == #[trigger] matches_pattern(
                    p@.skip(i as int),
                    t@.skip(j),
                ),
        decreases i,
    {
        i -= 1;
        row = longer_rest_row(&p, &t, i, &row);
    }
    proof {
        assert(p@.skip(0) =~= p@);
        assert(t@.skip(0) =~= t@);
        assert(row@[0] == matches_pattern(p@.skip(0), t@.skip(0)));
    }
    row[0]
}

/// What the empty pattern matches: the empty rest alone.
fn empty_rest_row(t: &Vec<char>) -> (row: Vec<bool>)
    ensures
        row@.len() == t@.len() + 1,
        forall|j: int|
            0 <= j <= t@.len() ==> row@[j] == #[trigger] matches_pattern(Seq::empty(), t@.skip(j)),
{
    let mut row: Vec<bool> = Vec::new();
    let mut j: usize = 0;
    while j < t.len()
        invariant
            j <= t@.len(),
            row@.len() == j,
            forall|k: int| 0 <= k < j ==> !row@[k],
        decreases t@.len() - j,
    {
        row.push(false);
        j += 1;
    }
    row.push(true);
    row
}

/// What a pattern with one more character in front matches.
fn longer_rest_row(p: &Vec<char>, t: &Vec<char>, i: usize, shorter: &Vec<bool>) -> (row: Vec<bool>)
    requires
        i < p@.len(),
        shorter@.len() == t@.len() + 1,
        forall|j: int|
            0 <= j <= t@.len() ==> shorter@[j] == #[trigger] matches_pattern(
                p@.skip(i + 1),
                t@.skip(j),
            ),
    ensures
        row@.len() == t@.len() + 1,
        forall|j: int|
            0 <= j <= t@.len() ==> row@[j] == #[trigger] matches_pattern(
                p@.skip(i as int),
                t@.skip(j),
            ),
{
    let ghost rest = p@.skip(i as int);
    assert(rest.skip(1) =~= p@.skip(i + 1));
    assert(rest[0] == p@[i as int]);
    let star = p[i] == '*';
    let mut row: Vec<bool> = Vec::new();
    let mut n: usize = 0;
    while n < shorter.len()
        invariant
            n <= shorter@.len(),
            row@.len() == n,
            shorter@.len() == t@.len() + 1,
        decreases shorter@.len() - n,
    {
        row.push(false);
        n += 1;
    }
    let mut j: usize = t.len();
    row.set(j, star && shorter[j]);
    proof {
        assert(t@.skip(j as int).len() == 0);
        assert(shorter@[j as int] == matches_pattern(rest.skip(1), t@.skip(j as int)));
    }
    while j > 0
        invariant
            i < p@.len(),
            j <= t@.len(),
            row@.len() == t@.len() + 1,
            shorter@.len() == t@.len() + 1,
            rest == p@.skip(i as int),
            rest.skip(1) == p@.skip(i + 1),
            rest[0] == p@[i as int],
            star == (p@[i as int] == '*'),
            forall|k: int|
                0 <= k <= t@.len() ==> shorter@[k] == #[trigger] matches_pattern(
                    p@.skip(i + 1),
                    t@.skip(k),
                ),
            forall|k: int|
                j <= k <= t@.len() ==> row@[k] == #[trigger] matches_pattern(rest, t@.skip(k)),
        decreases j,
    {
        j -= 1;
        let here = if star {
            shorter[j] || row[j + 1]
        } else {
            p[i] == t[j] && shorter[j + 1]
        };
        proof {
            let text = t@.skip(j as int);
            assert(text.skip(1) =~= t@.skip(j + 1));
            assert(text[0] == t@[j as int]);
            assert(shorter@[j as int] == matches_pattern(p@.skip(i + 1), text));
            assert(shorter@[j + 1] == matches_pattern(p@.skip(i + 1), t@.skip(j + 1)));
            assert(row@[j + 1] == matches_pattern(rest, t@.skip(j + 1)));
            assert(here == matches_pattern(rest, text));
        }
        row.set(j, here);
    }
    row
}

/// The pattern `*` applies everywhere.
pub proof fn law_a_lone_star_matches_everything(text: Seq<char>)
    ensures
        matches_pattern(seq!['*'], text),
    decreases text.len(),
{
    let star = seq!['*'];
    if text.len() > 0 {
        law_a_lone_star_matches_everything(text.skip(1));
    } else {
        assert(star.skip(1) =~= Seq::empty());
        assert(matches_pattern(star.skip(1), text));
    }
}

/// A pattern without a star matches exactly itself.
pub proof fn law_a_plain_pattern_matches_only_itself(pattern: Seq<char>, text: Seq<char>)
    requires
        !pattern.contains('*'),
    ensures
        matches_pattern(pattern, text) <==> pattern == text,
    decreases pattern.len(),
{
    if pattern.len() == 0 {
        assert(matches_pattern(pattern, text) ==> text =~= pattern);
    } else {
        assert(pattern[0] != '*');
        assert forall|i: int| 0 <= i < pattern.skip(1).len() implies pattern.skip(1)[i] != '*' by {
            assert(pattern[i + 1] != '*');
        }
        if text.len() > 0 {
            law_a_plain_pattern_matches_only_itself(pattern.skip(1), text.skip(1));
            if matches_pattern(pattern, text) {
                assert(pattern =~= seq![pattern[0]] + pattern.skip(1));
                assert(text =~= seq![text[0]] + text.skip(1));
            }
        }
    }
}

/// The empty pattern matches nothing but the empty text.
pub proof fn law_an_empty_pattern_matches_only_nothing(text: Seq<char>)
    ensures
        matches_pattern(Seq::empty(), text) <==> text == Seq::<char>::empty(),
{
    if text.len() == 0 {
        assert(text =~= Seq::<char>::empty());
    }
}

/// A star stands for any run of characters, whatever they are: a pattern that begins with one
/// matches a text exactly where the rest of the pattern matches some end of the text.
pub proof fn law_a_star_spans_any_run(rest: Seq<char>, text: Seq<char>)
    ensures
        matches_pattern(seq!['*'] + rest, text) <==> exists|k: int|
            0 <= k <= text.len() && #[trigger] matches_pattern(rest, text.skip(k)),
    decreases text.len(),
{
    let pattern = seq!['*'] + rest;
    assert(pattern[0] == '*');
    assert(pattern.skip(1) =~= rest);
    assert(text.skip(0) =~= text);
    assert(matches_pattern(rest, text) == matches_pattern(rest, text.skip(0)));
    if text.len() > 0 {
        let less = text.skip(1);
        law_a_star_spans_any_run(rest, less);
        if matches_pattern(pattern, less) {
            let k = choose|k: int|
                0 <= k <= less.len() && #[trigger] matches_pattern(rest, less.skip(k));
            assert(less.skip(k) =~= text.skip(k + 1));
            assert(matches_pattern(rest, text.skip(k + 1)));
        }
        if exists|k: int| 0 <= k <= text.len() && #[trigger] matches_pattern(rest, text.skip(k)) {
            let k = choose|k: int|
                0 <= k <= text.len() && #[trigger] matches_pattern(rest, text.skip(k));
            if k > 0 {
                assert(text.skip(k) =~= less.skip(k - 1));
                assert(matches_pattern(rest, less.skip(k - 1)));
            }
        }
    }
}

/// Any other character stands for itself: a pattern that begins with one matches a text exactly
/// where the text begins with that character and the rest of the pattern matches what follows it.
pub proof fn law_a_character_stands_for_itself(c: char, rest: Seq<char>, text: Seq<char>)
    requires
        c != '*',
    ensures
        matches_pattern(seq![c] + rest, text) <==> exists|tail: Seq<char>|
            text == seq![c] + tail && #[trigger] matches_pattern(rest, tail),
{
    let pattern = seq![c] + rest;
    assert(pattern[0] == c);
    assert(pattern.skip(1) =~= rest);
    if matches_pattern(pattern, text) {
        let tail = text.skip(1);
        assert(text =~= seq![c] + tail);
        assert(matches_pattern(rest, tail));
    }
    if exists|tail: Seq<char>| text == seq![c] + tail && #[trigger] matches_pattern(rest, tail) {
        let tail = choose|tail: Seq<char>|
            text == seq![c] + tail && #[trigger] matches_pattern(rest, tail);
        assert(text[0] == c);
        assert(text.skip(1) =~= tail);
    }
}

/// A pattern of two parts matches a text exactly where the text has two parts, the first matched
/// by the first and the second by the second.
pub proof fn law_patterns_match_part_by_part(front: Seq<char>, back: Seq<char>, text: Seq<char>)
    ensures
        matches_pattern(front + back, text) <==> exists|k: int|
            0 <= k <= text.len() && #[trigger] matches_pattern(front, text.take(k))
                && matches_pattern(back, text.skip(k)),
    decreases front.len(), text.len(),
{
    let whole = front + back;
    assert(text.skip(0) =~= text);
    if front.len() == 0 {
        assert(whole =~= back);
        assert(text.take(0) =~= Seq::<char>::empty());
        assert(matches_pattern(front, text.take(0)));
        assert forall|k: int|
            0 <= k <= text.len() && #[trigger] matches_pattern(front, text.take(k)) implies k
            == 0 by {}
    } else {
        let fewer = front.skip(1);
        assert(whole.skip(1) =~= fewer + back);
        assert(whole[0] == front[0]);
        if front[0] == '*' {
            law_patterns_match_part_by_part(fewer, back, text);
            if text.len() > 0 {
                let less = text.skip(1);
                law_patterns_match_part_by_part(front, back, less);
                assert forall|k: int| 1 <= k <= text.len() implies #[trigger] text.take(k).skip(1)
                    == less.take(k - 1) && text.skip(k) == less.skip(k - 1) by {
                    assert(text.take(k).skip(1) =~= less.take(k - 1));
                    assert(text.skip(k) =~= less.skip(k - 1));
                }
                if matches_pattern(whole, less) {
                    let k = choose|k: int|
                        0 <= k <= less.len() && #[trigger] matches_pattern(front, less.take(k))
                            && matches_pattern(back, less.skip(k));
                    assert(text.take(k + 1).skip(1) == less.take(k));
                    assert(matches_pattern(front, text.take(k + 1)));
                }
            }
            if matches_pattern(fewer + back, text) {
                let k = choose|k: int|
                    0 <= k <= text.len() && #[trigger] matches_pattern(fewer, text.take(k))
                        && matches_pattern(back, text.skip(k));
                assert(matches_pattern(front, text.take(k)));
            }
            assert forall|k: int|
                0 <= k <= text.len() && #[trigger] matches_pattern(front, text.take(k))
                    && matches_pattern(back, text.skip(k)) implies matches_pattern(whole, text) by {
                if matches_pattern(fewer, text.take(k)) {
                    assert(matches_pattern(fewer + back, text));
                } else {
                    let less = text.skip(1);
                    assert(text.take(k).skip(1) == less.take(k - 1));
                    assert(matches_pattern(front, less.take(k - 1)));
                    assert(matches_pattern(whole, less));
                }
            }
        } else if text.len() > 0 {
            let less = text.skip(1);
            law_patterns_match_part_by_part(fewer, back, less);
            assert forall|k: int| 1 <= k <= text.len() implies #[trigger] text.take(k).skip(1)
                == less.take(k - 1) && text.skip(k) == less.skip(k - 1) && text.take(k)[0]
                == text[0] by {
                assert(text.take(k).skip(1) =~= less.take(k - 1));
                assert(text.skip(k) =~= less.skip(k - 1));
            }
            if matches_pattern(whole, text) {
                let k = choose|k: int|
                    0 <= k <= less.len() && #[trigger] matches_pattern(fewer, less.take(k))
                        && matches_pattern(back, less.skip(k));
                assert(text.take(k + 1).skip(1) == less.take(k));
                assert(matches_pattern(front, text.take(k + 1)));
            }
            assert forall|k: int|
                0 <= k <= text.len() && #[trigger] matches_pattern(front, text.take(k))
                    && matches_pattern(back, text.skip(k)) implies matches_pattern(whole, text) by {
                assert(text.take(k).len() > 0);
                assert(text.take(k).skip(1) == less.take(k - 1));
                assert(matches_pattern(fewer, less.take(k - 1)));
            }
        } else {
            assert forall|k: int| 0 <= k <= text.len() implies !#[trigger] matches_pattern(
                front,
                text.take(k),
            ) by {
                assert(text.take(k).len() == 0);
            }
        }
    }
}

} // verus!
