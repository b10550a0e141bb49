//! What holds of every tidied sequence: no comment is lost, and tidying again changes nothing.
use vstd::prelude::*;

use crate::names::Lexicon;
use crate::text::{
    blanks, is_space, joined, leading_spaces, lemma_leading_spaces, lemma_split_nonempty,
    lemma_trailing_spaces, lines, raised, split_at_char, trimmed, trimmed_start, without_return,
    words,
};
use crate::text_laws::{
    are_words, is_word, lemma_raised_twice, lemma_split_concat, lemma_split_plain,
    lemma_trimmed_behind_blanks, lemma_trimmed_blanks, lemma_trimmed_ends, lemma_words_are_words,
    lemma_words_of_joined, lemma_words_of_padded,
};

use super::tidy::{
    aligned, canonical, canonical_steps, carried, carried_last, closes_block, comment_char,
    comment_lines, comments_among, handles_keys, has_operands, indent_of, is_comment,
    is_commentary, is_filler, is_trivia, is_whole_comment, keyword_width, level_at,
    modifiers_first, names_modifier, nesting, rewrite, sifted, stacked, step_decor, tail_decor,
    tidy_text, ArrayText, TidyText,
};

verus! {

// -------------------------------------------------------------------------------- comments

/// Whether a comment stands as it is written tidily: on one line, without white space around it.
pub open spec fn is_tidy_comment(c: Seq<char>) -> bool {
    is_comment(c) && !c.contains('\n') && !is_space(c.last())
}

/// Whether every comment of a list stands as it is written tidily.
pub open spec fn are_tidy_comments(list: Seq<Seq<char>>) -> bool {
    forall|i: int| 0 <= i < list.len() ==> is_tidy_comment(#[trigger] list[i])
}

proof fn lemma_pieces_plain(s: Seq<char>, sep: char)
    ensures
        forall|i: int| 0 <= i < split_at_char(s, sep).len() ==> !(#[trigger] split_at_char(s, sep)[i]).contains(sep),
    decreases s.len(),
{
    let all = split_at_char(s, sep);
    if s.len() > 0 {
        let before = split_at_char(s.drop_last(), sep);
        lemma_pieces_plain(s.drop_last(), sep);
        lemma_split_nonempty(s.drop_last(), sep);
        assert forall|i: int| 0 <= i < all.len() implies !(#[trigger] all[i]).contains(sep) by {
            if s.last() != sep && i == all.len() - 1 {
                assert(!before.last().contains(sep));
                if all[i].contains(sep) {
                    let k = choose|k: int| 0 <= k < all[i].len() && all[i][k] == sep;
                    assert(before.last()[k] == sep);
                }
            } else if i < before.len() {
                assert(all[i] == before[i]);
            }
        }
    }
}

proof fn lemma_lines_plain(s: Seq<char>)
    ensures
        forall|i: int| 0 <= i < lines(s).len() ==> !(#[trigger] lines(s)[i]).contains('\n'),
{
    lemma_pieces_plain(s, '\n');
    lemma_split_nonempty(s, '\n');
    let pieces = split_at_char(s, '\n');
    let all = lines(s);
    assert forall|i: int| 0 <= i < all.len() implies !(#[trigger] all[i]).contains('\n') by {
        assert(!pieces[i].contains('\n'));
        if all[i].contains('\n') {
            let k = choose|k: int| 0 <= k < all[i].len() && all[i][k] == '\n';
            assert(pieces[i][k] == '\n');
        }
    }
}

proof fn lemma_comments_among_tidy(list: Seq<Seq<char>>)
    requires
        forall|i: int| 0 <= i < list.len() ==> !(#[trigger] list[i]).contains('\n'),
    ensures
        are_tidy_comments(comments_among(list)),
    decreases list.len(),
{
    if list.len() > 0 {
        let rest = list.drop_last();
        assert forall|i: int| 0 <= i < rest.len() implies !(#[trigger] rest[i]).contains('\n') by {
            assert(rest[i] == list[i]);
        }
        lemma_comments_among_tidy(rest);
        lemma_trimmed_ends(list.last());
        assert(!list[list.len() - 1].contains('\n'));
    }
}

/// The comments of what stands between two values are tidy.
pub proof fn lemma_comment_lines_tidy(decor: Seq<char>)
    ensures
        are_tidy_comments(comment_lines(decor)),
{
    lemma_lines_plain(decor);
    lemma_comments_among_tidy(lines(decor));
}

/// The lines of stacked comments, before the last one.
spec fn stacked_pieces(comments: Seq<Seq<char>>, indent: nat) -> Seq<Seq<char>>
    decreases comments.len(),
{
    if comments.len() == 0 {
        seq![Seq::empty()]
    } else {
        stacked_pieces(comments.drop_last(), indent).push(blanks(indent) + comments.last())
    }
}

proof fn lemma_stacked_pieces(comments: Seq<Seq<char>>, indent: nat)
    requires
        are_tidy_comments(comments),
    ensures
        split_at_char(stacked(comments, indent), '\n') == stacked_pieces(comments, indent),
    decreases comments.len(),
{
    if comments.len() == 0 {
        assert(stacked(comments, indent) =~= Seq::<char>::empty());
    } else {
        let rest = comments.drop_last();
        let c = comments.last();
        assert(is_tidy_comment(comments[comments.len() - 1]));
        assert(are_tidy_comments(rest)) by {
            assert forall|i: int| 0 <= i < rest.len() implies is_tidy_comment(#[trigger] rest[i]) by {
                assert(is_tidy_comment(comments[i]));
            }
        }
        lemma_stacked_pieces(rest, indent);
        let line = blanks(indent) + c;
        assert(!line.contains('\n')) by {
            if line.contains('\n') {
                let k = choose|k: int| 0 <= k < line.len() && line[k] == '\n';
                if k >= indent {
                    assert(c[k - indent] == '\n');
                    assert(c.contains('\n'));
                }
            }
        }
        lemma_split_plain(line, '\n');
        lemma_split_concat(stacked(rest, indent), line, '\n');
        assert(stacked(comments, indent) =~= stacked(rest, indent) + seq!['\n'] + line);
        assert(split_at_char(stacked(comments, indent), '\n') =~= stacked_pieces(comments, indent));
    }
}

proof fn lemma_comments_of_pieces(comments: Seq<Seq<char>>, indent: nat)
    requires
        are_tidy_comments(comments),
    ensures
        comments_among(
            stacked_pieces(comments, indent).map_values(|p: Seq<char>| without_return(p)),
        ) == comments,
    decreases comments.len(),
{
    let pieces = stacked_pieces(comments, indent);
    let plain = pieces.map_values(|p: Seq<char>| without_return(p));
    if comments.len() == 0 {
        lemma_trimmed_blanks(0);
        assert(blanks(0) =~= Seq::<char>::empty());
        assert(plain =~= seq![Seq::<char>::empty()]);
        assert(plain.drop_last() =~= seq![]);
        assert(comments_among(plain.drop_last()) =~= seq![]);
        assert(plain.last() =~= blanks(0));
        assert(comments_among(plain) =~= comments);
    } else {
        let rest = comments.drop_last();
        let c = comments.last();
        assert(is_tidy_comment(comments[comments.len() - 1]));
        assert(are_tidy_comments(rest)) by {
            assert forall|i: int| 0 <= i < rest.len() implies is_tidy_comment(#[trigger] rest[i]) by {
                assert(is_tidy_comment(comments[i]));
            }
        }
        lemma_comments_of_pieces(rest, indent);
        let line = blanks(indent) + c;
        assert(line.last() == c.last());
        assert(is_space('\r'));
        assert(without_return(line) == line);
        assert(!is_space('#'));
        lemma_trimmed_behind_blanks(indent, c);
        assert(plain.drop_last() =~= stacked_pieces(rest, indent).map_values(
            |p: Seq<char>| without_return(p),
        ));
        assert(plain.last() == line);
        assert(comments_among(plain) =~= rest.push(c));
        assert(rest.push(c) =~= comments);
    }
}

/// What stands before a tidy step holds its comments and no others.
pub proof fn lemma_step_decor(comments: Seq<Seq<char>>, indent: nat)
    requires
        are_tidy_comments(comments),
        indent > 0,
    ensures
        comment_lines(step_decor(comments, indent)) == comments,
{
    let decor = step_decor(comments, indent);
    let last = blanks(indent);
    let pieces = stacked_pieces(comments, indent);
    lemma_stacked_pieces(comments, indent);
    lemma_split_plain(last, '\n');
    lemma_split_concat(stacked(comments, indent), last, '\n');
    assert(decor =~= stacked(comments, indent) + seq!['\n'] + last);
    let all = split_at_char(decor, '\n');
    assert(all =~= pieces.push(last));
    assert(all.drop_last() =~= pieces);
    lemma_comments_of_pieces(comments, indent);
    lemma_trimmed_blanks(indent);
    let plain = pieces.map_values(|p: Seq<char>| without_return(p));
    assert(lines(decor) =~= plain.push(last));
    assert(lines(decor).drop_last() =~= plain);
}

/// What stands behind the last tidy step holds its comments and no others.
pub proof fn lemma_tail_decor(comments: Seq<Seq<char>>)
    requires
        are_tidy_comments(comments),
    ensures
        comment_lines(tail_decor(comments)) == comments,
{
    let decor = tail_decor(comments);
    let indent = indent_of(0);
    let pieces = stacked_pieces(comments, indent);
    let none = Seq::<char>::empty();
    lemma_stacked_pieces(comments, indent);
    lemma_split_plain(none, '\n');
    lemma_split_concat(stacked(comments, indent), none, '\n');
    assert(decor =~= stacked(comments, indent) + seq!['\n'] + none);
    let all = split_at_char(decor, '\n');
    assert(all =~= pieces.push(none));
    assert(all.drop_last() =~= pieces);
    lemma_comments_of_pieces(comments, indent);
}

/// The lines of commentary, without the character that may end them, hold what a comment may hold.
spec fn is_comment_piece(piece: Seq<char>) -> bool {
    forall|k: int|
        0 <= k < piece.len() ==> comment_char(#[trigger] piece[k]) || (piece[k] == '\r' && k
            == piece.len() - 1)
}

proof fn lemma_commentary_pieces(s: Seq<char>)
    requires
        forall|i: int|
            0 <= i < s.len() ==> comment_char(#[trigger] s[i]) || s[i] == '\n' || (s[i] == '\r' && (i
                + 1 == s.len() || s[i + 1] == '\n')),
    ensures
        forall|i: int|
            0 <= i < split_at_char(s, '\n').len() ==> is_comment_piece(
                #[trigger] split_at_char(s, '\n')[i],
            ),
        split_at_char(s, '\n').last().len() > 0 ==> s.len() > 0 && split_at_char(
            s,
            '\n',
        ).last().last() == s.last(),
    decreases s.len(),
{
    let all = split_at_char(s, '\n');
    lemma_split_nonempty(s, '\n');
    if s.len() > 0 {
        let rest = s.drop_last();
        let before = split_at_char(rest, '\n');
        assert forall|i: int| 0 <= i < rest.len() implies comment_char(#[trigger] rest[i]) || rest[i]
            == '\n' || (rest[i] == '\r' && (i + 1 == rest.len() || rest[i + 1] == '\n')) by {
            assert(rest[i] == s[i]);
        }
        lemma_commentary_pieces(rest);
        lemma_split_nonempty(rest, '\n');
        let x = s.last();
        assert(s[s.len() - 1] == x);
        assert forall|i: int| 0 <= i < all.len() implies is_comment_piece(#[trigger] all[i]) by {
            if i < before.len() {
                assert(is_comment_piece(before[i]));
            }
            if x != '\n' && i == all.len() - 1 {
                let old_piece = before.last();
                assert(all[i] == old_piece.push(x));
                assert forall|k: int| 0 <= k < all[i].len() implies comment_char(
                    #[trigger] all[i][k],
                ) || (all[i][k] == '\r' && k == all[i].len() - 1) by {
                    if k < old_piece.len() {
                        assert(all[i][k] == old_piece[k]);
                        if old_piece[k] == '\r' {
                            assert(k == old_piece.len() - 1);
                            assert(s[s.len() - 2] == rest.last());
                            assert(s[s.len() - 2 + 1] == x);
                        }
                    }
                }
            } else if i == before.len() {
                assert(all[i].len() == 0);
            }
        }
    }
}

proof fn lemma_whole_comments_among(list: Seq<Seq<char>>)
    requires
        forall|i: int, k: int|
            0 <= i < list.len() && 0 <= k < list[i].len() ==> comment_char(#[trigger] list[i][k]),
    ensures
        forall|i: int|
            0 <= i < comments_among(list).len() ==> is_whole_comment(
                #[trigger] comments_among(list)[i],
            ),
    decreases list.len(),
{
    if list.len() > 0 {
        let rest = list.drop_last();
        assert forall|i: int, k: int| 0 <= i < rest.len() && 0 <= k < rest[i].len() implies
            comment_char(#[trigger] rest[i][k]) by {
            assert(rest[i][k] == list[i][k]);
        }
        lemma_whole_comments_among(rest);
        let line = list.last();
        let word = trimmed(line);
        lemma_trimmed_inside(line);
        assert forall|k: int| 0 <= k < word.len() implies comment_char(#[trigger] word[k]) by {
            assert(line.contains(word[k]));
            let m = choose|m: int| 0 <= m < line.len() && line[m] == word[k];
            assert(comment_char(list[list.len() - 1][m]));
        }
        let all = comments_among(list);
        assert forall|i: int| 0 <= i < all.len() implies is_whole_comment(#[trigger] all[i]) by {
            let before = comments_among(rest);
            if i < before.len() {
                assert(all[i] == before[i]);
            } else {
                assert(all[i] == word);
            }
        }
    }
}

proof fn lemma_trimmed_inside(line: Seq<char>)
    ensures
        forall|k: int| 0 <= k < trimmed(line).len() ==> line.contains(#[trigger] trimmed(line)[k]),
{
    let skipped = leading_spaces(line) as int;
    lemma_leading_spaces(line);
    lemma_trailing_spaces(trimmed_start(line));
    assert forall|k: int| 0 <= k < trimmed(line).len() implies line.contains(
        #[trigger] trimmed(line)[k],
    ) by {
        assert(trimmed(line)[k] == line[k + skipped]);
    }
}

/// The comments of what was read between two values can be written there again.
pub proof fn lemma_comments_whole(decor: Seq<char>)
    requires
        is_commentary(decor),
    ensures
        forall|i: int|
            0 <= i < comment_lines(decor).len() ==> is_whole_comment(
                #[trigger] comment_lines(decor)[i],
            ),
{
    lemma_commentary_pieces(decor);
    lemma_split_nonempty(decor, '\n');
    let pieces = split_at_char(decor, '\n');
    let all = lines(decor);
    assert forall|i: int, k: int| 0 <= i < all.len() && 0 <= k < all[i].len() implies comment_char(
        #[trigger] all[i][k],
    ) by {
        assert(is_comment_piece(pieces[i]));
        if i == pieces.len() - 1 {
            assert(pieces.last()[k] == all[i][k]);
            if pieces.last()[k] == '\r' {
                assert(k == pieces.last().len() - 1);
                assert(decor[decor.len() - 1] == '\r');
            }
        } else {
            assert(all[i] == without_return(pieces[i]));
            assert(all[i][k] == pieces[i][k]);
        }
    }
    lemma_whole_comments_among(all);
}

proof fn lemma_filler(indent: nat, c: Seq<char>)
    requires
        is_whole_comment(c),
    ensures
        is_filler(blanks(indent) + c),
{
    let line = blanks(indent) + c;
    assert(line.take(indent as int) =~= blanks(indent));
    assert(line.skip(indent as int) =~= c);
}

proof fn lemma_stacked_fillers(comments: Seq<Seq<char>>, indent: nat)
    requires
        forall|i: int| 0 <= i < comments.len() ==> is_whole_comment(#[trigger] comments[i]),
    ensures
        stacked_pieces(comments, indent).len() > 0,
        forall|i: int|
            0 <= i < stacked_pieces(comments, indent).len() ==> is_filler(
                #[trigger] stacked_pieces(comments, indent)[i],
            ),
    decreases comments.len(),
{
    if comments.len() == 0 {
        let none = Seq::<char>::empty();
        assert(blanks(0) =~= none);
        assert(none.take(0) =~= blanks(0));
        assert(is_filler(none));
    } else {
        let rest = comments.drop_last();
        assert forall|i: int| 0 <= i < rest.len() implies is_whole_comment(#[trigger] rest[i]) by {
            assert(rest[i] == comments[i]);
        }
        lemma_stacked_fillers(rest, indent);
        assert(is_whole_comment(comments[comments.len() - 1]));
        lemma_filler(indent, comments.last());
    }
}

/// What is written before a step, and behind the last one, may stand there.
pub proof fn lemma_decor_is_trivia(comments: Seq<Seq<char>>, indent: nat)
    requires
        are_tidy_comments(comments),
        forall|i: int| 0 <= i < comments.len() ==> is_whole_comment(#[trigger] comments[i]),
    ensures
        is_trivia(step_decor(comments, indent)),
        is_trivia(tail_decor(comments)),
{
    let last = blanks(indent);
    let pieces = stacked_pieces(comments, indent);
    lemma_stacked_pieces(comments, indent);
    lemma_stacked_fillers(comments, indent);
    lemma_split_plain(last, '\n');
    lemma_split_concat(stacked(comments, indent), last, '\n');
    let decor = step_decor(comments, indent);
    assert(decor =~= stacked(comments, indent) + seq!['\n'] + last);
    assert(split_at_char(decor, '\n') =~= pieces.push(last));

    let none = Seq::<char>::empty();
    let base = indent_of(0);
    let pieces = stacked_pieces(comments, base);
    lemma_stacked_pieces(comments, base);
    lemma_stacked_fillers(comments, base);
    lemma_split_plain(none, '\n');
    lemma_split_concat(stacked(comments, base), none, '\n');
    let decor = tail_decor(comments);
    assert(decor =~= stacked(comments, base) + seq!['\n'] + none);
    assert(split_at_char(decor, '\n') =~= pieces.push(none));
    assert(none =~= blanks(0));
}

/// Whether all that stands between the elements of a sequence is commentary.
pub open spec fn has_commentary(array: ArrayText) -> bool {
    &&& is_commentary(array.1)
    &&& forall|i: int|
        0 <= i < array.0.len() ==> is_commentary((#[trigger] array.0[i]).1) && is_commentary(
            array.0[i].2,
        )
}

/// Whether all that is written between the elements of a sequence may stand there.
pub open spec fn has_trivia(tidy: TidyText) -> bool {
    &&& is_trivia(tidy.1)
    &&& forall|i: int| 0 <= i < tidy.0.len() ==> is_trivia((#[trigger] tidy.0[i]).0)
}

/// Tidying writes nothing between the steps that could not stand there: lines that are blank or
/// comments, where there was nothing but white space, comments and line ends before.
pub proof fn law_tidying_writes_only_blanks_and_comments_between(lexicon: &Lexicon, array: ArrayText)
    requires
        has_commentary(array),
    ensures
        has_trivia(tidy_text(lexicon, array)),
{
    let tidy = tidy_text(lexicon, array);
    let steps = canonical_steps(lexicon, array);
    assert forall|i: int| 0 <= i < tidy.0.len() implies is_trivia((#[trigger] tidy.0[i]).0) by {
        let comments = carried(array, i);
        lemma_carried_tidy(array, i);
        assert(is_commentary(array.0[i].1));
        lemma_comments_whole(array.0[i].1);
        if i > 0 {
            assert(is_commentary(array.0[i - 1].2));
            lemma_comments_whole(array.0[i - 1].2);
        }
        lemma_decor_is_trivia(comments, indent_of(level_at(nesting(steps, i), steps[i])));
    }
    let comments = carried_last(array);
    lemma_carried_last_tidy(array);
    lemma_comments_whole(array.1);
    if array.0.len() > 0 {
        assert(is_commentary(array.0[array.0.len() - 1].2));
        lemma_comments_whole(array.0.last().2);
    }
    lemma_decor_is_trivia(comments, 0);
}

proof fn lemma_no_comments()
    ensures
        comment_lines(Seq::<char>::empty()) == Seq::<Seq<char>>::empty(),
{
    let none = Seq::<char>::empty();
    assert(split_at_char(none, '\n') =~= seq![none]);
    assert(lines(none) =~= seq![]);
}

proof fn lemma_carried_tidy(array: ArrayText, i: int)
    requires
        0 <= i < array.0.len(),
    ensures
        are_tidy_comments(carried(array, i)),
{
    lemma_comment_lines_tidy(array.0[i].1);
    if i > 0 {
        lemma_comment_lines_tidy(array.0[i - 1].2);
    }
    lemma_tidy_concat(
        if i > 0 {
            comment_lines(array.0[i - 1].2)
        } else {
            seq![]
        },
        comment_lines(array.0[i].1),
    );
}

proof fn lemma_carried_last_tidy(array: ArrayText)
    ensures
        are_tidy_comments(carried_last(array)),
{
    lemma_comment_lines_tidy(array.1);
    if array.0.len() > 0 {
        lemma_comment_lines_tidy(array.0.last().2);
    }
    lemma_tidy_concat(
        if array.0.len() > 0 {
            comment_lines(array.0.last().2)
        } else {
            seq![]
        },
        comment_lines(array.1),
    );
}

proof fn lemma_tidy_concat(a: Seq<Seq<char>>, b: Seq<Seq<char>>)
    requires
        are_tidy_comments(a),
        are_tidy_comments(b),
    ensures
        are_tidy_comments(a + b),
{
    assert forall|i: int| 0 <= i < (a + b).len() implies is_tidy_comment(#[trigger] (a + b)[i]) by {
        if i < a.len() {
            assert(is_tidy_comment(a[i]));
        } else {
            assert(is_tidy_comment(b[i - a.len()]));
        }
    }
}

// ----------------------------------------------------------------------------- what is read back

/// A sequence that was written tidily, as it stands in the file then.
pub open spec fn written(tidy: TidyText) -> ArrayText {
    (
        tidy.0.map_values(
            |step: (Seq<char>, Seq<char>)| (Some(step.1), step.0, Seq::<char>::empty()),
        ),
        tidy.1,
    )
}

/// All the comments of a sequence, in order.
pub open spec fn all_comments(array: ArrayText, n: int) -> Seq<Seq<char>>
    decreases n,
{
    if n <= 0 {
        seq![]
    } else {
        all_comments(array, n - 1) + carried(array, n - 1)
    }
}

/// Every comment of a sequence, those behind the last element included.
pub open spec fn every_comment(array: ArrayText) -> Seq<Seq<char>> {
    all_comments(array, array.0.len() as int) + carried_last(array)
}

proof fn lemma_carried_again(lexicon: &Lexicon, array: ArrayText, i: int)
    requires
        0 <= i < array.0.len(),
    ensures
        carried(written(tidy_text(lexicon, array)), i) == carried(array, i),
{
    let after = written(tidy_text(lexicon, array));
    let steps = canonical_steps(lexicon, array);
    let comments = carried(array, i);
    lemma_no_comments();
    lemma_carried_tidy(array, i);
    lemma_step_decor(comments, indent_of(level_at(nesting(steps, i), steps[i])));
    assert(after.0[i].1 == step_decor(
        comments,
        indent_of(level_at(nesting(steps, i), steps[i])),
    ));
    if i > 0 {
        assert(after.0[i - 1].2 == Seq::<char>::empty());
    }
    assert(carried(after, i) =~= comments);
}

proof fn lemma_carried_last_again(lexicon: &Lexicon, array: ArrayText)
    ensures
        carried_last(written(tidy_text(lexicon, array))) == carried_last(array),
{
    let after = written(tidy_text(lexicon, array));
    lemma_no_comments();
    lemma_carried_last_tidy(array);
    lemma_tail_decor(carried_last(array));
    if after.0.len() > 0 {
        assert(after.0.last().2 == Seq::<char>::empty());
    }
    assert(carried_last(after) =~= carried_last(array));
}

proof fn lemma_all_comments_again(lexicon: &Lexicon, array: ArrayText, n: int)
    requires
        0 <= n <= array.0.len(),
    ensures
        all_comments(written(tidy_text(lexicon, array)), n) == all_comments(array, n),
    decreases n,
{
    if n > 0 {
        lemma_all_comments_again(lexicon, array, n - 1);
        lemma_carried_again(lexicon, array, n - 1);
    }
}

/// Tidying keeps every comment of a sequence, in its place among the others.
pub proof fn law_tidying_keeps_every_comment(lexicon: &Lexicon, array: ArrayText)
    ensures
        every_comment(written(tidy_text(lexicon, array))) == every_comment(array),
{
    let after = written(tidy_text(lexicon, array));
    assert(after.0.len() == array.0.len());
    lemma_all_comments_again(lexicon, array, array.0.len() as int);
    lemma_carried_last_again(lexicon, array);
}

// ------------------------------------------------------------------------------------ steps

/// Whether no modifier is called like a keyword.
pub open spec fn spares_keywords(lexicon: &Lexicon) -> bool {
    forall|token: Seq<char>| #[trigger]
        names_modifier(lexicon, token) ==> !has_operands(raised(token)) && !closes_block(
            raised(token),
        )
}

proof fn lemma_sifted_concat(
    lexicon: &Lexicon,
    a: Seq<Seq<char>>,
    b: Seq<Seq<char>>,
    modifiers: bool,
)
    ensures
        sifted(lexicon, a + b, modifiers) == sifted(lexicon, a, modifiers) + sifted(
            lexicon,
            b,
            modifiers,
        ),
    decreases b.len(),
{
    if b.len() == 0 {
        assert(a + b =~= a);
        assert(sifted(lexicon, a, modifiers) + sifted(lexicon, b, modifiers) =~= sifted(
            lexicon,
            a,
            modifiers,
        ));
    } else {
        assert((a + b).drop_last() =~= a + b.drop_last());
        assert((a + b).last() == b.last());
        lemma_sifted_concat(lexicon, a, b.drop_last(), modifiers);
        assert(sifted(lexicon, a + b, modifiers) =~= sifted(lexicon, a, modifiers) + sifted(
            lexicon,
            b,
            modifiers,
        ));
    }
}

proof fn lemma_sifted_again(lexicon: &Lexicon, tokens: Seq<Seq<char>>, one: bool, other: bool)
    ensures
        sifted(lexicon, sifted(lexicon, tokens, one), other) == (if one == other {
            sifted(lexicon, tokens, one)
        } else {
            seq![]
        }),
        forall|i: int|
            0 <= i < sifted(lexicon, tokens, one).len() ==> names_modifier(
                lexicon,
                #[trigger] sifted(lexicon, tokens, one)[i],
            ) == one,
        are_words(tokens) ==> are_words(sifted(lexicon, tokens, one)),
    decreases tokens.len(),
{
    if tokens.len() > 0 {
        let rest = tokens.drop_last();
        lemma_sifted_again(lexicon, rest, one, other);
        let before = sifted(lexicon, rest, one);
        if are_words(tokens) {
            assert forall|i: int| 0 <= i < rest.len() implies is_word(#[trigger] rest[i]) by {
                assert(is_word(tokens[i]));
            }
            assert(is_word(tokens[tokens.len() - 1]));
        }
        if names_modifier(lexicon, tokens.last()) == one {
            let after = before.push(tokens.last());
            assert(after.drop_last() =~= before);
            assert(after.last() == tokens.last());
        }
    }
}

proof fn lemma_modifiers_first_again(lexicon: &Lexicon, tokens: Seq<Seq<char>>)
    ensures
        modifiers_first(lexicon, modifiers_first(lexicon, tokens)) == modifiers_first(
            lexicon,
            tokens,
        ),
        are_words(tokens) ==> are_words(modifiers_first(lexicon, tokens)),
{
    let mods = sifted(lexicon, tokens, true);
    let others = sifted(lexicon, tokens, false);
    lemma_sifted_concat(lexicon, mods, others, true);
    lemma_sifted_concat(lexicon, mods, others, false);
    lemma_sifted_again(lexicon, tokens, true, true);
    lemma_sifted_again(lexicon, tokens, true, false);
    lemma_sifted_again(lexicon, tokens, false, true);
    lemma_sifted_again(lexicon, tokens, false, false);
    assert(sifted(lexicon, mods + others, true) =~= mods);
    assert(sifted(lexicon, mods + others, false) =~= others);
    if are_words(tokens) {
        assert forall|i: int| 0 <= i < (mods + others).len() implies is_word(
            #[trigger] (mods + others)[i],
        ) by {
            if i < mods.len() {
                assert(is_word(mods[i]));
            } else {
                assert(is_word(others[i - mods.len()]));
            }
        }
    }
}

proof fn lemma_others_first(lexicon: &Lexicon, tokens: Seq<Seq<char>>)
    requires
        tokens.len() > 0,
        !names_modifier(lexicon, tokens[0]),
    ensures
        sifted(lexicon, tokens, false).len() > 0,
        sifted(lexicon, tokens, false)[0] == tokens[0],
    decreases tokens.len(),
{
    if tokens.len() == 1 {
        assert(tokens.drop_last() =~= seq![]);
        assert(sifted(lexicon, tokens.drop_last(), false) =~= seq![]);
    } else {
        lemma_others_first(lexicon, tokens.drop_last());
    }
}

pub proof fn lemma_some_sifted(lexicon: &Lexicon, tokens: Seq<Seq<char>>)
    requires
        tokens.len() > 0,
    ensures
        modifiers_first(lexicon, tokens).len() > 0,
        names_modifier(lexicon, modifiers_first(lexicon, tokens)[0]) || modifiers_first(
            lexicon,
            tokens,
        )[0] == tokens[0],
    decreases tokens.len(),
{
    let mods = sifted(lexicon, tokens, true);
    let others = sifted(lexicon, tokens, false);
    lemma_sifted_again(lexicon, tokens, true, true);
    if mods.len() > 0 {
        assert((mods + others)[0] == mods[0]);
    } else if names_modifier(lexicon, tokens[0]) {
        lemma_mods_first(lexicon, tokens);
    } else {
        lemma_others_first(lexicon, tokens);
        assert((mods + others)[0] == others[0]);
    }
}

proof fn lemma_mods_first(lexicon: &Lexicon, tokens: Seq<Seq<char>>)
    requires
        tokens.len() > 0,
        names_modifier(lexicon, tokens[0]),
    ensures
        sifted(lexicon, tokens, true).len() > 0,
    decreases tokens.len(),
{
    if tokens.len() > 1 {
        lemma_mods_first(lexicon, tokens.drop_last());
    }
}

proof fn lemma_raised_word(w: Seq<char>)
    requires
        is_word(w),
    ensures
        is_word(raised(w)),
{
    assert forall|i: int| 0 <= i < raised(w).len() implies !is_space(#[trigger] raised(w)[i]) by {
        assert(!is_space(w[i]));
    }
}

/// The words of a tidy step are tidy.
pub proof fn lemma_canonical_again(lexicon: &Lexicon, tokens: Seq<Seq<char>>)
    requires
        are_words(tokens),
        spares_keywords(lexicon),
    ensures
        are_words(canonical(lexicon, tokens)),
        canonical(lexicon, canonical(lexicon, tokens)) == canonical(lexicon, tokens),
{
    let after = canonical(lexicon, tokens);
    if tokens.len() > 0 {
        let first = raised(tokens[0]);
        let rest = tokens.skip(1);
        assert(is_word(tokens[0]));
        lemma_raised_word(tokens[0]);
        lemma_raised_twice(tokens[0]);
        assert(are_words(rest)) by {
            assert forall|i: int| 0 <= i < rest.len() implies is_word(#[trigger] rest[i]) by {
                assert(is_word(tokens[i + 1]));
            }
        }
        if handles_keys(first) {
            lemma_modifiers_first_again(lexicon, rest);
            let tail = modifiers_first(lexicon, rest);
            assert(after.skip(1) =~= tail);
            assert forall|i: int| 0 <= i < after.len() implies is_word(#[trigger] after[i]) by {
                if i > 0 {
                    assert(is_word(tail[i - 1]));
                }
            }
        } else if has_operands(first) {
            assert(after.skip(1) =~= rest);
            assert forall|i: int| 0 <= i < after.len() implies is_word(#[trigger] after[i]) by {
                if i > 0 {
                    assert(is_word(rest[i - 1]));
                }
            }
        } else if closes_block(first) {
            assert(after[0] == first);
        } else {
            lemma_modifiers_first_again(lexicon, tokens);
            lemma_some_sifted(lexicon, tokens);
            if names_modifier(lexicon, after[0]) {
                assert(!has_operands(raised(after[0])));
            }
        }
    }
}

/// Aligning a tidy step leaves its words.
pub proof fn lemma_aligned_words(tokens: Seq<Seq<char>>, width: nat)
    requires
        are_words(tokens),
    ensures
        words(aligned(tokens, width)) == tokens,
{
    if tokens.len() > 1 && has_operands(tokens[0]) {
        let rest = tokens.skip(1);
        assert(is_word(tokens[0]));
        assert(are_words(rest)) by {
            assert forall|i: int| 0 <= i < rest.len() implies is_word(#[trigger] rest[i]) by {
                assert(is_word(tokens[i + 1]));
            }
        }
        lemma_words_of_padded(tokens[0], width, joined(rest, " "@));
        lemma_words_of_joined(rest);
        assert(seq![tokens[0]] + rest =~= tokens);
    } else {
        lemma_words_of_joined(tokens);
    }
}

/// Tidying a tidy sequence writes it as it stands.
pub proof fn law_tidying_twice_changes_nothing(lexicon: &Lexicon, array: ArrayText)
    requires
        spares_keywords(lexicon),
    ensures
        rewrite(lexicon, written(tidy_text(lexicon, array))) == Some(tidy_text(lexicon, array)),
{
    let tidy = tidy_text(lexicon, array);
    let after = written(tidy);
    let steps = canonical_steps(lexicon, array);
    let width = keyword_width(steps);
    assert(after.0.len() == array.0.len());
    assert forall|i: int| 0 <= i < after.0.len() implies (#[trigger] after.0[i]).0 == Some(
        aligned(steps[i], width),
    ) by {
        assert(tidy.0[i].1 == aligned(steps[i], width));
    }
    assert(canonical_steps(lexicon, after) =~= steps) by {
        assert forall|i: int| 0 <= i < steps.len() implies canonical_steps(lexicon, after)[i]
            == steps[i] by {
            let tokens = words(array.0[i].0->0);
            lemma_words_are_words(array.0[i].0->0);
            lemma_canonical_again(lexicon, tokens);
            assert(steps[i] == canonical(lexicon, tokens));
            lemma_aligned_words(steps[i], width);
            assert(after.0[i].0 == Some(aligned(steps[i], width)));
        }
    }
    assert forall|i: int| 0 <= i < array.0.len() implies #[trigger] carried(after, i) == carried(
        array,
        i,
    ) by {
        lemma_carried_again(lexicon, array, i);
    }
    lemma_carried_last_again(lexicon, array);
    assert(tidy_text(lexicon, after).0 =~= tidy.0);
}

// --------------------------------------------------------------------------------- indentation

/// A step stands four blanks in, and four more for each block it stands in. A block is opened by
/// RNG and LOOP and closed by GNR and POOL, and what closes one stands where what opened it does.
pub proof fn law_each_block_is_indented_by_four(
    steps: Seq<Seq<Seq<char>>>,
    step: Seq<Seq<char>>,
    open: nat,
)
    requires
        step.len() > 0,
    ensures
        indent_of(open) == 4 + 4 * open,
        nesting(steps, 0) == 0,
        step[0] == "RNG"@ || step[0] == "LOOP"@ ==> level_at(open, step) == open && nesting(
            steps.push(step),
            steps.len() as int + 1,
        ) == nesting(steps, steps.len() as int) + 1,
        step[0] == "GNR"@ || step[0] == "POOL"@ ==> level_at(open + 1, step) == open && nesting(
            steps.push(step),
            steps.len() as int + 1,
        ) == (if nesting(steps, steps.len() as int) > 0 {
            nesting(steps, steps.len() as int) - 1
        } else {
            0
        }),
        step[0] != "RNG"@ && step[0] != "LOOP"@ && step[0] != "GNR"@ && step[0] != "POOL"@
            ==> level_at(open, step) == open && nesting(steps.push(step), steps.len() as int + 1)
            == nesting(steps, steps.len() as int),
{
    reveal_strlit("RNG");
    reveal_strlit("LOOP");
    reveal_strlit("GNR");
    reveal_strlit("POOL");
    assert("RNG"@[0] == 'R' && "GNR"@[0] == 'G');
    assert("LOOP"@[0] == 'L' && "POOL"@[0] == 'P');
    lemma_nesting_prefix(steps, step, steps.len() as int);
    assert(steps.push(step)[steps.len() as int] == step);
}

proof fn lemma_nesting_prefix(steps: Seq<Seq<Seq<char>>>, step: Seq<Seq<char>>, n: int)
    requires
        n <= steps.len(),
    ensures
        nesting(steps.push(step), n) == nesting(steps, n),
    decreases n,
{
    if n > 0 {
        lemma_nesting_prefix(steps, step, n - 1);
        assert(steps.push(step)[n - 1] == steps[n - 1]);
    }
}

/// Each step of a tidy sequence is on a line of its own, at its indentation.
pub proof fn law_each_step_is_on_its_own_line(lexicon: &Lexicon, array: ArrayText, i: int)
    requires
        0 <= i < array.0.len(),
    ensures
        tidy_text(lexicon, array).0.len() == array.0.len(),
        ({
            let steps = canonical_steps(lexicon, array);
            let indent = 4 * (level_at(nesting(steps, i), steps[i]) + 1);
            let prefix = tidy_text(lexicon, array).0[i].0;
            &&& prefix.len() >= indent + 1
            &&& prefix.skip(prefix.len() - indent - 1) == seq!['\n'] + blanks(indent)
        }),
{
    let steps = canonical_steps(lexicon, array);
    let indent = 4 * (level_at(nesting(steps, i), steps[i]) + 1);
    let prefix = tidy_text(lexicon, array).0[i].0;
    assert(prefix.skip(prefix.len() - indent - 1) =~= seq!['\n'] + blanks(indent));
}

/// The column of the operands is as wide as the longest keyword that takes any: no keyword is
/// longer, and the first word of some step is just as long.
pub proof fn law_the_column_fits_the_longest_keyword(steps: Seq<Seq<Seq<char>>>, i: int)
    requires
        0 <= i < steps.len(),
        steps[i].len() > 0,
        steps[i][0] == "PRESS"@ || steps[i][0] == "RELEASE"@ || steps[i][0] == "WAIT"@
            || steps[i][0] == "RNG"@ || steps[i][0] == "LOOP"@,
    ensures
        steps[i][0].len() <= keyword_width(steps),
        exists|j: int|
            0 <= j < steps.len() && (#[trigger] steps[j]).len() > 0 && steps[j][0].len()
                == keyword_width(steps),
    decreases steps.len(),
{
    let fewer = steps.drop_last();
    let last = steps.last();
    assert(steps[steps.len() - 1] == last);
    if i < fewer.len() {
        assert(fewer[i] == steps[i]);
        law_the_column_fits_the_longest_keyword(fewer, i);
        let j = choose|j: int|
            0 <= j < fewer.len() && (#[trigger] fewer[j]).len() > 0 && fewer[j][0].len()
                == keyword_width(fewer);
        assert(steps[j] == fewer[j]);
    } else if last[0].len() <= keyword_width(fewer) {
        reveal_strlit("PRESS");
        reveal_strlit("RELEASE");
        reveal_strlit("WAIT");
        reveal_strlit("RNG");
        reveal_strlit("LOOP");
        assert(last[0].len() > 0);
        lemma_width_is_of_one(fewer);
        let j = choose|j: int|
            0 <= j < fewer.len() && (#[trigger] fewer[j]).len() > 0 && fewer[j][0].len()
                == keyword_width(fewer);
        assert(steps[j] == fewer[j]);
    }
}

proof fn lemma_width_is_of_one(steps: Seq<Seq<Seq<char>>>)
    requires
        keyword_width(steps) > 0,
    ensures
        exists|j: int|
            0 <= j < steps.len() && (#[trigger] steps[j]).len() > 0 && steps[j][0].len()
                == keyword_width(steps),
    decreases steps.len(),
{
    let fewer = steps.drop_last();
    let last = steps.last();
    assert(steps[steps.len() - 1] == last);
    if keyword_width(fewer) == keyword_width(steps) {
        lemma_width_is_of_one(fewer);
        let j = choose|j: int|
            0 <= j < fewer.len() && (#[trigger] fewer[j]).len() > 0 && fewer[j][0].len()
                == keyword_width(fewer);
        assert(steps[j] == fewer[j]);
    }
}

} // verus!
