//! What tidying does to a step: done twice it changes nothing more, and a tidied step means the same
//! with the modifiers moved to the front.
use vstd::prelude::*;

use crate::input::{decorates, Holdable};
use crate::names::Lexicon;
use crate::text::{joined, lowered, raised, words};
use crate::text_laws::{lemma_words_are_words, lemma_words_of_joined};

use super::model::StepModel;
use super::readings::{Readings, Verdict};
use super::steps::{pressable, pressables, step_meaning, step_of};
use super::tidy::{
    aligned, canonical, closes_block, handles_keys, has_operands, modifiers_first, names_modifier,
    sifted,
};
use super::tidy_laws::{
    lemma_aligned_words, lemma_canonical_again, lemma_some_sifted, spares_keywords,
};

verus! {

// --------------------------------------------------------------------------------- keywords

proof fn lemma_cases(w: Seq<char>)
    ensures
        lowered(raised(w)) == lowered(w),
        raised(lowered(w)) == raised(w),
{
    assert(lowered(raised(w)) =~= lowered(w));
    assert(raised(lowered(w)) =~= raised(w));
}

/// A word is a keyword of the tidy writing just where reading takes it for that keyword.
proof fn lemma_keyword(w: Seq<char>)
    ensures
        (raised(w) == "PRESS"@) == (lowered(w) == "press"@),
        lowered("PRESS"@) == "press"@,
        (raised(w) == "RELEASE"@) == (lowered(w) == "release"@),
        lowered("RELEASE"@) == "release"@,
        (raised(w) == "WAIT"@) == (lowered(w) == "wait"@),
        lowered("WAIT"@) == "wait"@,
        (raised(w) == "RNG"@) == (lowered(w) == "rng"@),
        lowered("RNG"@) == "rng"@,
        (raised(w) == "LOOP"@) == (lowered(w) == "loop"@),
        lowered("LOOP"@) == "loop"@,
        (raised(w) == "GNR"@) == (lowered(w) == "gnr"@),
        lowered("GNR"@) == "gnr"@,
        (raised(w) == "POOL"@) == (lowered(w) == "pool"@),
        lowered("POOL"@) == "pool"@,
{
    lemma_cases(w);
    assert(lowered("PRESS"@) =~= "press"@ && raised("press"@) =~= "PRESS"@) by {
        reveal_strlit("PRESS");
        reveal_strlit("press");
    }
    assert(lowered("RELEASE"@) =~= "release"@ && raised("release"@) =~= "RELEASE"@) by {
        reveal_strlit("RELEASE");
        reveal_strlit("release");
    }
    assert(lowered("WAIT"@) =~= "wait"@ && raised("wait"@) =~= "WAIT"@) by {
        reveal_strlit("WAIT");
        reveal_strlit("wait");
    }
    assert(lowered("RNG"@) =~= "rng"@ && raised("rng"@) =~= "RNG"@) by {
        reveal_strlit("RNG");
        reveal_strlit("rng");
    }
    assert(lowered("LOOP"@) =~= "loop"@ && raised("loop"@) =~= "LOOP"@) by {
        reveal_strlit("LOOP");
        reveal_strlit("loop");
    }
    assert(lowered("GNR"@) =~= "gnr"@ && raised("gnr"@) =~= "GNR"@) by {
        reveal_strlit("GNR");
        reveal_strlit("gnr");
    }
    assert(lowered("POOL"@) =~= "pool"@ && raised("pool"@) =~= "POOL"@) by {
        reveal_strlit("POOL");
        reveal_strlit("pool");
    }
}

/// Whether reading takes a word for a keyword.
pub open spec fn reads_as_keyword(w: Seq<char>) -> bool {
    has_operands(raised(w)) || closes_block(raised(w))
}

// ------------------------------------------------------------------------------------ inputs

/// Whether an input is a modifier key.
pub open spec fn is_modifier_input(input: Holdable) -> bool {
    match input {
        Holdable::Key(key) => decorates(key),
        Holdable::Button(_) => false,
    }
}

/// The inputs of a list that are modifiers, or those that are not, in order.
pub open spec fn inputs_sifted(inputs: Seq<Holdable>, modifiers: bool) -> Seq<Holdable>
    decreases inputs.len(),
{
    if inputs.len() == 0 {
        seq![]
    } else {
        let before = inputs_sifted(inputs.drop_last(), modifiers);
        if is_modifier_input(inputs.last()) == modifiers {
            before.push(inputs.last())
        } else {
            before
        }
    }
}

/// Inputs with the modifiers first, each part in its order.
pub open spec fn inputs_modifiers_first(inputs: Seq<Holdable>) -> Seq<Holdable> {
    inputs_sifted(inputs, true) + inputs_sifted(inputs, false)
}

/// A step with the modifiers of its inputs first.
pub open spec fn step_modifiers_first(step: StepModel) -> StepModel {
    match step {
        StepModel::Tap(inputs) => StepModel::Tap(inputs_modifiers_first(inputs)),
        StepModel::Hold(inputs) => StepModel::Hold(inputs_modifiers_first(inputs)),
        StepModel::Release(inputs) => StepModel::Release(inputs_modifiers_first(inputs)),
        _ => step,
    }
}

/// Whether every word of a list names an input that can be sent.
pub open spec fn all_pressable(lexicon: &Lexicon, tokens: Seq<Seq<char>>) -> bool {
    forall|i: int| 0 <= i < tokens.len() ==> pressable(lexicon, #[trigger] tokens[i]) is Sound
}

/// The inputs that words name.
pub open spec fn inputs_of(lexicon: &Lexicon, tokens: Seq<Seq<char>>) -> Seq<Holdable> {
    tokens.map_values(|token: Seq<char>| pressable(lexicon, token)->Sound_0)
}

proof fn lemma_pressables(lexicon: &Lexicon, tokens: Seq<Seq<char>>, before: Seq<Holdable>)
    ensures
        pressables(lexicon, tokens, before) is Sound <==> all_pressable(lexicon, tokens),
        all_pressable(lexicon, tokens) ==> pressables(lexicon, tokens, before) == Verdict::Sound(
            before + inputs_of(lexicon, tokens),
        ),
    decreases tokens.len(),
{
    if tokens.len() == 0 {
        assert(before + inputs_of(lexicon, tokens) =~= before);
    } else {
        let rest = tokens.skip(1);
        if let Verdict::Sound(input) = pressable(lexicon, tokens[0]) {
            lemma_pressables(lexicon, rest, before.push(input));
            assert(all_pressable(lexicon, tokens) == all_pressable(lexicon, rest)) by {
                if all_pressable(lexicon, tokens) {
                    assert forall|i: int| 0 <= i < rest.len() implies pressable(
                        lexicon,
                        #[trigger] rest[i],
                    ) is Sound by {
                        assert(pressable(lexicon, tokens[i + 1]) is Sound);
                    }
                }
                if all_pressable(lexicon, rest) {
                    assert forall|i: int| 0 <= i < tokens.len() implies pressable(
                        lexicon,
                        #[trigger] tokens[i],
                    ) is Sound by {
                        if i > 0 {
                            assert(pressable(lexicon, rest[i - 1]) is Sound);
                        }
                    }
                }
            }
            assert(before.push(input) + inputs_of(lexicon, rest) =~= before + inputs_of(
                lexicon,
                tokens,
            ));
        }
    }
}

proof fn lemma_inputs_sifted(lexicon: &Lexicon, tokens: Seq<Seq<char>>, modifiers: bool)
    requires
        all_pressable(lexicon, tokens),
    ensures
        all_pressable(lexicon, sifted(lexicon, tokens, modifiers)),
        inputs_of(lexicon, sifted(lexicon, tokens, modifiers)) == inputs_sifted(
            inputs_of(lexicon, tokens),
            modifiers,
        ),
    decreases tokens.len(),
{
    let out = sifted(lexicon, tokens, modifiers);
    if tokens.len() == 0 {
        assert(inputs_of(lexicon, out) =~= inputs_sifted(inputs_of(lexicon, tokens), modifiers));
    } else {
        let rest = tokens.drop_last();
        let last = tokens.last();
        assert forall|i: int| 0 <= i < rest.len() implies pressable(
            lexicon,
            #[trigger] rest[i],
        ) is Sound by {
            assert(pressable(lexicon, tokens[i]) is Sound);
        }
        lemma_inputs_sifted(lexicon, rest, modifiers);
        let before = sifted(lexicon, rest, modifiers);
        let inputs = inputs_of(lexicon, tokens);
        assert(pressable(lexicon, tokens[tokens.len() - 1]) is Sound);
        assert(inputs.drop_last() =~= inputs_of(lexicon, rest));
        assert(inputs.last() == pressable(lexicon, last)->Sound_0);
        assert(names_modifier(lexicon, last) == is_modifier_input(inputs.last()));
        if names_modifier(lexicon, last) == modifiers {
            assert forall|i: int| 0 <= i < out.len() implies pressable(
                lexicon,
                #[trigger] out[i],
            ) is Sound by {
                if i < before.len() {
                    assert(pressable(lexicon, before[i]) is Sound);
                }
            }
            assert(inputs_of(lexicon, out) =~= inputs_of(lexicon, before).push(inputs.last()));
        }
    }
}

proof fn lemma_modifiers_first_inputs(lexicon: &Lexicon, tokens: Seq<Seq<char>>)
    requires
        pressables(lexicon, tokens, seq![]) is Sound,
    ensures
        pressables(lexicon, modifiers_first(lexicon, tokens), seq![]) == Verdict::Sound(
            inputs_modifiers_first(pressables(lexicon, tokens, seq![])->Sound_0),
        ),
{
    let none: Seq<Holdable> = seq![];
    let mods = sifted(lexicon, tokens, true);
    let others = sifted(lexicon, tokens, false);
    lemma_pressables(lexicon, tokens, none);
    lemma_inputs_sifted(lexicon, tokens, true);
    lemma_inputs_sifted(lexicon, tokens, false);
    assert forall|i: int| 0 <= i < (mods + others).len() implies pressable(
        lexicon,
        #[trigger] (mods + others)[i],
    ) is Sound by {
        if i < mods.len() {
            assert(pressable(lexicon, mods[i]) is Sound);
        } else {
            assert(pressable(lexicon, others[i - mods.len()]) is Sound);
        }
    }
    lemma_pressables(lexicon, mods + others, none);
    assert(none + inputs_of(lexicon, tokens) =~= inputs_of(lexicon, tokens));
    assert(none + inputs_of(lexicon, mods + others) =~= inputs_of(lexicon, mods) + inputs_of(
        lexicon,
        others,
    ));
}

proof fn lemma_inputs_count(inputs: Seq<Holdable>)
    ensures
        inputs_sifted(inputs, true).len() + inputs_sifted(inputs, false).len() == inputs.len(),
    decreases inputs.len(),
{
    if inputs.len() > 0 {
        lemma_inputs_count(inputs.drop_last());
    }
}

// -------------------------------------------------------------------------------------- laws

/// Tidying a step twice is tidying it once, whatever column its operands are put in.
pub proof fn law_tidying_a_step_twice_is_tidying_it_once(
    lexicon: &Lexicon,
    line: Seq<char>,
    width: nat,
)
    requires
        spares_keywords(lexicon),
    ensures
        ({
            let once = canonical(lexicon, words(line));
            &&& canonical(lexicon, words(joined(once, " "@))) == once
            &&& canonical(lexicon, words(aligned(once, width))) == once
        }),
{
    let once = canonical(lexicon, words(line));
    lemma_words_are_words(line);
    lemma_canonical_again(lexicon, words(line));
    lemma_words_of_joined(once);
    lemma_aligned_words(once, width);
}

proof fn lemma_tidied_step(lexicon: &Lexicon, readings: &Readings, tokens: Seq<Seq<char>>)
    requires
        spares_keywords(lexicon),
        tokens.len() > 0,
        step_of(lexicon, readings, tokens) is Sound,
    ensures
        canonical(lexicon, tokens).len() > 0,
        step_of(lexicon, readings, canonical(lexicon, tokens)) == Verdict::Sound(
            step_modifiers_first(step_of(lexicon, readings, tokens)->Sound_0),
        ),
{
    let first = raised(tokens[0]);
    let rest = tokens.skip(1);
    let after = canonical(lexicon, tokens);
    lemma_keyword(tokens[0]);
    if handles_keys(first) {
        assert(after[0] == first);
        assert(after.skip(1) =~= modifiers_first(lexicon, rest));
        lemma_modifiers_first_inputs(lexicon, rest);
        lemma_inputs_count(pressables(lexicon, rest, seq![])->Sound_0);
    } else if has_operands(first) {
        assert(after[0] == first);
        assert(after.skip(1) =~= rest);
    } else if closes_block(first) {
        assert(after[0] == first);
        assert(rest.len() == 0);
        assert(after.skip(1) =~= rest);
    } else {
        lemma_some_sifted(lexicon, tokens);
        lemma_keyword(after[0]);
        assert(!reads_as_keyword(after[0]));
        lemma_modifiers_first_inputs(lexicon, tokens);
    }
}

/// A tidied step means what it meant, with the modifiers of a chord moved to the front: what reads
/// as a step still reads as the same kind of step, with the same chance, count or duration.
pub proof fn law_a_tidied_step_means_the_same(
    lexicon: &Lexicon,
    readings: &Readings,
    line: Seq<char>,
    width: nat,
)
    requires
        spares_keywords(lexicon),
        step_meaning(lexicon, readings, line) is Sound,
    ensures
        ({
            let once = canonical(lexicon, words(line));
            let step = step_meaning(lexicon, readings, line)->Sound_0;
            &&& step_meaning(lexicon, readings, joined(once, " "@)) == Verdict::Sound(
                step_modifiers_first(step),
            )
            &&& step_meaning(lexicon, readings, aligned(once, width)) == Verdict::Sound(
                step_modifiers_first(step),
            )
        }),
{
    let once = canonical(lexicon, words(line));
    lemma_words_are_words(line);
    lemma_canonical_again(lexicon, words(line));
    lemma_words_of_joined(once);
    lemma_aligned_words(once, width);
    lemma_tidied_step(lexicon, readings, words(line));
}

// ----------------------------------------------------------------------------- the tidy form

/// A tidy step begins with its keyword in capitals: whatever mix of upper and lower case it was
/// written in, the keyword is the first word.
pub proof fn law_a_tidy_keyword_is_in_capitals(
    lexicon: &Lexicon,
    word: Seq<char>,
    rest: Seq<Seq<char>>,
)
    ensures
        lowered(word) == "press"@ ==> canonical(lexicon, seq![word] + rest) == seq!["PRESS"@]
            + modifiers_first(lexicon, rest),
        lowered(word) == "release"@ ==> canonical(lexicon, seq![word] + rest) == seq!["RELEASE"@]
            + modifiers_first(lexicon, rest),
        lowered(word) == "wait"@ ==> canonical(lexicon, seq![word] + rest) == seq!["WAIT"@] + rest,
        lowered(word) == "rng"@ ==> canonical(lexicon, seq![word] + rest) == seq!["RNG"@] + rest,
        lowered(word) == "loop"@ ==> canonical(lexicon, seq![word] + rest) == seq!["LOOP"@] + rest,
        lowered(word) == "gnr"@ ==> canonical(lexicon, seq![word]) == seq!["GNR"@],
        lowered(word) == "pool"@ ==> canonical(lexicon, seq![word]) == seq!["POOL"@],
        lowered(word) != "press"@ && lowered(word) != "release"@ && lowered(word) != "wait"@
            && lowered(word) != "rng"@ && lowered(word) != "loop"@ && lowered(word) != "gnr"@
            && lowered(word) != "pool"@ ==> canonical(lexicon, seq![word] + rest)
            == modifiers_first(lexicon, seq![word] + rest),
{
    lemma_keyword(word);
    let tokens = seq![word] + rest;
    assert(tokens[0] == word);
    assert(tokens.skip(1) =~= rest);
    reveal_strlit("PRESS");
    reveal_strlit("RELEASE");
    reveal_strlit("WAIT");
    reveal_strlit("RNG");
    reveal_strlit("LOOP");
    reveal_strlit("GNR");
    reveal_strlit("POOL");
    assert("WAIT"@[0] == 'W' && "LOOP"@[0] == 'L' && "POOL"@[0] == 'P');
    assert("RNG"@[0] == 'R' && "GNR"@[0] == 'G');
}

/// The words of a tidy chord are those that were written, with every modifier before every other
/// key, and each of the two parts in the order written.
pub proof fn law_a_tidy_chord_has_its_modifiers_first(
    lexicon: &Lexicon,
    tokens: Seq<Seq<char>>,
    more: Seq<char>,
)
    ensures
        modifiers_first(lexicon, tokens).to_multiset() == tokens.to_multiset(),
        forall|i: int, j: int|
            0 <= i < j < modifiers_first(lexicon, tokens).len() && names_modifier(
                lexicon,
                #[trigger] modifiers_first(lexicon, tokens)[j],
            ) ==> names_modifier(lexicon, #[trigger] modifiers_first(lexicon, tokens)[i]),
        sifted(lexicon, tokens.push(more), true) == (if names_modifier(lexicon, more) {
            sifted(lexicon, tokens, true).push(more)
        } else {
            sifted(lexicon, tokens, true)
        }),
        sifted(lexicon, tokens.push(more), false) == (if names_modifier(lexicon, more) {
            sifted(lexicon, tokens, false)
        } else {
            sifted(lexicon, tokens, false).push(more)
        }),
{
    lemma_sifted_holds(lexicon, tokens);
    assert(tokens.push(more).drop_last() =~= tokens);
    let mods = sifted(lexicon, tokens, true);
    let others = sifted(lexicon, tokens, false);
    let all = modifiers_first(lexicon, tokens);
    assert forall|i: int, j: int|
        0 <= i < j < all.len() && names_modifier(lexicon, #[trigger] all[j]) implies names_modifier(
        lexicon,
        #[trigger] all[i],
    ) by {
        if j >= mods.len() {
            assert(all[j] == others[j - mods.len()]);
        }
        assert(all[i] == mods[i]);
    }
}

proof fn lemma_sifted_holds(lexicon: &Lexicon, tokens: Seq<Seq<char>>)
    ensures
        forall|i: int|
            0 <= i < sifted(lexicon, tokens, true).len() ==> names_modifier(
                lexicon,
                #[trigger] sifted(lexicon, tokens, true)[i],
            ),
        forall|i: int|
            0 <= i < sifted(lexicon, tokens, false).len() ==> !names_modifier(
                lexicon,
                #[trigger] sifted(lexicon, tokens, false)[i],
            ),
        modifiers_first(lexicon, tokens).to_multiset() == tokens.to_multiset(),
    decreases tokens.len(),
{
    broadcast use vstd::seq_lib::group_to_multiset_ensures;

    if tokens.len() > 0 {
        let fewer = tokens.drop_last();
        let last = tokens.last();
        lemma_sifted_holds(lexicon, fewer);
        assert(tokens =~= fewer.push(last));
        let mods = sifted(lexicon, fewer, true);
        let others = sifted(lexicon, fewer, false);
        vstd::seq_lib::lemma_multiset_commutative(mods, others);
        if names_modifier(lexicon, last) {
            vstd::seq_lib::lemma_multiset_commutative(mods.push(last), others);
            assert(modifiers_first(lexicon, tokens).to_multiset() =~= tokens.to_multiset());
        } else {
            vstd::seq_lib::lemma_multiset_commutative(mods, others.push(last));
            assert(modifiers_first(lexicon, tokens).to_multiset() =~= tokens.to_multiset());
        }
    } else {
        assert(modifiers_first(lexicon, tokens) =~= tokens);
    }
}

/// The operands of a tidy step stand in one column: behind the keyword, blanks up to the width of
/// the longest, and one more.
pub proof fn law_operands_stand_in_one_column(
    keyword: Seq<char>,
    operands: Seq<Seq<char>>,
    width: nat,
)
    requires
        operands.len() > 0,
        keyword == "PRESS"@ || keyword == "RELEASE"@ || keyword == "WAIT"@ || keyword == "RNG"@
            || keyword == "LOOP"@,
        keyword.len() <= width,
    ensures
        aligned(seq![keyword] + operands, width).take(keyword.len() as int) == keyword,
        aligned(seq![keyword] + operands, width).skip(width as int + 1) == joined(operands, " "@),
        forall|i: int|
            keyword.len() <= i <= width ==> #[trigger] aligned(
                seq![keyword] + operands,
                width,
            )[i] == ' ',
{
    reveal_strlit(" ");
    let tokens = seq![keyword] + operands;
    assert(tokens.skip(1) =~= operands);
    assert(tokens[0] == keyword);
    let text = aligned(tokens, width);
    assert(text.take(keyword.len() as int) =~= keyword);
    assert(text.skip(width as int + 1) =~= joined(operands, " "@));
}

} // verus!
