//! What the lines of a profile are read as: durations, chances, keys and the steps of a sequence.
use vstd::prelude::*;

use crate::input::{decorates, without_last, Holdable, Key};
use crate::names::{Lexicon, Meaning};
use crate::text::{decimal, is_space, lowered, words};
use crate::text_laws::{law_a_number_reads_back, law_trimming_takes_white_space_off_both_ends};

use super::format_laws::{balance_after, carried_by, settles};
use super::model::StepModel;
use super::readings::{
    chance_of, duration, first_letter, first_stroke, in_unit, is_letter, spelling, spells_zero,
    Amount, Chance, Readings, Spelling, Verdict,
};
use super::steps::{
    balanced, ordinary, pressable, pressables, releasing, sequence, sequence_from, step_meaning,
    step_of, trigger_key, trigger_keys, trigger_meaning, Balance, Block,
};

verus! {

// -------------------------------------------------------------------------------- durations

/// Each unit gives the amount in that unit: milliseconds, seconds, minutes and hours, and no other
/// unit gives one.
pub proof fn law_each_unit_is_its_own(
    ms: Option<u64>,
    s: Option<u64>,
    m: Option<u64>,
    h: Option<u64>,
    other: Seq<char>,
)
    ensures
        in_unit((Amount::Usable { ms, s, m, h }), "ms"@) == Some(ms),
        in_unit((Amount::Usable { ms, s, m, h }), "s"@) == Some(s),
        in_unit((Amount::Usable { ms, s, m, h }), "m"@) == Some(m),
        in_unit((Amount::Usable { ms, s, m, h }), "h"@) == Some(h),
        other != "ms"@ && other != "s"@ && other != "m"@ && other != "h"@ ==> in_unit(
            (Amount::Usable { ms, s, m, h }),
            other,
        ) is None,
{
    reveal_strlit("ms");
    reveal_strlit("s");
    reveal_strlit("m");
    reveal_strlit("h");
    assert("ms"@.len() == 2);
    assert("s"@[0] == 's' && "m"@[0] == 'm' && "h"@[0] == 'h');
}

proof fn lemma_first_letter(number: Seq<char>, rest: Seq<char>)
    requires
        forall|i: int| 0 <= i < number.len() ==> !is_letter(#[trigger] number[i]),
        rest.len() > 0,
        is_letter(rest[0]),
    ensures
        first_letter(number + rest) == number.len(),
    decreases number.len(),
{
    if number.len() == 0 {
        assert(number + rest =~= rest);
    } else {
        assert((number + rest)[0] == number[0]);
        assert((number + rest).skip(1) =~= number.skip(1) + rest);
        assert forall|i: int| 0 <= i < number.skip(1).len() implies !is_letter(
            #[trigger] number.skip(1)[i],
        ) by {
            assert(number.skip(1)[i] == number[i + 1]);
        }
        lemma_first_letter(number.skip(1), rest);
    }
}

/// A duration is a number with its unit right behind it, in any mix of upper and lower case, and
/// white space around the two does not matter: it is as long as the number is in that unit. One
/// that is too long, whose number is none or not usable, or whose unit is unknown, is refused.
pub proof fn law_a_duration_is_its_number_in_its_unit(
    readings: &Readings,
    front: Seq<char>,
    number: Seq<char>,
    unit: Seq<char>,
    back: Seq<char>,
)
    requires
        forall|i: int| 0 <= i < front.len() ==> is_space(#[trigger] front[i]),
        forall|i: int| 0 <= i < back.len() ==> is_space(#[trigger] back[i]),
        number.len() > 0,
        !is_space(number[0]),
        forall|i: int| 0 <= i < number.len() ==> !is_letter(#[trigger] number[i]),
        unit.len() > 0,
        is_letter(unit[0]),
        !is_space(unit.last()),
    ensures
        match readings.amount(number) {
            Amount::Usable { ms, s, m, h } => {
                let read = duration(readings, front + (number + unit) + back);
                &&& lowered(unit) == "ms"@ ==> is_read(read, ms)
                &&& lowered(unit) == "s"@ ==> is_read(read, s)
                &&& lowered(unit) == "m"@ ==> is_read(read, m)
                &&& lowered(unit) == "h"@ ==> is_read(read, h)
                &&& lowered(unit) != "ms"@ && lowered(unit) != "s"@ && lowered(unit) != "m"@
                    && lowered(unit) != "h"@ ==> read is Refused
            },
            _ => duration(readings, front + (number + unit) + back) is Refused,
        },
{
    let t = number + unit;
    assert(t[0] == number[0]);
    assert(t.last() == unit.last());
    law_trimming_takes_white_space_off_both_ends(front, t, back);
    lemma_first_letter(number, unit);
    assert(t[number.len() as int] == unit[0]);
    assert(!spells_zero(t));
    assert(t.take(number.len() as int) =~= number);
    assert(t.skip(number.len() as int) =~= unit);
    if let Amount::Usable { ms, s, m, h } = readings.amount(number) {
        law_each_unit_is_its_own(ms, s, m, h, lowered(unit));
    }
}

/// Whether a duration was read as an amount; one that does not fit is refused.
pub open spec fn is_read(read: Verdict<u64>, amount: Option<u64>) -> bool {
    match amount {
        Some(nanos) => read == Verdict::Sound(nanos),
        None => read is Refused,
    }
}

// ---------------------------------------------------------------------------------- chances

/// A chance is spelled as a number of hundredths with a percent sign, as one number over another,
/// or as a plain number.
pub proof fn law_a_chance_has_three_spellings(number: Seq<char>, below: Seq<char>)
    requires
        !number.contains('/'),
        number.len() > 0 ==> number.last() != '%',
        below.len() > 0 ==> below.last() != '%',
    ensures
        spelling(number + seq!['%']) == Spelling::Percent(number),
        spelling(number + seq!['/'] + below) == Spelling::Ratio(number, below),
        spelling(number) == Spelling::Plain,
{
    let percent = number + seq!['%'];
    assert(percent.last() == '%');
    assert(percent.drop_last() =~= number);
    let ratio = number + seq!['/'] + below;
    lemma_first_stroke(number, seq!['/'] + below);
    assert(ratio =~= number + (seq!['/'] + below));
    assert(ratio.last() == (if below.len() > 0 {
        below.last()
    } else {
        '/'
    }));
    assert(ratio.take(number.len() as int) =~= number);
    assert(ratio.skip(number.len() as int + 1) =~= below);
    lemma_first_stroke(number, Seq::empty());
    assert(number + Seq::<char>::empty() =~= number);
}

proof fn lemma_first_stroke(number: Seq<char>, rest: Seq<char>)
    requires
        !number.contains('/'),
        rest.len() == 0 || rest[0] == '/',
    ensures
        first_stroke(number + rest) == number.len(),
    decreases number.len(),
{
    if number.len() == 0 {
        assert(number + rest =~= rest);
    } else {
        assert(number[0] != '/');
        assert((number + rest)[0] == number[0]);
        assert((number + rest).skip(1) =~= number.skip(1) + rest);
        assert forall|i: int| 0 <= i < number.skip(1).len() implies number.skip(1)[i] != '/' by {
            assert(number.skip(1)[i] == number[i + 1]);
        }
        lemma_first_stroke(number.skip(1), rest);
    }
}

/// A chance from never to always is taken as it is, the bits of one being those of always, and
/// anything else is refused.
pub proof fn law_a_chance_is_taken_as_it_is(text: Seq<char>, bits: u64, divisor: String)
    ensures
        bits <= 0x3FF0_0000_0000_0000 ==> chance_of(text, Chance::Bits(bits)) == Verdict::Sound(
            bits,
        ),
        bits > 0x3FF0_0000_0000_0000 ==> chance_of(text, Chance::Bits(bits)) is Refused,
        chance_of(text, Chance::OutOfRange) is Refused,
        chance_of(text, Chance::NotANumber) is Refused,
        chance_of(text, Chance::NoDivisor) is Refused,
        chance_of(text, Chance::DividesBy(divisor)) is Refused,
{
}

// ------------------------------------------------------------------------------------- keys

/// Whether inputs are what words mean, one for one and in order.
pub open spec fn are_meant(
    lexicon: &Lexicon,
    tokens: Seq<Seq<char>>,
    inputs: Seq<Holdable>,
) -> bool {
    &&& inputs.len() == tokens.len()
    &&& forall|i: int|
        0 <= i < tokens.len() ==> lexicon.meaning(#[trigger] tokens[i]) == Some(
            Meaning::Input(inputs[i]),
        )
}

/// The words of a target are its inputs, one for one and in order, exactly where each of them
/// means one.
pub proof fn law_each_word_of_a_target_is_its_input(
    lexicon: &Lexicon,
    tokens: Seq<Seq<char>>,
    inputs: Seq<Holdable>,
)
    ensures
        pressables(lexicon, tokens, seq![]) == Verdict::Sound(inputs) <==> are_meant(
            lexicon,
            tokens,
            inputs,
        ),
{
    let none: Seq<Holdable> = seq![];
    if pressables(lexicon, tokens, none) == Verdict::Sound(inputs) {
        lemma_pressables_mean(lexicon, tokens, none);
        assert(inputs.skip(0) =~= inputs);
    }
    if are_meant(lexicon, tokens, inputs) {
        lemma_meant_pressables(lexicon, tokens, none, inputs);
        assert(none + inputs =~= inputs);
    }
}

proof fn lemma_pressables_mean(
    lexicon: &Lexicon,
    tokens: Seq<Seq<char>>,
    before: Seq<Holdable>,
)
    ensures
        pressables(lexicon, tokens, before) matches Verdict::Sound(inputs) ==> inputs.len()
            == before.len() + tokens.len() && inputs.take(before.len() as int) == before
            && are_meant(lexicon, tokens, inputs.skip(before.len() as int)),
    decreases tokens.len(),
{
    if tokens.len() == 0 {
        assert(before.take(before.len() as int) =~= before);
    } else if let Verdict::Sound(input) = pressable(lexicon, tokens[0]) {
        let longer = before.push(input);
        lemma_pressables_mean(lexicon, tokens.skip(1), longer);
        if let Verdict::Sound(inputs) = pressables(lexicon, tokens, before) {
            assert(inputs.take(before.len() as int) =~= inputs.take(longer.len() as int).take(
                before.len() as int,
            ));
            assert(longer.take(before.len() as int) =~= before);
            let mine = inputs.skip(before.len() as int);
            assert(mine[0] == inputs.take(longer.len() as int)[before.len() as int]);
            assert forall|i: int| 0 <= i < tokens.len() implies lexicon.meaning(
                #[trigger] tokens[i],
            ) == Some(Meaning::Input(mine[i])) by {
                if i > 0 {
                    assert(tokens.skip(1)[i - 1] == tokens[i]);
                    assert(inputs.skip(longer.len() as int)[i - 1] == mine[i]);
                }
            }
        }
    }
}

proof fn lemma_meant_pressables(
    lexicon: &Lexicon,
    tokens: Seq<Seq<char>>,
    before: Seq<Holdable>,
    inputs: Seq<Holdable>,
)
    requires
        are_meant(lexicon, tokens, inputs),
    ensures
        pressables(lexicon, tokens, before) == Verdict::Sound(before + inputs),
    decreases tokens.len(),
{
    if tokens.len() == 0 {
        assert(before + inputs =~= before);
    } else {
        let rest = tokens.skip(1);
        assert(lexicon.meaning(tokens[0]) == Some(Meaning::Input(inputs[0])));
        assert forall|i: int| 0 <= i < rest.len() implies lexicon.meaning(#[trigger] rest[i])
            == Some(Meaning::Input(inputs.skip(1)[i])) by {
            assert(rest[i] == tokens[i + 1]);
        }
        lemma_meant_pressables(lexicon, rest, before.push(inputs[0]), inputs.skip(1));
        assert(before.push(inputs[0]) + inputs.skip(1) =~= before + inputs);
    }
}

/// How many ordinary keys a chord has is how many of its keys are no modifiers.
pub proof fn law_ordinary_keys_are_counted(a: Seq<Key>, b: Seq<Key>, key: Key)
    ensures
        ordinary(Seq::empty()) == 0,
        ordinary(seq![key]) == (if decorates(key) {
            0nat
        } else {
            1
        }),
        ordinary(a + b) == ordinary(a) + ordinary(b),
    decreases b.len(),
{
    reveal_with_fuel(ordinary, 2);
    assert(seq![key].drop_last() =~= Seq::<Key>::empty());
    if b.len() == 0 {
        assert(a + b =~= a);
    } else {
        assert((a + b).drop_last() =~= a + b.drop_last());
        assert((a + b).last() == b.last());
        law_ordinary_keys_are_counted(a, b.drop_last(), key);
    }
}

/// A trigger is the keys that its words mean, one for one and in order, exactly one of them
/// ordinary. A text with another word, or with another number of ordinary keys, is no trigger.
pub proof fn law_a_trigger_is_the_keys_it_names(
    lexicon: &Lexicon,
    text: Seq<char>,
    keys: Seq<Key>,
)
    ensures
        trigger_meaning(lexicon, text) == Verdict::Sound(keys) <==> {
            &&& are_meant(
                lexicon,
                words(text),
                keys.map_values(|key: Key| Holdable::Key(key)),
            )
            &&& ordinary(keys) == 1
        },
{
    let tokens = words(text);
    let inputs = keys.map_values(|key: Key| Holdable::Key(key));
    let none: Seq<Key> = seq![];
    if trigger_meaning(lexicon, text) == Verdict::Sound(keys) {
        lemma_trigger_keys_mean(lexicon, tokens, none);
        assert(keys.skip(0) =~= keys);
    }
    if are_meant(lexicon, tokens, inputs) && ordinary(keys) == 1 {
        lemma_meant_trigger_keys(lexicon, tokens, none, keys);
        assert(none + keys =~= keys);
        assert(keys.len() > 0);
    }
}

proof fn lemma_trigger_keys_mean(lexicon: &Lexicon, tokens: Seq<Seq<char>>, before: Seq<Key>)
    ensures
        trigger_keys(lexicon, tokens, before) matches Verdict::Sound(keys) ==> keys.len()
            == before.len() + tokens.len() && keys.take(before.len() as int) == before && are_meant(
            lexicon,
            tokens,
            keys.skip(before.len() as int).map_values(|key: Key| Holdable::Key(key)),
        ),
    decreases tokens.len(),
{
    if tokens.len() == 0 {
        assert(before.take(before.len() as int) =~= before);
    } else if let Verdict::Sound(key) = trigger_key(lexicon, tokens[0]) {
        let longer = before.push(key);
        lemma_trigger_keys_mean(lexicon, tokens.skip(1), longer);
        if let Verdict::Sound(keys) = trigger_keys(lexicon, tokens, before) {
            assert(keys.take(before.len() as int) =~= keys.take(longer.len() as int).take(
                before.len() as int,
            ));
            assert(longer.take(before.len() as int) =~= before);
            let mine = keys.skip(before.len() as int);
            let inputs = mine.map_values(|key: Key| Holdable::Key(key));
            let fewer = keys.skip(longer.len() as int).map_values(|key: Key| Holdable::Key(key));
            assert(mine[0] == keys.take(longer.len() as int)[before.len() as int]);
            assert forall|i: int| 0 <= i < tokens.len() implies lexicon.meaning(
                #[trigger] tokens[i],
            ) == Some(Meaning::Input(inputs[i])) by {
                if i > 0 {
                    assert(tokens.skip(1)[i - 1] == tokens[i]);
                    assert(fewer[i - 1] == inputs[i]);
                }
            }
        }
    }
}

proof fn lemma_meant_trigger_keys(
    lexicon: &Lexicon,
    tokens: Seq<Seq<char>>,
    before: Seq<Key>,
    keys: Seq<Key>,
)
    requires
        are_meant(lexicon, tokens, keys.map_values(|key: Key| Holdable::Key(key))),
    ensures
        trigger_keys(lexicon, tokens, before) == Verdict::Sound(before + keys),
    decreases tokens.len(),
{
    let inputs = keys.map_values(|key: Key| Holdable::Key(key));
    if tokens.len() == 0 {
        assert(before + keys =~= before);
    } else {
        let rest = tokens.skip(1);
        let fewer = keys.skip(1).map_values(|key: Key| Holdable::Key(key));
        assert(lexicon.meaning(tokens[0]) == Some(Meaning::Input(inputs[0])));
        assert(inputs[0] == Holdable::Key(keys[0]));
        assert forall|i: int| 0 <= i < rest.len() implies lexicon.meaning(#[trigger] rest[i])
            == Some(Meaning::Input(fewer[i])) by {
            assert(rest[i] == tokens[i + 1]);
            assert(fewer[i] == inputs[i + 1]);
        }
        lemma_meant_trigger_keys(lexicon, rest, before.push(keys[0]), keys.skip(1));
        assert(before.push(keys[0]) + keys.skip(1) =~= before + keys);
    }
}

// ------------------------------------------------------------------------------------ steps

/// Each keyword, in any mix of upper and lower case, is its own step: PRESS keeps its keys down and
/// RELEASE lets them go, WAIT pauses for its duration, RNG and LOOP open a block with their chance
/// and their count, and GNR and POOL close one.
pub proof fn law_each_keyword_is_its_step(
    lexicon: &Lexicon,
    readings: &Readings,
    word: Seq<char>,
    rest: Seq<Seq<char>>,
    inputs: Seq<Holdable>,
    amount: Seq<char>,
    count: u32,
)
    requires
        inputs.len() > 0,
        are_meant(lexicon, rest, inputs),
        count > 0,
    ensures
        lowered(word) == "press"@ ==> step_of(lexicon, readings, seq![word] + rest)
            == Verdict::Sound(StepModel::Hold(inputs)),
        lowered(word) == "release"@ ==> step_of(lexicon, readings, seq![word] + rest)
            == Verdict::Sound(StepModel::Release(inputs)),
        lowered(word) == "wait"@ ==> match duration(readings, amount) {
            Verdict::Sound(nanos) => step_of(lexicon, readings, seq![word, amount])
                == Verdict::Sound(StepModel::Wait(nanos)),
            Verdict::Refused(_) => step_of(lexicon, readings, seq![word, amount]) is Refused,
        },
        lowered(word) == "rng"@ ==> match readings.chance(amount) {
            Verdict::Sound(chance) => step_of(lexicon, readings, seq![word, amount])
                == Verdict::Sound(StepModel::Rng(chance)),
            Verdict::Refused(_) => step_of(lexicon, readings, seq![word, amount]) is Refused,
        },
        lowered(word) == "loop"@ ==> step_of(lexicon, readings, seq![word, decimal(count as nat)])
            == Verdict::Sound(StepModel::Loop(count)),
        lowered(word) == "loop"@ ==> step_of(lexicon, readings, seq![word, decimal(0)]) is Refused,
        lowered(word) == "gnr"@ ==> step_of(lexicon, readings, seq![word]) == Verdict::Sound(
            StepModel::RngEnd,
        ),
        lowered(word) == "pool"@ ==> step_of(lexicon, readings, seq![word]) == Verdict::Sound(
            StepModel::LoopEnd,
        ),
{
    lemma_keywords_differ();
    let tokens = seq![word] + rest;
    assert(tokens.skip(1) =~= rest);
    law_each_word_of_a_target_is_its_input(lexicon, rest, inputs);
    assert(seq![word, amount].skip(1) =~= seq![amount]);
    let counted = decimal(count as nat);
    assert(seq![word, counted].skip(1) =~= seq![counted]);
    law_a_number_reads_back(count as nat, u32::MAX as nat);
    assert(seq![word, decimal(0)].skip(1) =~= seq![decimal(0)]);
    law_a_number_reads_back(0, u32::MAX as nat);
    assert(seq![word].skip(1) =~= seq![]);
}

proof fn lemma_keywords_differ()
    ensures
        "press"@.len() == 5,
        "release"@.len() == 7,
        "rng"@ != "gnr"@,
        "rng"@.len() == 3,
        "gnr"@.len() == 3,
        "loop"@ != "pool"@,
        "loop"@ != "wait"@,
        "pool"@ != "wait"@,
        "loop"@.len() == 4,
        "pool"@.len() == 4,
        "wait"@.len() == 4,
{
    reveal_strlit("press");
    reveal_strlit("release");
    reveal_strlit("rng");
    reveal_strlit("gnr");
    reveal_strlit("loop");
    reveal_strlit("pool");
    reveal_strlit("wait");
    assert("rng"@[0] == 'r' && "gnr"@[0] == 'g');
    assert("loop"@[0] == 'l' && "pool"@[0] == 'p' && "wait"@[0] == 'w');
}

/// A line that begins with no keyword is a tap of the inputs that its words mean.
pub proof fn law_a_line_without_a_keyword_is_a_tap(
    lexicon: &Lexicon,
    readings: &Readings,
    tokens: Seq<Seq<char>>,
    inputs: Seq<Holdable>,
)
    requires
        tokens.len() > 0,
        ({
            let first = lowered(tokens[0]);
            first != "press"@ && first != "release"@ && first != "wait"@ && first != "rng"@ && first
                != "gnr"@ && first != "loop"@ && first != "pool"@
        }),
    ensures
        step_of(lexicon, readings, tokens) == Verdict::Sound(StepModel::Tap(inputs)) <==> are_meant(
            lexicon,
            tokens,
            inputs,
        ),
{
    law_each_word_of_a_target_is_its_input(lexicon, tokens, inputs);
}

/// Releasing takes away what it names, once for each time it is named, and leaves the rest; what is
/// not pressed cannot be released.
pub proof fn law_only_what_is_pressed_can_be_released(
    held: Seq<Holdable>,
    inputs: Seq<Holdable>,
)
    ensures
        match releasing(held, inputs) {
            Ok(left) => left.to_multiset().add(inputs.to_multiset()) == held.to_multiset(),
            Err(input) => inputs.contains(input) && inputs.to_multiset().count(input)
                > held.to_multiset().count(input),
        },
    decreases inputs.len(),
{
    broadcast use vstd::seq_lib::group_to_multiset_ensures;

    if inputs.len() == 0 {
        assert(held.to_multiset().add(inputs.to_multiset()) =~= held.to_multiset());
    } else {
        let first = inputs[0];
        let rest = inputs.skip(1);
        assert(inputs =~= seq![first] + rest);
        assert(inputs.to_multiset() =~= rest.to_multiset().insert(first)) by {
            assert(inputs.remove(0) =~= rest);
            assert(inputs.to_multiset().remove(first) =~= rest.to_multiset());
            assert(inputs.contains(first));
        }
        crate::input::lemma_without_last(held, first);
        if held.contains(first) {
            let fewer = without_last(held, first);
            law_only_what_is_pressed_can_be_released(fewer, rest);
            assert(held.to_multiset() =~= fewer.to_multiset().insert(first));
            match releasing(held, inputs) {
                Ok(left) => {
                    assert(left.to_multiset().add(inputs.to_multiset()) =~= held.to_multiset());
                },
                Err(input) => {
                    let k = choose|k: int| 0 <= k < rest.len() && rest[k] == input;
                    assert(inputs[k + 1] == input);
                },
            }
        } else {
            assert(inputs[0] == first);
            assert(held.to_multiset().count(first) == 0);
            assert(inputs.to_multiset().count(first) > 0);
        }
    }
}

/// A sequence is accepted exactly where each of its lines means a step and the steps settle: it is
/// then those steps, one for each line and in order. An empty one is refused.
pub proof fn law_a_sequence_is_its_lines(
    lexicon: &Lexicon,
    readings: &Readings,
    lines: Seq<Seq<char>>,
    steps: Seq<StepModel>,
)
    ensures
        sequence(lexicon, readings, lines) == Verdict::Sound(steps) <==> {
            &&& lines.len() > 0
            &&& steps.len() == lines.len()
            &&& forall|i: int|
                0 <= i < lines.len() ==> step_meaning(lexicon, readings, #[trigger] lines[i])
                    == Verdict::Sound(steps[i])
            &&& settles(steps)
        },
{
    let none: Seq<StepModel> = seq![];
    let start = Balance { held: seq![], open: seq![] };
    if lines.len() > 0 {
        lemma_sequence_steps(lexicon, readings, lines, 0, none, start);
        if steps.len() == lines.len() && settles(steps) && (forall|i: int|
            0 <= i < lines.len() ==> step_meaning(lexicon, readings, #[trigger] lines[i])
                == Verdict::Sound(steps[i])) {
            assert(steps.take(0) =~= none);
            lemma_steps_sequence(lexicon, readings, lines, 0, steps, start);
        }
        if sequence(lexicon, readings, lines) == Verdict::Sound(steps) {
            super::format_laws::law_an_accepted_sequence_settles(lexicon, readings, lines);
        }
    }
}

proof fn lemma_sequence_steps(
    lexicon: &Lexicon,
    readings: &Readings,
    lines: Seq<Seq<char>>,
    i: int,
    before: Seq<StepModel>,
    balance: Balance,
)
    requires
        0 <= i <= lines.len(),
        before.len() == i,
        forall|k: int|
            0 <= k < i ==> step_meaning(lexicon, readings, #[trigger] lines[k]) == Verdict::Sound(
                before[k],
            ),
    ensures
        sequence_from(lexicon, readings, lines, i, before, balance) matches Verdict::Sound(steps)
            ==> steps.len() == lines.len() && forall|k: int|
            0 <= k < lines.len() ==> step_meaning(lexicon, readings, #[trigger] lines[k])
                == Verdict::Sound(steps[k]),
    decreases lines.len() - i,
{
    if i < lines.len() {
        if let Verdict::Sound(step) = step_meaning(lexicon, readings, lines[i]) {
            if let Verdict::Sound(after) = balanced(lexicon, balance, step) {
                lemma_sequence_steps(lexicon, readings, lines, i + 1, before.push(step), after);
            }
        }
    }
}

proof fn lemma_steps_sequence(
    lexicon: &Lexicon,
    readings: &Readings,
    lines: Seq<Seq<char>>,
    i: int,
    steps: Seq<StepModel>,
    balance: Balance,
)
    requires
        0 <= i <= lines.len(),
        steps.len() == lines.len(),
        settles(steps),
        balance_after(steps.take(i)) == Some(balance),
        forall|k: int|
            0 <= k < lines.len() ==> step_meaning(lexicon, readings, #[trigger] lines[k])
                == Verdict::Sound(steps[k]),
    ensures
        sequence_from(lexicon, readings, lines, i, steps.take(i), balance) == Verdict::Sound(steps),
    decreases lines.len() - i,
{
    if i == lines.len() {
        assert(steps.take(i) =~= steps);
    } else {
        assert(step_meaning(lexicon, readings, lines[i]) == Verdict::Sound(steps[i]));
        lemma_balance_reaches(steps, i + 1);
        let more = steps.take(i + 1);
        assert(more.drop_last() =~= steps.take(i));
        assert(more.last() == steps[i]);
        assert(more =~= steps.take(i).push(steps[i]));
        let after = balance_after(more)->0;
        assert(carried_by(balance, steps[i]) == Some(after));
        lemma_steps_sequence(lexicon, readings, lines, i + 1, steps, after);
    }
}

proof fn lemma_balance_reaches(steps: Seq<StepModel>, i: int)
    requires
        settles(steps),
        0 <= i <= steps.len(),
    ensures
        balance_after(steps.take(i)) is Some,
    decreases steps.len() - i,
{
    if i < steps.len() {
        lemma_balance_reaches(steps, i + 1);
        assert(steps.take(i + 1).drop_last() =~= steps.take(i));
    } else {
        assert(steps.take(i) =~= steps);
    }
}

/// What settles: a PRESS needs its RELEASE, and a block its end of its own kind, while taps and
/// waits settle by themselves. Behind steps that settle, a tap settles too, and a PRESS, a RELEASE
/// or one side of a block alone does not.
pub proof fn law_what_settles(
    inner: Seq<StepModel>,
    input: Holdable,
    targets: Seq<Holdable>,
    chance: u64,
    times: u32,
)
    requires
        settles(inner),
    ensures
        settles(Seq::empty()),
        settles(seq![StepModel::Tap(targets)]),
        settles(seq![StepModel::Wait(chance)]),
        settles(seq![StepModel::Hold(seq![input]), StepModel::Release(seq![input])]),
        settles(seq![StepModel::Rng(chance), StepModel::RngEnd]),
        settles(seq![StepModel::Loop(times), StepModel::LoopEnd]),
        !settles(inner.push(StepModel::Hold(seq![input]))),
        !settles(inner.push(StepModel::Release(seq![input]))),
        !settles(inner.push(StepModel::Rng(chance))),
        !settles(inner.push(StepModel::Loop(times))),
        !settles(inner.push(StepModel::RngEnd)),
        !settles(inner.push(StepModel::LoopEnd)),
        !settles(seq![StepModel::Rng(chance), StepModel::LoopEnd]),
        !settles(seq![StepModel::Loop(times), StepModel::RngEnd]),
        settles(inner.push(StepModel::Tap(targets))),
{
    reveal_with_fuel(balance_after, 3);
    reveal_with_fuel(releasing, 3);
    let none = Balance { held: seq![], open: seq![] };
    let one: Seq<Holdable> = seq![input];
    assert(one[0] == input);
    assert(none.held + one =~= one);
    assert(one.last() == input);
    assert(without_last(one, input) =~= seq![]);
    assert(one.skip(1) =~= seq![]);
    let tap = seq![StepModel::Tap(targets)];
    assert(tap.drop_last() =~= Seq::<StepModel>::empty());
    let wait = seq![StepModel::Wait(chance)];
    assert(wait.drop_last() =~= Seq::<StepModel>::empty());
    let pair = seq![StepModel::Hold(one), StepModel::Release(one)];
    assert(pair.drop_last() =~= seq![StepModel::Hold(one)]);
    assert(seq![StepModel::Hold(one)].drop_last() =~= Seq::<StepModel>::empty());
    let rng = seq![StepModel::Rng(chance)];
    assert(rng.drop_last() =~= Seq::<StepModel>::empty());
    let repeat = seq![StepModel::Loop(times)];
    assert(repeat.drop_last() =~= Seq::<StepModel>::empty());
    assert(seq![StepModel::Rng(chance), StepModel::RngEnd].drop_last() =~= rng);
    assert(seq![StepModel::Rng(chance), StepModel::LoopEnd].drop_last() =~= rng);
    assert(seq![StepModel::Loop(times), StepModel::LoopEnd].drop_last() =~= repeat);
    assert(seq![StepModel::Loop(times), StepModel::RngEnd].drop_last() =~= repeat);
    assert(none.open.push(Block::Chance).drop_last() =~= none.open);
    assert(none.open.push(Block::Repeat).drop_last() =~= none.open);
    assert(inner.push(StepModel::Hold(one)).drop_last() =~= inner);
    assert(inner.push(StepModel::Release(one)).drop_last() =~= inner);
    assert(inner.push(StepModel::Rng(chance)).drop_last() =~= inner);
    assert(inner.push(StepModel::Loop(times)).drop_last() =~= inner);
    assert(inner.push(StepModel::RngEnd).drop_last() =~= inner);
    assert(inner.push(StepModel::LoopEnd).drop_last() =~= inner);
    assert(inner.push(StepModel::Tap(targets)).drop_last() =~= inner);
    assert(none.open.push(Block::Chance).len() == 1);
    assert(none.open.push(Block::Repeat).len() == 1);
}

} // verus!
