//! Triggers, targets and steps: from their words to what they mean.
use vstd::prelude::*;

use crate::input::{decorates, is_modifier, remove_last, without_last, Holdable, Key};
use crate::names::{Lexicon, Meaning};
use crate::text::{
    decimal, decimal_of, lowered, number_of, number_value, same, texts, to_lower, words, words_of,
};

use super::model::{steps_view, Step, StepModel};
use super::readings::{duration, parse_duration, Readings, Verdict};

verus! {

// ------------------------------------------------------------------------------- single inputs

/// What a word that can be pressed means. A name that is set aside gets a refusal of its own: the
/// name is right, and what is missing is the means to send it.
pub open spec fn pressable(lexicon: &Lexicon, token: Seq<char>) -> Verdict<Holdable> {
    match lexicon.meaning(token) {
        Some(Meaning::Input(input)) => Verdict::Sound(input),
        Some(Meaning::Reserved) => Verdict::Refused(
            "`"@ + token + "` is reserved for the device backend; nothing can send it yet"@,
        ),
        None => Verdict::Refused("unknown key `"@ + token + "`"@),
    }
}

/// Reads something that can be pressed.
pub fn parse_pressable(lexicon: &Lexicon, token: &str) -> (r: Result<Holdable, String>)
    ensures
        match r {
            Ok(input) => pressable(lexicon, token@) == Verdict::Sound(input),
            Err(why) => pressable(lexicon, token@) == Verdict::<Holdable>::Refused(why@),
        },
{
    match lexicon.meaning_of(token) {
        Some(Meaning::Input(input)) => Ok(input),
        Some(Meaning::Reserved) => {
            let mut why: String = "`".to_owned();
            why.append(token);
            why.append("` is reserved for the device backend; nothing can send it yet");
            Err(why)
        },
        None => Err(unknown_key(token)),
    }
}

fn unknown_key(token: &str) -> (out: String)
    ensures
        out@ == "unknown key `"@ + token@ + "`"@,
{
    let mut out: String = "unknown key `".to_owned();
    out.append(token);
    out.append("`");
    out
}

/// What a list of words that can be pressed means, after those that were read already: the first
/// that is refused refuses them all.
pub open spec fn pressables(
    lexicon: &Lexicon,
    tokens: Seq<Seq<char>>,
    before: Seq<Holdable>,
) -> Verdict<Seq<Holdable>>
    decreases tokens.len(),
{
    if tokens.len() == 0 {
        Verdict::Sound(before)
    } else {
        match pressable(lexicon, tokens[0]) {
            Verdict::Refused(why) => Verdict::Refused(why),
            Verdict::Sound(input) => pressables(lexicon, tokens.skip(1), before.push(input)),
        }
    }
}

/// Whether a result of inputs is the one that is meant.
pub open spec fn is_inputs(
    r: Result<Vec<Holdable>, String>,
    meant: Verdict<Seq<Holdable>>,
) -> bool {
    match r {
        Ok(inputs) => meant == Verdict::Sound(inputs@),
        Err(why) => meant == Verdict::<Seq<Holdable>>::Refused(why@),
    }
}

/// Reads the words from a place on as inputs.
fn parse_pressables_from(lexicon: &Lexicon, tokens: &Vec<String>, from: usize) -> (r: Result<
    Vec<Holdable>,
    String,
>)
    requires
        from <= tokens@.len(),
    ensures
        is_inputs(r, pressables(lexicon, texts(tokens@).skip(from as int), seq![])),
{
    let ghost all = texts(tokens@);
    let mut inputs: Vec<Holdable> = Vec::new();
    let mut i: usize = from;
    assert(inputs@ =~= seq![]);
    while i < tokens.len()
        invariant
            from <= i <= tokens@.len(),
            all == texts(tokens@),
            pressables(lexicon, all.skip(from as int), seq![]) == pressables(
                lexicon,
                all.skip(i as int),
                inputs@,
            ),
        decreases tokens@.len() - i,
    {
        proof {
            assert(all.skip(i as int)[0] == tokens@[i as int]@);
            assert(all.skip(i as int).skip(1) =~= all.skip(i + 1));
        }
        match parse_pressable(lexicon, tokens[i].as_str()) {
            Ok(input) => {
                inputs.push(input);
            },
            Err(why) => {
                return Err(why);
            },
        }
        i += 1;
    }
    Ok(inputs)
}

/// What the target of a mirror means: at least one input.
pub open spec fn target(lexicon: &Lexicon, text: Seq<char>) -> Verdict<Seq<Holdable>> {
    match pressables(lexicon, words(text), seq![]) {
        Verdict::Refused(why) => Verdict::Refused(why),
        Verdict::Sound(inputs) => if inputs.len() == 0 {
            Verdict::Refused("`bind` is empty; name a key or a chord"@)
        } else {
            Verdict::Sound(inputs)
        },
    }
}

/// Reads the target of a mirror: one input, or a chord of them.
pub fn parse_target(lexicon: &Lexicon, text: &str) -> (r: Result<Vec<Holdable>, String>)
    ensures
        is_inputs(r, target(lexicon, text@)),
{
    let tokens = words_of(text);
    assert(texts(tokens@).skip(0) =~= texts(tokens@));
    match parse_pressables_from(lexicon, &tokens, 0) {
        Err(why) => Err(why),
        Ok(inputs) => if inputs.len() == 0 {
            Err("`bind` is empty; name a key or a chord".to_owned())
        } else {
            Ok(inputs)
        },
    }
}

// ------------------------------------------------------------------------------------ triggers

/// What one word of a trigger means: keys can be heard, mouse buttons cannot.
pub open spec fn trigger_key(lexicon: &Lexicon, token: Seq<char>) -> Verdict<Key> {
    match lexicon.meaning(token) {
        Some(Meaning::Input(Holdable::Key(key))) => Verdict::Sound(key),
        Some(Meaning::Input(Holdable::Button(_))) => Verdict::Refused(
            "`"@ + token + "` cannot trigger: mouse buttons are not hearable yet, only sendable"@,
        ),
        _ => Verdict::Refused("in the trigger: "@ + ("unknown key `"@ + token + "`"@)),
    }
}

/// What the words of a trigger mean, after those that were read already.
pub open spec fn trigger_keys(
    lexicon: &Lexicon,
    tokens: Seq<Seq<char>>,
    before: Seq<Key>,
) -> Verdict<Seq<Key>>
    decreases tokens.len(),
{
    if tokens.len() == 0 {
        Verdict::Sound(before)
    } else {
        match trigger_key(lexicon, tokens[0]) {
            Verdict::Refused(why) => Verdict::Refused(why),
            Verdict::Sound(key) => trigger_keys(lexicon, tokens.skip(1), before.push(key)),
        }
    }
}

/// How many keys of a chord are no modifiers.
pub open spec fn ordinary(chord: Seq<Key>) -> nat
    decreases chord.len(),
{
    if chord.len() == 0 {
        0
    } else {
        ordinary(chord.drop_last()) + (if decorates(chord.last()) {
            0nat
        } else {
            1
        })
    }
}

/// What a trigger means: modifiers and exactly one ordinary key.
pub open spec fn trigger_meaning(lexicon: &Lexicon, text: Seq<char>) -> Verdict<Seq<Key>> {
    match trigger_keys(lexicon, words(text), seq![]) {
        Verdict::Refused(why) => Verdict::Refused(why),
        Verdict::Sound(keys) => if keys.len() == 0 {
            Verdict::Refused("the trigger is empty"@)
        } else if ordinary(keys) == 0 {
            Verdict::Refused("a trigger needs one non-modifier key, not modifiers alone"@)
        } else if ordinary(keys) > 1 {
            Verdict::Refused("a chord may decorate only one ordinary key (modifiers + one key)"@)
        } else {
            Verdict::Sound(keys)
        },
    }
}

/// Whether a result of keys is the one that is meant.
pub open spec fn is_keys(r: Result<Vec<Key>, String>, meant: Verdict<Seq<Key>>) -> bool {
    match r {
        Ok(keys) => meant == Verdict::Sound(keys@),
        Err(why) => meant == Verdict::<Seq<Key>>::Refused(why@),
    }
}

fn count_ordinary(chord: &Vec<Key>) -> (n: usize)
    ensures
        n == ordinary(chord@),
{
    let mut n: usize = 0;
    let mut i: usize = 0;
    assert(chord@.take(0) =~= seq![]);
    while i < chord.len()
        invariant
            i <= chord@.len(),
            n <= i,
            n == ordinary(chord@.take(i as int)),
        decreases chord@.len() - i,
    {
        proof {
            assert(chord@.take(i + 1).drop_last() =~= chord@.take(i as int));
            assert(chord@.take(i + 1).last() == chord@[i as int]);
        }
        if !is_modifier(chord[i]) {
            n += 1;
        }
        i += 1;
    }
    assert(chord@.take(chord@.len() as int) =~= chord@);
    n
}

/// Reads a trigger: one key, or modifiers with one key.
pub fn parse_trigger(lexicon: &Lexicon, text: &str) -> (r: Result<Vec<Key>, String>)
    ensures
        is_keys(r, trigger_meaning(lexicon, text@)),
{
    let tokens = words_of(text);
    let ghost all = texts(tokens@);
    let mut keys: Vec<Key> = Vec::new();
    let mut i: usize = 0;
    proof {
        assert(all.skip(0) =~= all);
        assert(keys@ =~= seq![]);
    }
    while i < tokens.len()
        invariant
            i <= tokens@.len(),
            all == texts(tokens@),
            all == words(text@),
            trigger_keys(lexicon, all, seq![]) == trigger_keys(
                lexicon,
                all.skip(i as int),
                keys@,
            ),
        decreases tokens@.len() - i,
    {
        let token = tokens[i].as_str();
        proof {
            assert(all.skip(i as int)[0] == token@);
            assert(all.skip(i as int).skip(1) =~= all.skip(i + 1));
        }
        match lexicon.meaning_of(token) {
            Some(Meaning::Input(Holdable::Key(key))) => {
                keys.push(key);
            },
            Some(Meaning::Input(Holdable::Button(_))) => {
                let mut why: String = "`".to_owned();
                why.append(token);
                why.append("` cannot trigger: mouse buttons are not hearable yet, only sendable");
                return Err(why);
            },
            _ => {
                let mut why: String = "in the trigger: ".to_owned();
                why.append(unknown_key(token).as_str());
                return Err(why);
            },
        }
        i += 1;
    }
    if keys.len() == 0 {
        return Err("the trigger is empty".to_owned());
    }
    let n = count_ordinary(&keys);
    if n == 0 {
        return Err("a trigger needs one non-modifier key, not modifiers alone".to_owned());
    }
    if n > 1 {
        return Err("a chord may decorate only one ordinary key (modifiers + one key)".to_owned());
    }
    Ok(keys)
}

// --------------------------------------------------------------------------------------- steps

/// What the operands of PRESS or RELEASE mean: at least one input.
pub open spec fn operands(
    lexicon: &Lexicon,
    tokens: Seq<Seq<char>>,
    keyword: Seq<char>,
) -> Verdict<Seq<Holdable>> {
    match pressables(lexicon, tokens, seq![]) {
        Verdict::Refused(why) => Verdict::Refused(why),
        Verdict::Sound(inputs) => if inputs.len() == 0 {
            Verdict::Refused(keyword + " needs at least one key"@)
        } else {
            Verdict::Sound(inputs)
        },
    }
}

/// What the words of a step after its first mean, given that word in lower case.
pub open spec fn step_of(
    lexicon: &Lexicon,
    readings: &Readings,
    tokens: Seq<Seq<char>>,
) -> Verdict<StepModel> {
    let first = lowered(tokens[0]);
    let rest = tokens.skip(1);
    if first == "press"@ {
        match operands(lexicon, rest, "PRESS"@) {
            Verdict::Sound(inputs) => Verdict::Sound(StepModel::Hold(inputs)),
            Verdict::Refused(why) => Verdict::Refused(why),
        }
    } else if first == "release"@ {
        match operands(lexicon, rest, "RELEASE"@) {
            Verdict::Sound(inputs) => Verdict::Sound(StepModel::Release(inputs)),
            Verdict::Refused(why) => Verdict::Refused(why),
        }
    } else if first == "rng"@ {
        if rest.len() == 0 {
            Verdict::Refused("RNG needs a chance, like `RNG 30%`"@)
        } else if rest.len() > 1 {
            Verdict::Refused("unexpected `"@ + rest[1] + "` after the chance"@)
        } else {
            match readings.chance(rest[0]) {
                Verdict::Sound(bits) => Verdict::Sound(StepModel::Rng(bits)),
                Verdict::Refused(why) => Verdict::Refused(why),
            }
        }
    } else if first == "gnr"@ {
        if rest.len() > 0 {
            Verdict::Refused("GNR closes a block and takes nothing, got `"@ + rest[0] + "`"@)
        } else {
            Verdict::Sound(StepModel::RngEnd)
        }
    } else if first == "loop"@ {
        if rest.len() == 0 {
            Verdict::Refused("LOOP needs a count, like `LOOP 4`"@)
        } else if rest.len() > 1 {
            Verdict::Refused("unexpected `"@ + rest[1] + "` after the count"@)
        } else {
            match number_value(rest[0], u32::MAX as nat) {
                Some(times) => if times == 0 {
                    Verdict::Refused("LOOP 0 would never run; drop the block or use 1"@)
                } else {
                    Verdict::Sound(StepModel::Loop(times as u32))
                },
                None => Verdict::Refused("`"@ + rest[0] + "` is not a count"@),
            }
        }
    } else if first == "pool"@ {
        if rest.len() > 0 {
            Verdict::Refused("POOL closes a block and takes nothing, got `"@ + rest[0] + "`"@)
        } else {
            Verdict::Sound(StepModel::LoopEnd)
        }
    } else if first == "wait"@ {
        if rest.len() == 0 {
            Verdict::Refused("WAIT needs a duration, like `WAIT 200ms`"@)
        } else if rest.len() > 1 {
            Verdict::Refused("unexpected `"@ + rest[1] + "` after the duration"@)
        } else {
            match duration(readings, rest[0]) {
                Verdict::Sound(nanos) => Verdict::Sound(StepModel::Wait(nanos)),
                Verdict::Refused(why) => Verdict::Refused(why),
            }
        }
    } else {
        match pressables(lexicon, tokens, seq![]) {
            Verdict::Sound(inputs) => Verdict::Sound(StepModel::Tap(inputs)),
            Verdict::Refused(why) => Verdict::Refused(why),
        }
    }
}

/// What a line of a sequence means: keys that are tapped, or a keyword with what belongs to it.
pub open spec fn step_meaning(
    lexicon: &Lexicon,
    readings: &Readings,
    line: Seq<char>,
) -> Verdict<StepModel> {
    if words(line).len() == 0 {
        Verdict::Refused("the step is empty"@)
    } else {
        step_of(lexicon, readings, words(line))
    }
}

/// Whether a result of a step is the one that is meant.
pub open spec fn is_step(r: Result<Step, String>, meant: Verdict<StepModel>) -> bool {
    match r {
        Ok(step) => meant == Verdict::Sound(step@),
        Err(why) => meant == Verdict::<StepModel>::Refused(why@),
    }
}

fn around(before: &str, word: &str, after: &str) -> (out: String)
    ensures
        out@ == before@ + word@ + after@,
{
    let mut out: String = before.to_owned();
    out.append(word);
    out.append(after);
    out
}

fn parse_operands(lexicon: &Lexicon, tokens: &Vec<String>, keyword: &str) -> (r: Result<
    Vec<Holdable>,
    String,
>)
    requires
        tokens@.len() > 0,
    ensures
        is_inputs(r, operands(lexicon, texts(tokens@).skip(1), keyword@)),
{
    match parse_pressables_from(lexicon, tokens, 1) {
        Err(why) => Err(why),
        Ok(inputs) => if inputs.len() == 0 {
            let mut why: String = keyword.to_owned();
            why.append(" needs at least one key");
            Err(why)
        } else {
            Ok(inputs)
        },
    }
}

/// Reads one line of a sequence.
pub fn parse_step(lexicon: &Lexicon, readings: &Readings, line: &str) -> (r: Result<Step, String>)
    ensures
        is_step(r, step_meaning(lexicon, readings, line@)),
{
    let tokens = words_of(line);
    if tokens.len() == 0 {
        assert(texts(tokens@).len() == 0);
        return Err("the step is empty".to_owned());
    }
    let ghost all = texts(tokens@);
    let ghost rest = all.skip(1);
    let n: usize = tokens.len();
    proof {
        assert(all.len() == n);
        assert(all[0] == tokens@[0]@);
        assert(n > 1 ==> rest[0] == tokens@[1]@);
        assert(n > 2 ==> rest[1] == tokens@[2]@);
    }
    let first = to_lower(tokens[0].as_str());
    let first = first.as_str();
    if same(first, "press") {
        match parse_operands(lexicon, &tokens, "PRESS") {
            Ok(inputs) => Ok(Step::Hold(inputs)),
            Err(why) => Err(why),
        }
    } else if same(first, "release") {
        match parse_operands(lexicon, &tokens, "RELEASE") {
            Ok(inputs) => Ok(Step::Release(inputs)),
            Err(why) => Err(why),
        }
    } else if same(first, "rng") {
        if n == 1 {
            return Err("RNG needs a chance, like `RNG 30%`".to_owned());
        }
        if n > 2 {
            return Err(around("unexpected `", tokens[2].as_str(), "` after the chance"));
        }
        match readings.parse_chance(tokens[1].as_str()) {
            Ok(bits) => Ok(Step::Rng(bits)),
            Err(why) => Err(why),
        }
    } else if same(first, "gnr") {
        if n > 1 {
            return Err(
                around("GNR closes a block and takes nothing, got `", tokens[1].as_str(), "`"),
            );
        }
        Ok(Step::RngEnd)
    } else if same(first, "loop") {
        if n == 1 {
            return Err("LOOP needs a count, like `LOOP 4`".to_owned());
        }
        if n > 2 {
            return Err(around("unexpected `", tokens[2].as_str(), "` after the count"));
        }
        match number_of(tokens[1].as_str(), u32::MAX as u64) {
            Some(times) => if times == 0 {
                Err("LOOP 0 would never run; drop the block or use 1".to_owned())
            } else {
                Ok(Step::Loop(times as u32))
            },
            None => Err(around("`", tokens[1].as_str(), "` is not a count")),
        }
    } else if same(first, "pool") {
        if n > 1 {
            return Err(
                around("POOL closes a block and takes nothing, got `", tokens[1].as_str(), "`"),
            );
        }
        Ok(Step::LoopEnd)
    } else if same(first, "wait") {
        if n == 1 {
            return Err("WAIT needs a duration, like `WAIT 200ms`".to_owned());
        }
        if n > 2 {
            return Err(around("unexpected `", tokens[2].as_str(), "` after the duration"));
        }
        match parse_duration(readings, tokens[1].as_str()) {
            Ok(nanos) => Ok(Step::Wait(nanos)),
            Err(why) => Err(why),
        }
    } else {
        assert(all.skip(0) =~= all);
        match parse_pressables_from(lexicon, &tokens, 0) {
            Ok(inputs) => Ok(Step::Tap(inputs)),
            Err(why) => Err(why),
        }
    }
}

// ------------------------------------------------------------------------------------ sequences

/// A block that is open.
#[derive(Debug, Clone, Copy, PartialEq, Eq, Structural)]
pub enum Block {
    Chance,
    Repeat,
}

/// What a sequence has pressed and opened so far.
#[verifier::ext_equal]
pub struct Balance {
    pub held: Seq<Holdable>,
    pub open: Seq<Block>,
}

/// What releasing a list comes to; the first input that nothing presses is given where one is.
pub open spec fn releasing(held: Seq<Holdable>, inputs: Seq<Holdable>) -> Result<
    Seq<Holdable>,
    Holdable,
>
    decreases inputs.len(),
{
    if inputs.len() == 0 {
        Ok(held)
    } else if held.contains(inputs[0]) {
        releasing(without_last(held, inputs[0]), inputs.skip(1))
    } else {
        Err(inputs[0])
    }
}

/// What a step does to the balance, or why it cannot stand there.
pub open spec fn balanced(
    lexicon: &Lexicon,
    balance: Balance,
    step: StepModel,
) -> Verdict<Balance> {
    match step {
        StepModel::Hold(inputs) => Verdict::Sound(
            Balance { held: balance.held + inputs, ..balance },
        ),
        StepModel::Release(inputs) => match releasing(balance.held, inputs) {
            Ok(held) => Verdict::Sound(Balance { held, ..balance }),
            Err(input) => Verdict::Refused(
                "RELEASE "@ + lexicon.name(input) + " \u{2014} nothing is pressing it"@,
            ),
        },
        StepModel::Rng(_) => Verdict::Sound(
            Balance { open: balance.open.push(Block::Chance), ..balance },
        ),
        StepModel::Loop(_) => Verdict::Sound(
            Balance { open: balance.open.push(Block::Repeat), ..balance },
        ),
        StepModel::RngEnd => if balance.open.len() > 0 && balance.open.last() is Chance {
            Verdict::Sound(Balance { open: balance.open.drop_last(), ..balance })
        } else {
            Verdict::Refused("GNR without a matching RNG"@)
        },
        StepModel::LoopEnd => if balance.open.len() > 0 && balance.open.last() is Repeat {
            Verdict::Sound(Balance { open: balance.open.drop_last(), ..balance })
        } else {
            Verdict::Refused("POOL without a matching LOOP"@)
        },
        _ => Verdict::Sound(balance),
    }
}

/// Where a refusal of a step stands: its number, counted from one, and its line.
pub open spec fn at_step(number: nat, line: Seq<char>, why: Seq<char>) -> Seq<char> {
    "step "@ + decimal(number) + " `"@ + line + "`: "@ + why
}

/// What the lines of a sequence from one on mean, after the steps and the balance so far.
pub open spec fn sequence_from(
    lexicon: &Lexicon,
    readings: &Readings,
    lines: Seq<Seq<char>>,
    i: int,
    steps: Seq<StepModel>,
    balance: Balance,
) -> Verdict<Seq<StepModel>>
    decreases lines.len() - i,
{
    if i < 0 || i >= lines.len() {
        if balance.held.len() > 0 {
            Verdict::Refused(
                "PRESS "@ + lexicon.name(balance.held[0])
                    + " is never RELEASEd \u{2014} a sequence must let go of what it pressed"@,
            )
        } else if balance.open.len() > 0 {
            Verdict::Refused(
                if balance.open[0] is Chance {
                    "RNG without a matching GNR \u{2014} every chance block must close"@
                } else {
                    "LOOP without a matching POOL \u{2014} every repeat block must close"@
                },
            )
        } else {
            Verdict::Sound(steps)
        }
    } else {
        match step_meaning(lexicon, readings, lines[i]) {
            Verdict::Refused(why) => Verdict::Refused(at_step((i + 1) as nat, lines[i], why)),
            Verdict::Sound(step) => match balanced(lexicon, balance, step) {
                Verdict::Refused(why) => Verdict::Refused(at_step((i + 1) as nat, lines[i], why)),
                Verdict::Sound(after) => sequence_from(
                    lexicon,
                    readings,
                    lines,
                    i + 1,
                    steps.push(step),
                    after,
                ),
            },
        }
    }
}

/// What a sequence means: every line is a step, every PRESS is released again, every RELEASE has
/// its PRESS, and the blocks pair up.
pub open spec fn sequence(
    lexicon: &Lexicon,
    readings: &Readings,
    lines: Seq<Seq<char>>,
) -> Verdict<Seq<StepModel>> {
    if lines.len() == 0 {
        Verdict::Refused("`seq` is empty"@)
    } else {
        sequence_from(
            lexicon,
            readings,
            lines,
            0,
            seq![],
            Balance { held: seq![], open: seq![] },
        )
    }
}

/// Whether a result of steps is the one that is meant.
pub open spec fn is_steps(r: Result<Vec<Step>, String>, meant: Verdict<Seq<StepModel>>) -> bool {
    match r {
        Ok(steps) => meant == Verdict::Sound(steps_view(steps@)),
        Err(why) => meant == Verdict::<Seq<StepModel>>::Refused(why@),
    }
}

fn place_refusal(number: usize, line: &str, why: &str) -> (out: String)
    ensures
        out@ == at_step(number as nat, line@, why@),
{
    let mut out: String = "step ".to_owned();
    out.append(decimal_of(number as u64).as_str());
    out.append(" `");
    out.append(line);
    out.append("`: ");
    out.append(why);
    out
}

fn release_all(held: &mut Vec<Holdable>, inputs: &Vec<Holdable>) -> (r: Result<(), Holdable>)
    ensures
        match r {
            Ok(_) => releasing(old(held)@, inputs@) == Ok::<Seq<Holdable>, Holdable>(final(held)@),
            Err(input) => releasing(old(held)@, inputs@) == Err::<Seq<Holdable>, Holdable>(input),
        },
{
    let mut i: usize = 0;
    assert(inputs@.skip(0) =~= inputs@);
    while i < inputs.len()
        invariant
            i <= inputs@.len(),
            releasing(old(held)@, inputs@) == releasing(held@, inputs@.skip(i as int)),
        decreases inputs@.len() - i,
    {
        proof {
            assert(inputs@.skip(i as int)[0] == inputs@[i as int]);
            assert(inputs@.skip(i as int).skip(1) =~= inputs@.skip(i + 1));
        }
        if !crate::input::has_holdable(held, inputs[i]) {
            return Err(inputs[i]);
        }
        remove_last(held, inputs[i]);
        i += 1;
    }
    Ok(())
}

fn press_all(held: &mut Vec<Holdable>, inputs: &Vec<Holdable>)
    ensures
        final(held)@ == old(held)@ + inputs@,
{
    let mut i: usize = 0;
    assert(held@ =~= old(held)@ + inputs@.take(0));
    while i < inputs.len()
        invariant
            i <= inputs@.len(),
            held@ == old(held)@ + inputs@.take(i as int),
        decreases inputs@.len() - i,
    {
        held.push(inputs[i]);
        i += 1;
        assert(held@ =~= old(held)@ + inputs@.take(i as int));
    }
    assert(inputs@.take(inputs@.len() as int) =~= inputs@);
}

fn keep_balance(
    lexicon: &Lexicon,
    held: &mut Vec<Holdable>,
    open: &mut Vec<Block>,
    step: &Step,
) -> (r: Result<(), String>)
    ensures
        ({
            let meant = balanced(lexicon, Balance { held: old(held)@, open: old(open)@ }, step@);
            match r {
                Ok(_) => meant == Verdict::Sound(Balance { held: final(held)@, open: final(open)@ }),
                Err(why) => meant == Verdict::<Balance>::Refused(why@),
            }
        }),
{
    match step {
        Step::Hold(inputs) => {
            press_all(held, inputs);
        },
        Step::Release(inputs) => {
            match release_all(held, inputs) {
                Ok(_) => {},
                Err(input) => {
                    return Err(
                        around(
                            "RELEASE ",
                            lexicon.name_of(input).as_str(),
                            " \u{2014} nothing is pressing it",
                        ),
                    );
                },
            }
        },
        Step::Rng(_) => {
            open.push(Block::Chance);
        },
        Step::Loop(_) => {
            open.push(Block::Repeat);
        },
        Step::RngEnd => {
            let n: usize = open.len();
            if n == 0 || open[n - 1] != Block::Chance {
                return Err("GNR without a matching RNG".to_owned());
            }
            let _ = open.pop();
        },
        Step::LoopEnd => {
            let n: usize = open.len();
            if n == 0 || open[n - 1] != Block::Repeat {
                return Err("POOL without a matching LOOP".to_owned());
            }
            let _ = open.pop();
        },
        Step::Tap(_) | Step::Wait(_) => {},
    }
    Ok(())
}

/// Reads a sequence and proves that its presses and its blocks pair up.
pub fn parse_seq(lexicon: &Lexicon, readings: &Readings, lines: &Vec<String>) -> (r: Result<
    Vec<Step>,
    String,
>)
    ensures
        is_steps(r, sequence(lexicon, readings, texts(lines@))),
{
    let ghost all = texts(lines@);
    if lines.len() == 0 {
        assert(all.len() == 0);
        return Err("`seq` is empty".to_owned());
    }
    let mut steps: Vec<Step> = Vec::new();
    let mut held: Vec<Holdable> = Vec::new();
    let mut open: Vec<Block> = Vec::new();
    let mut i: usize = 0;
    proof {
        assert(steps_view(steps@) =~= seq![]);
        assert(held@ =~= seq![]);
        assert(open@ =~= seq![]);
    }
    while i < lines.len()
        invariant
            i <= lines@.len(),
            lines@.len() > 0,
            all == texts(lines@),
            sequence(lexicon, readings, all) == sequence_from(
                lexicon,
                readings,
                all,
                i as int,
                steps_view(steps@),
                Balance { held: held@, open: open@ },
            ),
        decreases lines@.len() - i,
    {
        let line = lines[i].as_str();
        assert(all[i as int] == line@);
        match parse_step(lexicon, readings, line) {
            Err(why) => {
                return Err(place_refusal(i + 1, line, why.as_str()));
            },
            Ok(step) => {
                match keep_balance(lexicon, &mut held, &mut open, &step) {
                    Err(why) => {
                        return Err(place_refusal(i + 1, line, why.as_str()));
                    },
                    Ok(_) => {},
                }
                let ghost before = steps_view(steps@);
                let ghost model = step@;
                steps.push(step);
                assert(steps_view(steps@) =~= before.push(model));
            },
        }
        i += 1;
    }
    if held.len() > 0 {
        return Err(
            around(
                "PRESS ",
                lexicon.name_of(held[0]).as_str(),
                " is never RELEASEd \u{2014} a sequence must let go of what it pressed",
            ),
        );
    }
    if open.len() > 0 {
        return Err(
            if open[0] == Block::Chance {
                "RNG without a matching GNR \u{2014} every chance block must close".to_owned()
            } else {
                "LOOP without a matching POOL \u{2014} every repeat block must close".to_owned()
            },
        );
    }
    Ok(steps)
}

} // verus!
