//! What holds of every profile that is accepted.
use vstd::prelude::*;

use crate::input::{classes, Key};
use crate::names::Lexicon;

use super::format::{
    all_spellings, bare_within, bind_with, binding, bindings_from, by_text, grab_clash, grab_twin,
    meaning, spelled_into,
    overlap, settings, stop_clash, stops_from, RawBind, RawFile,
};
use super::model::{primary, ActionModel, BindModel, Loops, ProfileModel, StepModel};
use super::readings::{Readings, Verdict, ALWAYS};
use super::select::{at_or_before, lemma_order_is_total, lemma_order_is_transitive};
use super::steps::{
    balanced, ordinary, releasing, sequence, sequence_from, step_meaning, trigger_meaning, Balance,
    Block,
};

verus! {

// --------------------------------------------------------------------------------- sequences

/// What a step does to what is pressed and open, where it can stand there.
pub open spec fn carried_by(balance: Balance, step: StepModel) -> Option<Balance> {
    match step {
        StepModel::Hold(inputs) => Some(Balance { held: balance.held + inputs, ..balance }),
        StepModel::Release(inputs) => match releasing(balance.held, inputs) {
            Ok(held) => Some(Balance { held, ..balance }),
            Err(_) => None,
        },
        StepModel::Rng(_) => Some(Balance { open: balance.open.push(Block::Chance), ..balance }),
        StepModel::Loop(_) => Some(Balance { open: balance.open.push(Block::Repeat), ..balance }),
        StepModel::RngEnd => if balance.open.len() > 0 && balance.open.last() is Chance {
            Some(Balance { open: balance.open.drop_last(), ..balance })
        } else {
            None
        },
        StepModel::LoopEnd => if balance.open.len() > 0 && balance.open.last() is Repeat {
            Some(Balance { open: balance.open.drop_last(), ..balance })
        } else {
            None
        },
        _ => Some(balance),
    }
}

/// What is pressed and open after a list of steps, where each of them can stand.
pub open spec fn balance_after(steps: Seq<StepModel>) -> Option<Balance>
    decreases steps.len(),
{
    if steps.len() == 0 {
        Some(Balance { held: seq![], open: seq![] })
    } else {
        match balance_after(steps.drop_last()) {
            Some(balance) => carried_by(balance, steps.last()),
            None => None,
        }
    }
}

/// Whether a sequence lets go of all that it presses, releases nothing that it did not press, and
/// closes every block it opens in the right order.
pub open spec fn settles(steps: Seq<StepModel>) -> bool {
    balance_after(steps) == Some(Balance { held: seq![], open: seq![] })
}

/// Whether every chance of a sequence lies between never and always.
pub open spec fn are_chances(steps: Seq<StepModel>) -> bool {
    forall|i: int|
        0 <= i < steps.len() ==> match #[trigger] steps[i] {
            StepModel::Rng(chance) => chance <= ALWAYS,
            _ => true,
        }
}

proof fn lemma_sequence_settles(
    lexicon: &Lexicon,
    readings: &Readings,
    lines: Seq<Seq<char>>,
    i: int,
    steps: Seq<StepModel>,
    balance: Balance,
)
    requires
        balance_after(steps) == Some(balance),
        are_chances(steps),
        0 <= i,
    ensures
        sequence_from(lexicon, readings, lines, i, steps, balance) matches Verdict::Sound(all)
            ==> settles(all) && are_chances(all),
    decreases lines.len() - i,
{
    if i >= lines.len() {
        if balance.held.len() == 0 && balance.open.len() == 0 {
            assert(balance =~= Balance { held: seq![], open: seq![] });
        }
    } else if let Verdict::Sound(step) = step_meaning(lexicon, readings, lines[i]) {
        if let Verdict::Sound(after) = balanced(lexicon, balance, step) {
            assert(steps.push(step).drop_last() =~= steps);
            assert(carried_by(balance, step) == Some(after));
            lemma_sequence_settles(lexicon, readings, lines, i + 1, steps.push(step), after);
        }
    }
}

/// A sequence that is accepted lets go of all that it presses, its blocks pair up, and its chances
/// lie between never and always.
pub proof fn law_an_accepted_sequence_settles(
    lexicon: &Lexicon,
    readings: &Readings,
    lines: Seq<Seq<char>>,
)
    ensures
        sequence(lexicon, readings, lines) matches Verdict::Sound(steps) ==> settles(steps)
            && are_chances(steps),
{
    lemma_sequence_settles(
        lexicon,
        readings,
        lines,
        0,
        seq![],
        Balance { held: seq![], open: seq![] },
    );
}

// ---------------------------------------------------------------------------------- bindings

/// Whether a binding can run as it stands: a trigger with exactly one ordinary key, a target with
/// at least one input or a sequence that settles and whose chances are such, and a repeat count
/// only for a sequence.
pub open spec fn is_sound_binding(bind: BindModel) -> bool {
    &&& ordinary(bind.trigger) == 1
    &&& match bind.action {
        ActionModel::Mirror(targets) => targets.len() > 0 && bind.loops is Once,
        ActionModel::Sequence(steps) => settles(steps) && are_chances(steps),
    }
    &&& bind.loops matches Loops::Times(times) ==> times > 1
}

proof fn lemma_binding_is_sound(
    lexicon: &Lexicon,
    readings: &Readings,
    text: Seq<char>,
    raw: RawBind,
    tap: u64,
    gap: u64,
)
    ensures
        binding(lexicon, readings, text, raw, tap, gap) matches Verdict::Sound(bind)
            ==> is_sound_binding(bind),
{
    if let Some(lines) = super::format::lines_of(raw.seq) {
        law_an_accepted_sequence_settles(lexicon, readings, lines);
    }
}

/// Whether each binding of a list is sound and no two have the same trigger.
pub open spec fn are_sound_bindings(binds: Seq<BindModel>) -> bool {
    &&& forall|i: int| 0 <= i < binds.len() ==> is_sound_binding(#[trigger] binds[i])
    &&& forall|i: int, j: int|
        0 <= i < j < binds.len() ==> (#[trigger] binds[i]).trigger != (#[trigger] binds[j]).trigger
}

pub proof fn lemma_no_bind_with(binds: Seq<BindModel>, chord: Seq<Key>)
    requires
        bind_with(binds, chord) is None,
    ensures
        forall|i: int| 0 <= i < binds.len() ==> (#[trigger] binds[i]).trigger != chord,
    decreases binds.len(),
{
    if binds.len() > 0 {
        lemma_no_bind_with(binds.skip(1), chord);
        assert forall|i: int| 0 <= i < binds.len() implies (#[trigger] binds[i]).trigger != chord by {
            if i > 0 {
                assert(binds.skip(1)[i - 1] == binds[i]);
            }
        }
    }
}

proof fn lemma_bindings_are_sound(
    lexicon: &Lexicon,
    readings: &Readings,
    spellings: Seq<(Seq<char>, RawBind)>,
    tap: u64,
    gap: u64,
    before: Seq<BindModel>,
)
    requires
        are_sound_bindings(before),
    ensures
        bindings_from(lexicon, readings, spellings, tap, gap, before) matches Verdict::Sound(all)
            ==> are_sound_bindings(all),
    decreases spellings.len(),
{
    if spellings.len() > 0 {
        lemma_binding_is_sound(lexicon, readings, spellings[0].0, spellings[0].1, tap, gap);
        if let Verdict::Sound(bind) = binding(
            lexicon,
            readings,
            spellings[0].0,
            spellings[0].1,
            tap,
            gap,
        ) {
            if bind_with(before, bind.trigger) is None {
                lemma_no_bind_with(before, bind.trigger);
                lemma_bindings_are_sound(
                    lexicon,
                    readings,
                    spellings.skip(1),
                    tap,
                    gap,
                    before.push(bind),
                );
            }
        }
    }
}

// ----------------------------------------------------------------------------------- profiles

/// Whether no emergency stop is the trigger of a binding.
pub open spec fn stops_apart(stops: Seq<Seq<Key>>, binds: Seq<BindModel>) -> bool {
    forall|s: int, b: int|
        0 <= s < stops.len() && 0 <= b < binds.len() ==> #[trigger] stops[s]
            != (#[trigger] binds[b]).trigger
}

pub proof fn lemma_stops_apart(stops: Seq<Seq<Key>>, binds: Seq<BindModel>)
    requires
        stop_clash(stops, binds) is None,
    ensures
        stops_apart(stops, binds),
    decreases stops.len(),
{
    if stops.len() > 0 {
        lemma_no_bind_with(binds, stops[0]);
        lemma_stops_apart(stops.skip(1), binds);
        assert forall|s: int, b: int| 0 <= s < stops.len() && 0 <= b < binds.len() implies #[trigger] stops[s]
            != (#[trigger] binds[b]).trigger by {
            if s > 0 {
                assert(stops.skip(1)[s - 1] == stops[s]);
            }
        }
    }
}

/// Whether no bare key that is a trigger stands in the chord of another one.
pub open spec fn no_bare_in_chord(binds: Seq<BindModel>, rest: Seq<BindModel>) -> bool {
    forall|b: int, c: int|
        0 <= b < binds.len() && 0 <= c < rest.len() && binds[b].trigger.len() == 1
            && rest[c].trigger.len() > 1 ==> !(#[trigger] rest[c]).trigger.contains(
            (#[trigger] binds[b]).trigger[0],
        )
}

proof fn lemma_no_bare_within(binds: Seq<BindModel>, chord: Seq<Key>)
    requires
        bare_within(binds, chord) is None,
    ensures
        forall|b: int|
            0 <= b < binds.len() && (#[trigger] binds[b]).trigger.len() == 1 ==> !chord.contains(
                binds[b].trigger[0],
            ),
    decreases binds.len(),
{
    if binds.len() > 0 {
        lemma_no_bare_within(binds.skip(1), chord);
        assert forall|b: int|
            0 <= b < binds.len() && (#[trigger] binds[b]).trigger.len() == 1 implies !chord.contains(
            binds[b].trigger[0],
        ) by {
            if b > 0 {
                assert(binds.skip(1)[b - 1] == binds[b]);
            }
        }
    }
}

pub proof fn lemma_no_overlap(all: Seq<BindModel>, rest: Seq<BindModel>)
    requires
        overlap(all, rest) is None,
    ensures
        no_bare_in_chord(all, rest),
    decreases rest.len(),
{
    if rest.len() > 0 {
        if rest[0].trigger.len() > 1 {
            lemma_no_bare_within(all, rest[0].trigger);
        }
        lemma_no_overlap(all, rest.skip(1));
        assert forall|b: int, c: int|
            0 <= b < all.len() && 0 <= c < rest.len() && all[b].trigger.len() == 1
                && rest[c].trigger.len() > 1 implies !(#[trigger] rest[c]).trigger.contains(
            (#[trigger] all[b]).trigger[0],
        ) by {
            if c > 0 {
                assert(rest.skip(1)[c - 1] == rest[c]);
            }
        }
    }
}

/// Whether two triggers are one grab of the X server.
pub open spec fn same_grab(a: BindModel, b: BindModel) -> bool {
    primary(a.trigger) == primary(b.trigger) && classes(a.trigger) == classes(b.trigger)
}

proof fn lemma_no_twin(binds: Seq<BindModel>, bind: BindModel)
    requires
        grab_twin(binds, bind.trigger) is None,
    ensures
        forall|i: int| 0 <= i < binds.len() ==> !same_grab(#[trigger] binds[i], bind),
    decreases binds.len(),
{
    if binds.len() > 0 {
        lemma_no_twin(binds.skip(1), bind);
        assert forall|i: int| 0 <= i < binds.len() implies !same_grab(#[trigger] binds[i], bind) by {
            if i > 0 {
                assert(binds.skip(1)[i - 1] == binds[i]);
            }
        }
    }
}

pub proof fn lemma_grabs_differ(binds: Seq<BindModel>, from: int)
    requires
        0 <= from,
        grab_clash(binds, from) is None,
    ensures
        forall|i: int, j: int|
            0 <= i < j < binds.len() && from <= j ==> !same_grab(
                #[trigger] binds[i],
                #[trigger] binds[j],
            ),
    decreases binds.len() - from,
{
    if from < binds.len() {
        lemma_no_twin(binds.take(from), binds[from]);
        lemma_grabs_differ(binds, from + 1);
        assert forall|i: int, j: int| 0 <= i < j < binds.len() && from <= j implies !same_grab(
            #[trigger] binds[i],
            #[trigger] binds[j],
        ) by {
            if j == from {
                assert(binds.take(from)[i] == binds[i]);
            }
        }
    }
}

proof fn lemma_stops_are_chords(
    lexicon: &Lexicon,
    spellings: Seq<Seq<char>>,
    before: Seq<Seq<Key>>,
)
    requires
        forall|s: int| 0 <= s < before.len() ==> ordinary(#[trigger] before[s]) == 1,
    ensures
        stops_from(lexicon, spellings, before) matches Verdict::Sound(all) ==> forall|s: int|
            0 <= s < all.len() ==> ordinary(#[trigger] all[s]) == 1,
    decreases spellings.len(),
{
    if spellings.len() > 0 {
        if let Verdict::Sound(chord) = trigger_meaning(lexicon, spellings[0]) {
            lemma_stops_are_chords(lexicon, spellings.skip(1), before.push(chord));
        }
    }
}

/// Whether spellings are in the order of their text.
pub open spec fn are_by_text(list: Seq<(Seq<char>, RawBind)>) -> bool {
    forall|i: int, j: int|
        0 <= i <= j < list.len() ==> at_or_before((#[trigger] list[i]).0, (#[trigger] list[j]).0)
}

/// Whether bindings are in the order of the text of their triggers.
pub open spec fn binds_by_text(binds: Seq<BindModel>) -> bool {
    forall|i: int, j: int|
        0 <= i <= j < binds.len() ==> at_or_before(
            (#[trigger] binds[i]).trigger_text,
            (#[trigger] binds[j]).trigger_text,
        )
}

proof fn lemma_spelled_into(list: Seq<(Seq<char>, RawBind)>, x: (Seq<char>, RawBind))
    requires
        are_by_text(list),
    ensures
        are_by_text(spelled_into(list, x)),
        spelled_into(list, x).len() == list.len() + 1,
        forall|bound: Seq<char>|
            #![trigger at_or_before(x.0, bound)]
            at_or_before(x.0, bound) && (forall|i: int|
                0 <= i < list.len() ==> at_or_before((#[trigger] list[i]).0, bound)) ==> forall|
                i: int,
            |
                0 <= i < list.len() + 1 ==> at_or_before(
                    (#[trigger] spelled_into(list, x)[i]).0,
                    bound,
                ),
    decreases list.len(),
{
    lemma_order_is_total(x.0, x.0);
    let out = spelled_into(list, x);
    if list.len() == 0 || at_or_before(list.last().0, x.0) {
        assert forall|i: int, j: int| 0 <= i <= j < out.len() implies at_or_before(
            (#[trigger] out[i]).0,
            (#[trigger] out[j]).0,
        ) by {
            if j == list.len() && i < list.len() {
                assert(at_or_before(list[i].0, list[list.len() - 1].0));
                lemma_order_is_transitive(list[i].0, list.last().0, x.0);
            }
        }
    } else {
        let rest = list.drop_last();
        let last = list.last();
        assert forall|i: int, j: int| 0 <= i <= j < rest.len() implies at_or_before(
            (#[trigger] rest[i]).0,
            (#[trigger] rest[j]).0,
        ) by {
            assert(at_or_before(list[i].0, list[j].0));
        }
        lemma_spelled_into(rest, x);
        lemma_order_is_total(last.0, x.0);
        lemma_order_is_total(last.0, last.0);
        let inner = spelled_into(rest, x);
        assert(forall|i: int| 0 <= i < inner.len() ==> at_or_before((#[trigger] inner[i]).0, last.0)) by {
            assert forall|i: int| 0 <= i < rest.len() implies at_or_before(
                (#[trigger] rest[i]).0,
                last.0,
            ) by {
                assert(at_or_before(list[i].0, list[list.len() - 1].0));
            }
            assert(at_or_before(x.0, last.0));
        }
        assert forall|i: int, j: int| 0 <= i <= j < out.len() implies at_or_before(
            (#[trigger] out[i]).0,
            (#[trigger] out[j]).0,
        ) by {
            if j < inner.len() {
                assert(at_or_before(inner[i].0, inner[j].0));
            } else if i < inner.len() {
                assert(at_or_before(inner[i].0, last.0));
            }
        }
        assert forall|bound: Seq<char>|
            #![trigger at_or_before(x.0, bound)]
            at_or_before(x.0, bound) && (forall|i: int|
                0 <= i < list.len() ==> at_or_before(
                    (#[trigger] list[i]).0,
                    bound,
                )) implies forall|i: int|
            0 <= i < list.len() + 1 ==> at_or_before((#[trigger] out[i]).0, bound) by {
            assert forall|i: int| 0 <= i < rest.len() implies at_or_before(
                (#[trigger] rest[i]).0,
                bound,
            ) by {
                assert(at_or_before(list[i].0, bound));
            }
            assert forall|i: int| 0 <= i < list.len() + 1 implies at_or_before(
                (#[trigger] out[i]).0,
                bound,
            ) by {
                if i < inner.len() {
                    assert(at_or_before(inner[i].0, bound));
                } else {
                    assert(at_or_before(list[list.len() - 1].0, bound));
                }
            }
        }
    }
}

proof fn lemma_by_text(list: Seq<(Seq<char>, RawBind)>)
    ensures
        are_by_text(by_text(list)),
    decreases list.len(),
{
    if list.len() > 0 {
        lemma_by_text(list.drop_last());
        lemma_spelled_into(by_text(list.drop_last()), list.last());
    }
}

proof fn lemma_bindings_keep_their_texts(
    lexicon: &Lexicon,
    readings: &Readings,
    spellings: Seq<(Seq<char>, RawBind)>,
    tap: u64,
    gap: u64,
    before: Seq<BindModel>,
)
    requires
        are_by_text(spellings),
        binds_by_text(before),
        forall|i: int, j: int|
            0 <= i < before.len() && 0 <= j < spellings.len() ==> at_or_before(
                (#[trigger] before[i]).trigger_text,
                (#[trigger] spellings[j]).0,
            ),
    ensures
        bindings_from(lexicon, readings, spellings, tap, gap, before) matches Verdict::Sound(all)
            ==> binds_by_text(all),
    decreases spellings.len(),
{
    if spellings.len() > 0 {
        if let Verdict::Sound(bind) = binding(
            lexicon,
            readings,
            spellings[0].0,
            spellings[0].1,
            tap,
            gap,
        ) {
            let rest = spellings.skip(1);
            let more = before.push(bind);
            lemma_order_is_total(bind.trigger_text, bind.trigger_text);
            assert forall|i: int, j: int| 0 <= i <= j < rest.len() implies at_or_before(
                (#[trigger] rest[i]).0,
                (#[trigger] rest[j]).0,
            ) by {
                assert(rest[i] == spellings[i + 1] && rest[j] == spellings[j + 1]);
            }
            assert forall|i: int, j: int| 0 <= i <= j < more.len() implies at_or_before(
                (#[trigger] more[i]).trigger_text,
                (#[trigger] more[j]).trigger_text,
            ) by {
                if j < before.len() {
                    assert(at_or_before(before[i].trigger_text, before[j].trigger_text));
                } else if i < before.len() {
                    assert(at_or_before(before[i].trigger_text, spellings[0].0));
                }
            }
            assert forall|i: int, j: int|
                0 <= i < more.len() && 0 <= j < rest.len() implies at_or_before(
                (#[trigger] more[i]).trigger_text,
                (#[trigger] rest[j]).0,
            ) by {
                assert(rest[j] == spellings[j + 1]);
                if i < before.len() {
                    assert(at_or_before(before[i].trigger_text, spellings[j + 1].0));
                } else {
                    assert(at_or_before(spellings[0].0, spellings[j + 1].0));
                }
            }
            if bind_with(before, bind.trigger) is None {
                lemma_bindings_keep_their_texts(lexicon, readings, rest, tap, gap, more);
            }
        }
    }
}

/// Whether a profile means what it says: each binding can run as it stands, no two are the same
/// trigger or the same grab, no bare key stands in the chord of another, no emergency stop runs a
/// binding, and the bindings are in the order of the text of their triggers.
pub open spec fn is_sound_profile(profile: ProfileModel) -> bool {
    &&& are_sound_bindings(profile.binds)
    &&& binds_by_text(profile.binds)
    &&& forall|i: int, j: int|
        0 <= i < j < profile.binds.len() ==> !same_grab(
            #[trigger] profile.binds[i],
            #[trigger] profile.binds[j],
        )
    &&& no_bare_in_chord(profile.binds, profile.binds)
    &&& stops_apart(profile.emergency_stop, profile.binds)
    &&& forall|s: int|
        0 <= s < profile.emergency_stop.len() ==> ordinary(#[trigger] profile.emergency_stop[s])
            == 1
}

/// A file that is accepted means what it says: every profile that comes of one is sound.
pub proof fn law_an_accepted_profile_is_sound(
    lexicon: &Lexicon,
    readings: &Readings,
    file: RawFile,
    profile: ProfileModel,
)
    requires
        meaning(lexicon, readings, file) == Verdict::Sound(profile),
    ensures
        is_sound_profile(profile),
{
    let (tap_text, gap_text, suppress, program_text, stop_texts) = settings(file);
    lemma_stops_are_chords(lexicon, stop_texts, seq![]);
    let tap = super::readings::optional_duration(
        readings,
        tap_text,
        "defaults.tap"@,
        super::format::DEFAULT_TAP,
    )->Sound_0;
    let gap = super::readings::optional_duration(
        readings,
        gap_text,
        "defaults.gap"@,
        super::format::DEFAULT_GAP,
    )->Sound_0;
    let spellings = by_text(all_spellings(file.binds@));
    lemma_bindings_are_sound(lexicon, readings, spellings, tap, gap, seq![]);
    lemma_by_text(all_spellings(file.binds@));
    lemma_bindings_keep_their_texts(lexicon, readings, spellings, tap, gap, seq![]);
    lemma_stops_apart(profile.emergency_stop, profile.binds);
    lemma_no_overlap(profile.binds, profile.binds);
    lemma_grabs_differ(profile.binds, 0);
}

} // verus!
