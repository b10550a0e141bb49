//! What a profile file means as a whole, what is advised about it, and which profiles a choice
//! selects.
use vstd::prelude::*;

use crate::input::{classes, Holdable, Key};
use crate::names::Lexicon;
use crate::text::{decimal, lowered, split_at_char, texts, trimmed};
use crate::text_laws::{
    law_a_number_reads_back, lemma_split_concat, lemma_split_plain,
};

use super::check::{
    lock_among_keys, lock_among_targets, lock_in_step, lock_in_steps, lock_of, locks,
};
use super::format::{
    action_of, all_spellings, bare_within, bind_with, binding, bindings_from, by_text, grab_clash,
    grab_twin, loops_setting, meaning, overlap, program_setting, settings, sound_together,
    spelled_into, spellings_of, stop_clash, stops_from, warning, RawBind, RawFile, RawLoops,
    RawSection,
};
use super::format_laws::{
    lemma_grabs_differ, lemma_no_overlap, lemma_stops_apart, no_bare_in_chord, same_grab,
    stops_apart,
};
use super::model::{wanted, ActionModel, BindModel, Loops, ProfileModel, StepModel};
use super::program::matches_pattern;
use super::readings::{optional_duration, Readings, Verdict};
use super::select::{file_name, is_profile_path, pick, resolved, Pick};
use super::slots::{text_of_option, wants};
use super::steps::{sequence, target, trigger_meaning};

verus! {

// ------------------------------------------------------------------------------- the fields

/// How often a binding runs: once where nothing is said or one is, as often as a greater count
/// says, endlessly for the word, in any mix of upper and lower case; no times is refused.
pub proof fn law_each_loop_field_is_its_count(times: u32, word: String)
    ensures
        loops_setting(None) == Verdict::Sound(Loops::Once),
        loops_setting(Some(RawLoops::Times(0))) is Refused,
        loops_setting(Some(RawLoops::Times(1))) == Verdict::Sound(Loops::Once),
        times > 1 ==> loops_setting(Some(RawLoops::Times(times))) == Verdict::Sound(
            Loops::Times(times),
        ),
        lowered(word@) == "inf"@ ==> loops_setting(Some(RawLoops::Word(word))) == Verdict::Sound(
            Loops::Infinite,
        ),
        lowered(word@) != "inf"@ ==> loops_setting(Some(RawLoops::Word(word))) is Refused,
{
}

/// A profile applies to every program where no pattern is given, to those of the pattern as it is
/// written where one is, and a blank pattern is refused.
pub proof fn law_a_program_pattern_is_kept_as_written(pattern: Seq<char>)
    ensures
        program_setting(None) == Verdict::Sound(None::<Seq<char>>),
        trimmed(pattern).len() > 0 ==> program_setting(Some(pattern)) == Verdict::Sound(
            Some(pattern),
        ),
        trimmed(pattern).len() == 0 ==> program_setting(Some(pattern)) is Refused,
{
}

/// A binding is a mirror or a sequence: with a target alone it is the one, with steps alone the
/// other, and with both or neither it is refused.
pub proof fn law_a_binding_is_one_or_the_other(
    lexicon: &Lexicon,
    readings: &Readings,
    raw: RawBind,
)
    ensures
        raw.bind is Some && raw.seq is Some ==> action_of(lexicon, readings, raw) is Refused,
        raw.bind is None && raw.seq is None ==> action_of(lexicon, readings, raw) is Refused,
        raw.seq is None ==> (raw.bind matches Some(text) ==> match target(lexicon, text@) {
            Verdict::Sound(inputs) => action_of(lexicon, readings, raw) == Verdict::Sound(
                ActionModel::Mirror(inputs),
            ),
            Verdict::Refused(_) => action_of(lexicon, readings, raw) is Refused,
        }),
        raw.bind is None ==> (raw.seq matches Some(lines) ==> match sequence(
            lexicon,
            readings,
            texts(lines@),
        ) {
            Verdict::Sound(steps) => action_of(lexicon, readings, raw) == Verdict::Sound(
                ActionModel::Sequence(steps),
            ),
            Verdict::Refused(_) => action_of(lexicon, readings, raw) is Refused,
        }),
{
}

/// A binding that is accepted has its own trigger, its own action and its own count, and its own
/// tap and gap where it gives them and those of the file where it does not; only a sequence
/// repeats.
pub proof fn law_a_binding_has_what_its_section_says(
    lexicon: &Lexicon,
    readings: &Readings,
    text: Seq<char>,
    raw: RawBind,
    tap: u64,
    gap: u64,
    bind: BindModel,
)
    requires
        binding(lexicon, readings, text, raw, tap, gap) == Verdict::Sound(bind),
    ensures
        bind.trigger_text == text,
        trigger_meaning(lexicon, text) == Verdict::Sound(bind.trigger),
        action_of(lexicon, readings, raw) == Verdict::Sound(bind.action),
        loops_setting(raw.loops) == Verdict::Sound(bind.loops),
        raw.tap is None ==> bind.tap == tap,
        raw.gap is None ==> bind.gap == gap,
        raw.tap matches Some(own) ==> super::readings::duration(readings, own@) == Verdict::Sound(
            bind.tap,
        ),
        raw.gap matches Some(own) ==> super::readings::duration(readings, own@) == Verdict::Sound(
            bind.gap,
        ),
        bind.action is Mirror ==> bind.loops is Once,
{
}

// --------------------------------------------------------------------------------- the file

proof fn lemma_bindings_one_each(
    lexicon: &Lexicon,
    readings: &Readings,
    spellings: Seq<(Seq<char>, RawBind)>,
    tap: u64,
    gap: u64,
    before: Seq<BindModel>,
)
    ensures
        bindings_from(lexicon, readings, spellings, tap, gap, before) matches Verdict::Sound(all)
            ==> {
            &&& all.len() == before.len() + spellings.len()
            &&& forall|i: int| 0 <= i < before.len() ==> #[trigger] all[i] == before[i]
            &&& forall|i: int|
                0 <= i < spellings.len() ==> binding(
                    lexicon,
                    readings,
                    (#[trigger] spellings[i]).0,
                    spellings[i].1,
                    tap,
                    gap,
                ) == Verdict::Sound(all[before.len() + i])
        },
    decreases spellings.len(),
{
    if spellings.len() > 0 {
        if let Verdict::Sound(bind) = binding(
            lexicon,
            readings,
            spellings[0].0,
            spellings[0].1,
            tap,
            gap,
        ) {
            let rest = spellings.skip(1);
            lemma_bindings_one_each(lexicon, readings, rest, tap, gap, before.push(bind));
            if let Verdict::Sound(all) = bindings_from(
                lexicon,
                readings,
                spellings,
                tap,
                gap,
                before,
            ) {
                assert(all[before.len() as int] == bind);
                assert forall|i: int| 0 <= i < before.len() implies #[trigger] all[i]
                    == before[i] by {
                    assert(all[i] == before.push(bind)[i]);
                }
                assert forall|i: int| 0 <= i < spellings.len() implies binding(
                    lexicon,
                    readings,
                    (#[trigger] spellings[i]).0,
                    spellings[i].1,
                    tap,
                    gap,
                ) == Verdict::Sound(all[before.len() + i]) by {
                    if i > 0 {
                        assert(rest[i - 1] == spellings[i]);
                    }
                }
            }
        }
    }
}

proof fn lemma_stops_one_each(
    lexicon: &Lexicon,
    spellings: Seq<Seq<char>>,
    before: Seq<Seq<Key>>,
)
    ensures
        stops_from(lexicon, spellings, before) matches Verdict::Sound(all) ==> {
            &&& all.len() == before.len() + spellings.len()
            &&& forall|i: int| 0 <= i < before.len() ==> #[trigger] all[i] == before[i]
            &&& forall|i: int|
                0 <= i < spellings.len() ==> trigger_meaning(lexicon, #[trigger] spellings[i])
                    == Verdict::Sound(all[before.len() + i])
        },
    decreases spellings.len(),
{
    if spellings.len() > 0 {
        if let Verdict::Sound(chord) = trigger_meaning(lexicon, spellings[0]) {
            let rest = spellings.skip(1);
            lemma_stops_one_each(lexicon, rest, before.push(chord));
            if let Verdict::Sound(all) = stops_from(lexicon, spellings, before) {
                assert(all[before.len() as int] == chord);
                assert forall|i: int| 0 <= i < before.len() implies #[trigger] all[i]
                    == before[i] by {
                    assert(all[i] == before.push(chord)[i]);
                }
                assert forall|i: int| 0 <= i < spellings.len() implies trigger_meaning(
                    lexicon,
                    #[trigger] spellings[i],
                ) == Verdict::Sound(all[before.len() + i]) by {
                    if i > 0 {
                        assert(rest[i - 1] == spellings[i]);
                    }
                }
            }
        }
    }
}

proof fn lemma_spelled_into_holds(list: Seq<(Seq<char>, RawBind)>, x: (Seq<char>, RawBind))
    ensures
        spelled_into(list, x).to_multiset() == list.to_multiset().insert(x),
    decreases list.len(),
{
    broadcast use vstd::seq_lib::group_to_multiset_ensures;

    if !(list.len() == 0 || super::select::at_or_before(list.last().0, x.0)) {
        lemma_spelled_into_holds(list.drop_last(), x);
        assert(list =~= list.drop_last().push(list.last()));
        assert(spelled_into(list, x).to_multiset() =~= list.to_multiset().insert(x));
    }
}

proof fn lemma_by_text_holds(list: Seq<(Seq<char>, RawBind)>)
    ensures
        by_text(list).to_multiset() == list.to_multiset(),
    decreases list.len(),
{
    broadcast use vstd::seq_lib::group_to_multiset_ensures;

    if list.len() > 0 {
        lemma_by_text_holds(list.drop_last());
        lemma_spelled_into_holds(by_text(list.drop_last()), list.last());
        assert(list =~= list.drop_last().push(list.last()));
    }
}

/// The triggers of a section are its own and those it names besides, each with the same binding,
/// and those of a file are those of its sections.
pub proof fn law_a_section_has_its_trigger_and_the_others(
    sections: Seq<RawSection>,
    section: RawSection,
)
    ensures
        all_spellings(Seq::empty()).len() == 0,
        all_spellings(sections.push(section)) == all_spellings(sections) + spellings_of(section),
        spellings_of(section).len() == 1 + section.bind.also@.len(),
        spellings_of(section)[0] == (section.trigger@, section.bind),
        forall|i: int|
            0 <= i < section.bind.also@.len() ==> #[trigger] spellings_of(section)[i + 1] == (
                section.bind.also@[i]@,
                section.bind,
            ),
{
    assert(sections.push(section).drop_last() =~= sections);
}

/// A file that is accepted has one binding for each trigger it spells, no more and no fewer, each
/// what its section says, with eight milliseconds for a tap and thirty for a gap unless the file
/// says otherwise. Its emergency stops are the chords of their texts, in order, and it applies to
/// the programs it names. A file that asks for its keys to pass through is refused.
pub proof fn law_a_file_has_one_binding_for_each_trigger(
    lexicon: &Lexicon,
    readings: &Readings,
    file: RawFile,
    profile: ProfileModel,
) -> (spellings: Seq<(Seq<char>, RawBind)>)
    requires
        meaning(lexicon, readings, file) == Verdict::Sound(profile),
    ensures
        spellings.to_multiset() == all_spellings(file.binds@).to_multiset(),
        profile.binds.len() == spellings.len(),
        ({
            let tap = optional_duration(readings, settings(file).0, "defaults.tap"@, 8_000_000);
            let gap = optional_duration(readings, settings(file).1, "defaults.gap"@, 30_000_000);
            forall|i: int|
                0 <= i < spellings.len() ==> binding(
                    lexicon,
                    readings,
                    (#[trigger] spellings[i]).0,
                    spellings[i].1,
                    tap->Sound_0,
                    gap->Sound_0,
                ) == Verdict::Sound(profile.binds[i])
        }),
        match file.defaults {
            Some(defaults) => {
                &&& defaults.suppress != Some(false)
                &&& profile.program == text_of_option(defaults.program)
                &&& profile.emergency_stop.len() == defaults.emergency_stop@.len()
                &&& forall|i: int|
                    0 <= i < defaults.emergency_stop@.len() ==> trigger_meaning(
                        lexicon,
                        (#[trigger] defaults.emergency_stop@[i])@,
                    ) == Verdict::Sound(profile.emergency_stop[i])
            },
            None => profile.program is None && profile.emergency_stop.len() == 0,
        },
{
    let (tap_text, gap_text, suppress, program_text, stop_texts) = settings(file);
    let tap = optional_duration(readings, tap_text, "defaults.tap"@, 8_000_000)->Sound_0;
    let gap = optional_duration(readings, gap_text, "defaults.gap"@, 30_000_000)->Sound_0;
    let spellings = by_text(all_spellings(file.binds@));
    lemma_by_text_holds(all_spellings(file.binds@));
    lemma_bindings_one_each(lexicon, readings, spellings, tap, gap, seq![]);
    lemma_stops_one_each(lexicon, stop_texts, seq![]);
    if let Some(defaults) = file.defaults {
        let said = texts(defaults.emergency_stop@);
        assert forall|i: int| 0 <= i < defaults.emergency_stop@.len() implies trigger_meaning(
            lexicon,
            (#[trigger] defaults.emergency_stop@[i])@,
        ) == Verdict::Sound(profile.emergency_stop[i]) by {
            assert(said[i] == defaults.emergency_stop@[i]@);
        }
    }
    spellings
}

/// A setting that is not given has its default, and one that is given is read.
pub proof fn law_a_setting_that_is_not_given_has_its_default(
    readings: &Readings,
    text: Seq<char>,
    field: Seq<char>,
    otherwise: u64,
)
    ensures
        optional_duration(readings, None, field, otherwise) == Verdict::Sound(otherwise),
        super::readings::duration(readings, text) matches Verdict::Sound(nanos)
            ==> optional_duration(readings, Some(text), field, otherwise) == Verdict::Sound(nanos),
        super::readings::duration(readings, text) is Refused ==> optional_duration(
            readings,
            Some(text),
            field,
            otherwise,
        ) is Refused,
{
}

proof fn lemma_no_stop_clash(stops: Seq<Seq<Key>>, binds: Seq<BindModel>)
    requires
        stops_apart(stops, binds),
    ensures
        stop_clash(stops, binds) is None,
    decreases stops.len(),
{
    if stops.len() > 0 {
        lemma_bind_without(binds, stops, 0);
        assert(stops_apart(stops.skip(1), binds)) by {
            assert forall|s: int, b: int|
                0 <= s < stops.skip(1).len() && 0 <= b < binds.len() implies #[trigger] stops.skip(
                1,
            )[s] != (#[trigger] binds[b]).trigger by {
                assert(stops.skip(1)[s] == stops[s + 1]);
            }
        }
        lemma_no_stop_clash(stops.skip(1), binds);
    }
}

proof fn lemma_bind_without(binds: Seq<BindModel>, stops: Seq<Seq<Key>>, s: int)
    requires
        stops_apart(stops, binds),
        0 <= s < stops.len(),
    ensures
        bind_with(binds, stops[s]) is None,
    decreases binds.len(),
{
    if binds.len() > 0 {
        assert(stops[s] != binds[0].trigger);
        let rest = binds.skip(1);
        assert(stops_apart(stops, rest)) by {
            assert forall|a: int, b: int|
                0 <= a < stops.len() && 0 <= b < rest.len() implies #[trigger] stops[a] != (
            #[trigger] rest[b]).trigger by {
                assert(rest[b] == binds[b + 1]);
            }
        }
        lemma_bind_without(rest, stops, s);
    }
}

proof fn lemma_none_bare_within(binds: Seq<BindModel>, chord: Seq<Key>)
    requires
        forall|b: int|
            0 <= b < binds.len() && (#[trigger] binds[b]).trigger.len() == 1 ==> !chord.contains(
                binds[b].trigger[0],
            ),
    ensures
        bare_within(binds, chord) is None,
    decreases binds.len(),
{
    if binds.len() > 0 {
        let first = binds[0];
        assert(first.trigger.len() == 1 ==> !chord.contains(first.trigger[0]));
        let rest = binds.skip(1);
        assert forall|b: int|
            0 <= b < rest.len() && (#[trigger] rest[b]).trigger.len() == 1 implies !chord.contains(
            rest[b].trigger[0],
        ) by {
            assert(rest[b] == binds[b + 1]);
        }
        lemma_none_bare_within(rest, chord);
    }
}

proof fn lemma_none_overlap(all: Seq<BindModel>, rest: Seq<BindModel>)
    requires
        no_bare_in_chord(all, rest),
    ensures
        overlap(all, rest) is None,
    decreases rest.len(),
{
    if rest.len() > 0 {
        let fewer = rest.skip(1);
        assert(no_bare_in_chord(all, fewer)) by {
            assert forall|b: int, c: int|
                0 <= b < all.len() && 0 <= c < fewer.len() && all[b].trigger.len() == 1
                    && fewer[c].trigger.len() > 1 implies !(#[trigger] fewer[c]).trigger.contains(
                (#[trigger] all[b]).trigger[0],
            ) by {
                assert(fewer[c] == rest[c + 1]);
            }
        }
        lemma_none_overlap(all, fewer);
        if rest[0].trigger.len() > 1 {
            lemma_none_bare_within(all, rest[0].trigger);
        }
    }
}

proof fn lemma_none_twin(binds: Seq<BindModel>, bind: BindModel)
    requires
        forall|i: int| 0 <= i < binds.len() ==> !same_grab(#[trigger] binds[i], bind),
    ensures
        grab_twin(binds, bind.trigger) is None,
    decreases binds.len(),
{
    if binds.len() > 0 {
        assert(!same_grab(binds[0], bind));
        let rest = binds.skip(1);
        assert forall|i: int| 0 <= i < rest.len() implies !same_grab(#[trigger] rest[i], bind) by {
            assert(rest[i] == binds[i + 1]);
        }
        lemma_none_twin(rest, bind);
    }
}

proof fn lemma_none_clash(binds: Seq<BindModel>, from: int)
    requires
        0 <= from,
        forall|i: int, j: int|
            0 <= i < j < binds.len() ==> !same_grab(#[trigger] binds[i], #[trigger] binds[j]),
    ensures
        grab_clash(binds, from) is None,
    decreases binds.len() - from,
{
    if from < binds.len() {
        let before = binds.take(from);
        assert forall|i: int| 0 <= i < before.len() implies !same_grab(
            #[trigger] before[i],
            binds[from],
        ) by {
            assert(before[i] == binds[i]);
        }
        lemma_none_twin(before, binds[from]);
        lemma_none_clash(binds, from + 1);
    }
}

/// Bindings that are each sound are refused together for three reasons and for no other: an
/// emergency stop runs one of them, a bare key that is a trigger stands in the chord of another,
/// or two of them are the same grab. Otherwise they are the profile as they are.
pub proof fn law_bindings_are_refused_together_for_three_reasons(
    binds: Seq<BindModel>,
    program: Option<Seq<char>>,
    stops: Seq<Seq<Key>>,
)
    ensures
        sound_together(binds, program, stops) is Sound <==> {
            &&& stops_apart(stops, binds)
            &&& no_bare_in_chord(binds, binds)
            &&& forall|i: int, j: int|
                0 <= i < j < binds.len() ==> !same_grab(#[trigger] binds[i], #[trigger] binds[j])
        },
        sound_together(binds, program, stops) matches Verdict::Sound(profile) ==> profile == (
        ProfileModel { binds, program, emergency_stop: stops }),
{
    if sound_together(binds, program, stops) is Sound {
        lemma_stops_apart(stops, binds);
        lemma_no_overlap(binds, binds);
        lemma_grabs_differ(binds, 0);
    }
    if stops_apart(stops, binds) {
        lemma_no_stop_clash(stops, binds);
        if no_bare_in_chord(binds, binds) {
            lemma_none_overlap(binds, binds);
            if forall|i: int, j: int|
                0 <= i < j < binds.len() ==> !same_grab(#[trigger] binds[i], #[trigger] binds[j]) {
                lemma_none_clash(binds, 0);
            }
        }
    }
}

// -------------------------------------------------------------------------------- the advice

/// Only a mirror is advised about, and exactly where its trigger holds a modifier class that its
/// target does not want.
pub proof fn law_a_mirror_that_drops_a_modifier_is_advised_about(
    lexicon: &Lexicon,
    bind: BindModel,
)
    ensures
        bind.action is Sequence ==> warning(lexicon, bind) is None,
        bind.action matches ActionModel::Mirror(targets) ==> {
            let held = classes(bind.trigger);
            let want = wanted(targets);
            warning(lexicon, bind) is Some <==> held.shift && !want.shift || held.ctrl && !want.ctrl
                || held.alt && !want.alt || held.ralt && !want.ralt || held.meta && !want.meta
        },
{
}

/// Two keys lock, and no other does.
pub proof fn law_two_keys_lock(key: Key)
    ensures
        locks(Key::CapsLock),
        locks(Key::NumLock),
        locks(key) ==> key == Key::CapsLock || key == Key::NumLock,
{
}

proof fn lemma_lock_among_keys(keys: Seq<Key>)
    ensures
        match lock_among_keys(keys) {
            Some(key) => locks(key) && keys.contains(key),
            None => !keys.contains(Key::CapsLock) && !keys.contains(Key::NumLock),
        },
    decreases keys.len(),
{
    if keys.len() > 0 {
        let rest = keys.skip(1);
        lemma_lock_among_keys(rest);
        assert forall|key: Key| keys.contains(key) <==> keys[0] == key || rest.contains(key) by {
            if keys.contains(key) {
                let i = choose|i: int| 0 <= i < keys.len() && keys[i] == key;
                if i > 0 {
                    assert(rest[i - 1] == key);
                }
            }
            if rest.contains(key) {
                let i = choose|i: int| 0 <= i < rest.len() && rest[i] == key;
                assert(keys[i + 1] == key);
            }
        }
    }
}

proof fn lemma_lock_among_targets(targets: Seq<Holdable>)
    ensures
        match lock_among_targets(targets) {
            Some(key) => locks(key) && targets.contains(Holdable::Key(key)),
            None => !targets.contains(Holdable::Key(Key::CapsLock)) && !targets.contains(
                Holdable::Key(Key::NumLock),
            ),
        },
    decreases targets.len(),
{
    if targets.len() > 0 {
        let rest = targets.skip(1);
        lemma_lock_among_targets(rest);
        assert forall|x: Holdable| targets.contains(x) <==> targets[0] == x || rest.contains(x) by {
            if targets.contains(x) {
                let i = choose|i: int| 0 <= i < targets.len() && targets[i] == x;
                if i > 0 {
                    assert(rest[i - 1] == x);
                }
            }
            if rest.contains(x) {
                let i = choose|i: int| 0 <= i < rest.len() && rest[i] == x;
                assert(targets[i + 1] == x);
            }
        }
    }
}

/// A lock key is found in a trigger, in the targets of a mirror, and in what a tap or a PRESS
/// presses, wherever it stands; without one nothing is found.
pub proof fn law_a_lock_key_is_found_wherever_it_stands(bind: BindModel, key: Key, at: int)
    requires
        key == Key::CapsLock || key == Key::NumLock,
    ensures
        bind.trigger.contains(key) ==> lock_of(bind) is Some,
        bind.action matches ActionModel::Mirror(targets) ==> (targets.contains(Holdable::Key(key))
            ==> lock_of(bind) is Some),
        bind.action matches ActionModel::Sequence(steps) ==> (0 <= at < steps.len() ==> match steps[at] {
            StepModel::Tap(targets) | StepModel::Hold(targets) => targets.contains(
                Holdable::Key(key),
            ) ==> lock_of(bind) is Some,
            _ => true,
        }),
        lock_of(bind) matches Some(found) ==> found == Key::CapsLock || found == Key::NumLock,
{
    lemma_lock_among_keys(bind.trigger);
    match bind.action {
        ActionModel::Mirror(targets) => {
            lemma_lock_among_targets(targets);
        },
        ActionModel::Sequence(steps) => {
            lemma_lock_in_steps(steps, at);
        },
    }
}

proof fn lemma_lock_in_steps(steps: Seq<StepModel>, at: int)
    ensures
        lock_in_steps(steps) matches Some(found) ==> locks(found),
        0 <= at < steps.len() && lock_in_step(steps[at]) is Some ==> lock_in_steps(steps) is Some,
        0 <= at < steps.len() ==> match steps[at] {
            StepModel::Tap(targets) | StepModel::Hold(targets) => targets.contains(
                Holdable::Key(Key::CapsLock),
            ) || targets.contains(Holdable::Key(Key::NumLock)) ==> lock_in_step(steps[at]) is Some,
            _ => true,
        },
    decreases steps.len(),
{
    if steps.len() > 0 {
        match steps[0] {
            StepModel::Tap(targets) | StepModel::Hold(targets) => {
                lemma_lock_among_targets(targets);
            },
            _ => {},
        }
        let rest = steps.skip(1);
        lemma_lock_in_steps(rest, at - 1);
        if 1 <= at < steps.len() {
            assert(rest[at - 1] == steps[at]);
        }
    }
}

// -------------------------------------------------------------------------------- the choice

/// A number picks the profile at that place of the list, counted from one; a number that is not on
/// the list picks nothing.
pub proof fn law_a_number_picks_by_its_place(names: Seq<Seq<char>>, number: nat, colour: bool)
    requires
        number <= usize::MAX,
    ensures
        1 <= number <= names.len() ==> pick(decimal(number), names, colour) == Pick::One(
            names[number - 1],
        ),
        number == 0 || number > names.len() ==> pick(decimal(number), names, colour) is Refused,
{
    law_a_number_reads_back(number, usize::MAX as nat);
    lemma_digits_are_not_all(number);
}

proof fn lemma_digits_are_not_all(number: nat)
    ensures
        lowered(decimal(number)) != "all"@,
{
    reveal_strlit("all");
    let text = decimal(number);
    lemma_decimal_is_digits(number);
    assert(lowered(text)[0] == crate::text::lower_char(text[0]));
    assert("all"@[0] == 'a');
}

proof fn lemma_decimal_is_digits(n: nat)
    ensures
        decimal(n).len() > 0,
        '0' <= decimal(n)[0] <= '9',
    decreases n,
{
    if n >= 10 {
        lemma_decimal_is_digits(n / 10);
        assert(decimal(n)[0] == decimal(n / 10)[0]);
    }
}

/// A profile is meant by its name, by its name without the ending, and by any path to it; the name
/// itself comes before the name with an ending added.
pub proof fn law_a_profile_is_meant_by_its_name_or_a_path(
    directory: Seq<char>,
    name: Seq<char>,
    names: Seq<Seq<char>>,
)
    requires
        is_plain_name(name),
    ensures
        file_name(name) == Some(name),
        file_name(directory + seq!['/'] + name) == Some(name),
        names.contains(name) ==> resolved(name, names) == Some(name) && resolved(
            directory + seq!['/'] + name,
            names,
        ) == Some(name),
        !names.contains(name) && names.contains(name + ".toml"@) ==> resolved(name, names) == Some(
            name + ".toml"@,
        ),
        !names.contains(name) && !names.contains(name + ".toml"@) ==> resolved(name, names) is None,
{
    lemma_split_plain(name, '/');
    lemma_split_concat(directory, name, '/');
    let parts = split_at_char(directory + seq!['/'] + name, '/');
    assert(parts =~= split_at_char(directory, '/') + seq![name]);
    assert(parts.last() == name);
    assert(seq![name].last() == name);
}

/// Whether a text is the name of a file: not empty, without a stroke, and neither of the two that
/// mean a directory.
pub open spec fn is_plain_name(name: Seq<char>) -> bool {
    name.len() > 0 && !name.contains('/') && name != "."@ && name != ".."@
}

/// A file in a directory is a profile exactly where its name has something before its last dot and
/// what follows that dot is the ending of a profile, in any mix of upper and lower case.
pub proof fn law_a_profile_has_its_ending(stem: Seq<char>, end: Seq<char>, directory: Seq<char>)
    requires
        stem.len() > 0,
        is_plain_name(stem + seq!['.'] + end),
        !end.contains('.'),
        !stem.contains('.'),
    ensures
        is_profile_path(directory + seq!['/'] + (stem + seq!['.'] + end)) <==> lowered(end)
            == "toml"@,
        is_profile_path(stem + seq!['.'] + end) <==> lowered(end) == "toml"@,
{
    let name = stem + seq!['.'] + end;
    law_a_profile_is_meant_by_its_name_or_a_path(directory, name, seq![]);
    lemma_split_concat(stem, end, '.');
    lemma_split_plain(stem, '.');
    lemma_split_plain(end, '.');
    assert(split_at_char(name, '.') =~= seq![stem, end]);
}

/// A profile without a pattern always wants its keys. One with a pattern wants them where the
/// focused program matches it, and where nobody can say which program that is, as it did before.
pub proof fn law_a_profile_wants_its_keys_in_its_program(
    pattern: Seq<char>,
    class: Seq<char>,
    known: Option<Seq<char>>,
    before: bool,
)
    ensures
        wants(None, known, before),
        wants(Some(pattern), None, before) == before,
        wants(Some(pattern), Some(class), before) == matches_pattern(
            lowered(pattern),
            lowered(class),
        ),
        lowered(pattern) == lowered(class) && !lowered(pattern).contains('*') ==> wants(
            Some(pattern),
            Some(class),
            before,
        ),
{
    if !lowered(pattern).contains('*') {
        super::program::law_a_plain_pattern_matches_only_itself(lowered(pattern), lowered(class));
    }
}

} // verus!
