//! The binds-file format: what a file may say, and what it means.
//!
//! A file that would silently mean something other than what it says is refused with the reason:
//! a PRESS that nobody releases, two spellings of one trigger, a setting that nothing honours.
use vstd::prelude::*;

use crate::input::{classes, has_key, same_keys, Key};
use crate::names::Lexicon;
use crate::text::{lowered, same_ignoring_case, texts, trim, trimmed};

use super::claims::{bracket, bracketed};
use super::format_laws::{is_sound_profile, law_an_accepted_profile_is_sound};
use super::model::{
    binds_view, chord_mods, chords_view, primary, primary_key, target_mods, wanted, Action,
    ActionModel, Bind, BindModel, Loops, Profile, ProfileModel,
};
use super::readings::{optional_duration, parse_optional_duration, Readings, Verdict};
use super::select::{at_or_before, comes_first};
use super::slots::text_of_option;
use super::steps::{parse_seq, parse_target, parse_trigger, sequence, target, trigger_meaning};

verus! {

/// How long a tap holds, where the file does not say: eight milliseconds.
pub const DEFAULT_TAP: u64 = 8_000_000;

/// The pause between steps, where the file does not say: thirty milliseconds.
pub const DEFAULT_GAP: u64 = 30_000_000;

/// A file before any meaning is checked.
#[derive(Debug)]
pub struct RawFile {
    pub defaults: Option<RawDefaults>,
    /// The sections, in any order.
    pub binds: Vec<RawSection>,
}

/// The settings for the whole file.
#[derive(Debug)]
pub struct RawDefaults {
    pub tap: Option<String>,
    pub gap: Option<String>,
    pub suppress: Option<bool>,
    pub program: Option<String>,
    /// Each spelling stops the run.
    pub emergency_stop: Vec<String>,
}

/// A section with its name, which is the trigger.
#[derive(Debug)]
pub struct RawSection {
    pub trigger: String,
    pub bind: RawBind,
}

/// What a section says.
#[derive(Debug)]
pub struct RawBind {
    pub bind: Option<String>,
    pub seq: Option<Vec<String>>,
    /// More triggers for the same action.
    pub also: Vec<String>,
    pub tap: Option<String>,
    pub gap: Option<String>,
    pub loops: Option<RawLoops>,
}

/// How often a section says that it runs.
#[derive(Debug)]
pub enum RawLoops {
    Times(u32),
    Word(String),
}

// ----------------------------------------------------------------------------- single settings

/// What the program pattern means: an empty one matches nothing for ever, so it is refused.
pub open spec fn program_setting(program: Option<Seq<char>>) -> Verdict<Option<Seq<char>>> {
    match program {
        None => Verdict::Sound(None),
        Some(pattern) => if trimmed(pattern).len() == 0 {
            Verdict::Refused("defaults.program is empty; drop the field to always apply"@)
        } else {
            Verdict::Sound(Some(pattern))
        },
    }
}

/// Checks the program pattern.
pub fn parse_program(program: &Option<String>) -> (r: Result<Option<String>, String>)
    ensures
        match r {
            Ok(pattern) => program_setting(text_of_option(*program)) == Verdict::Sound(
                text_of_option(pattern),
            ),
            Err(why) => program_setting(text_of_option(*program)) == Verdict::<
                Option<Seq<char>>,
            >::Refused(why@),
        },
{
    match program {
        None => Ok(None),
        Some(pattern) => if trim(pattern.as_str()).as_str().is_empty() {
            Err("defaults.program is empty; drop the field to always apply".to_owned())
        } else {
            Ok(Some(pattern.clone()))
        },
    }
}

/// What the repeat count means.
pub open spec fn loops_setting(loops: Option<RawLoops>) -> Verdict<Loops> {
    match loops {
        None => Verdict::Sound(Loops::Once),
        Some(RawLoops::Times(times)) => if times == 1 {
            Verdict::Sound(Loops::Once)
        } else if times == 0 {
            Verdict::Refused("loop = 0 would never run; drop the field or use 1"@)
        } else {
            Verdict::Sound(Loops::Times(times))
        },
        Some(RawLoops::Word(word)) => if lowered(word@) == "inf"@ {
            Verdict::Sound(Loops::Infinite)
        } else {
            Verdict::Refused(
                "loop = \""@ + word@ + "\" is not a count; use a number or \"inf\""@,
            )
        },
    }
}

/// Reads the repeat count: a number, or the word for no end.
pub fn parse_loops(loops: &Option<RawLoops>) -> (r: Result<Loops, String>)
    ensures
        match r {
            Ok(meant) => loops_setting(*loops) == Verdict::Sound(meant),
            Err(why) => loops_setting(*loops) == Verdict::<Loops>::Refused(why@),
        },
{
    match loops {
        None => Ok(Loops::Once),
        Some(RawLoops::Times(times)) => if *times == 1 {
            Ok(Loops::Once)
        } else if *times == 0 {
            Err("loop = 0 would never run; drop the field or use 1".to_owned())
        } else {
            Ok(Loops::Times(*times))
        },
        Some(RawLoops::Word(word)) => {
            proof {
                assert(lowered("inf"@) =~= "inf"@) by {
                    reveal_strlit("inf");
                }
            }
            if same_ignoring_case(word.as_str(), "inf") {
                Ok(Loops::Infinite)
            } else {
                let mut why: String = "loop = \"".to_owned();
                why.append(word.as_str());
                why.append("\" is not a count; use a number or \"inf\"");
                Err(why)
            }
        },
    }
}

/// What the emergency stops mean, after those that were read already.
pub open spec fn stops_from(
    lexicon: &Lexicon,
    spellings: Seq<Seq<char>>,
    before: Seq<Seq<Key>>,
) -> Verdict<Seq<Seq<Key>>>
    decreases spellings.len(),
{
    if spellings.len() == 0 {
        Verdict::Sound(before)
    } else {
        match trigger_meaning(lexicon, spellings[0]) {
            Verdict::Refused(why) => Verdict::Refused("emergency_stop: "@ + why),
            Verdict::Sound(chord) => stops_from(lexicon, spellings.skip(1), before.push(chord)),
        }
    }
}

/// Reads the emergency stops: each one key or a chord, spelled like any trigger.
pub fn parse_emergency(lexicon: &Lexicon, spellings: &Vec<String>) -> (r: Result<
    Vec<Vec<Key>>,
    String,
>)
    ensures
        match r {
            Ok(chords) => stops_from(lexicon, texts(spellings@), seq![]) == Verdict::Sound(
                chords_view(chords@),
            ),
            Err(why) => stops_from(lexicon, texts(spellings@), seq![]) == Verdict::<
                Seq<Seq<Key>>,
            >::Refused(why@),
        },
{
    let ghost all = texts(spellings@);
    let mut chords: Vec<Vec<Key>> = Vec::new();
    let mut i: usize = 0;
    proof {
        assert(all.skip(0) =~= all);
        assert(chords_view(chords@) =~= seq![]);
    }
    while i < spellings.len()
        invariant
            i <= spellings@.len(),
            all == texts(spellings@),
            stops_from(lexicon, all, seq![]) == stops_from(
                lexicon,
                all.skip(i as int),
                chords_view(chords@),
            ),
        decreases spellings@.len() - i,
    {
        proof {
            assert(all.skip(i as int)[0] == spellings@[i as int]@);
            assert(all.skip(i as int).skip(1) =~= all.skip(i + 1));
        }
        match parse_trigger(lexicon, spellings[i].as_str()) {
            Err(detail) => {
                let mut why: String = "emergency_stop: ".to_owned();
                why.append(detail.as_str());
                return Err(why);
            },
            Ok(chord) => {
                let ghost before = chords_view(chords@);
                let ghost keys = chord@;
                chords.push(chord);
                assert(chords_view(chords@) =~= before.push(keys));
            },
        }
        i += 1;
    }
    Ok(chords)
}

// -------------------------------------------------------------------------------- one binding

/// The lines of a sequence.
pub open spec fn lines_of(seq: Option<Vec<String>>) -> Option<Seq<Seq<char>>> {
    match seq {
        Some(lines) => Some(texts(lines@)),
        None => None,
    }
}

/// What a section does: exactly one of a mirror and a sequence.
pub open spec fn action_of(
    lexicon: &Lexicon,
    readings: &Readings,
    raw: RawBind,
) -> Verdict<ActionModel> {
    match (text_of_option(raw.bind), lines_of(raw.seq)) {
        (Some(_), Some(_)) => Verdict::Refused(
            "has both `bind` and `seq`; a binding is one or the other"@,
        ),
        (None, None) => Verdict::Refused(
            "has neither `bind` nor `seq`; a binding needs exactly one"@,
        ),
        (Some(text), None) => match target(lexicon, text) {
            Verdict::Sound(inputs) => Verdict::Sound(ActionModel::Mirror(inputs)),
            Verdict::Refused(why) => Verdict::Refused(why),
        },
        (None, Some(lines)) => match sequence(lexicon, readings, lines) {
            Verdict::Sound(steps) => Verdict::Sound(ActionModel::Sequence(steps)),
            Verdict::Refused(why) => Verdict::Refused(why),
        },
    }
}

/// What a section means for one spelling of its trigger.
pub open spec fn binding(
    lexicon: &Lexicon,
    readings: &Readings,
    trigger_text: Seq<char>,
    raw: RawBind,
    default_tap: u64,
    default_gap: u64,
) -> Verdict<BindModel> {
    match trigger_meaning(lexicon, trigger_text) {
        Verdict::Refused(why) => Verdict::Refused(why),
        Verdict::Sound(chord) => match optional_duration(
            readings,
            text_of_option(raw.tap),
            "tap"@,
            default_tap,
        ) {
            Verdict::Refused(why) => Verdict::Refused(why),
            Verdict::Sound(tap) => match optional_duration(
                readings,
                text_of_option(raw.gap),
                "gap"@,
                default_gap,
            ) {
                Verdict::Refused(why) => Verdict::Refused(why),
                Verdict::Sound(gap) => match action_of(lexicon, readings, raw) {
                    Verdict::Refused(why) => Verdict::Refused(why),
                    Verdict::Sound(action) => match loops_setting(raw.loops) {
                        Verdict::Refused(why) => Verdict::Refused(why),
                        Verdict::Sound(loops) => if !(loops is Once) && action is Mirror {
                            Verdict::Refused(
                                "`loop` needs a `seq`: a mirror follows the trigger's own edges and has nothing to repeat"@,
                            )
                        } else {
                            Verdict::Sound(
                                BindModel {
                                    trigger_text,
                                    trigger: chord,
                                    action,
                                    tap,
                                    gap,
                                    loops,
                                },
                            )
                        },
                    },
                },
            },
        },
    }
}

fn parse_action(lexicon: &Lexicon, readings: &Readings, raw: &RawBind) -> (r: Result<
    Action,
    String,
>)
    ensures
        match r {
            Ok(action) => action_of(lexicon, readings, *raw) == Verdict::Sound(action@),
            Err(why) => action_of(lexicon, readings, *raw) == Verdict::<ActionModel>::Refused(
                why@,
            ),
        },
{
    match (&raw.bind, &raw.seq) {
        (Some(_), Some(_)) => Err(
            "has both `bind` and `seq`; a binding is one or the other".to_owned(),
        ),
        (None, None) => Err(
            "has neither `bind` nor `seq`; a binding needs exactly one".to_owned(),
        ),
        (Some(text), None) => match parse_target(lexicon, text.as_str()) {
            Ok(inputs) => Ok(Action::Mirror(inputs)),
            Err(why) => Err(why),
        },
        (None, Some(lines)) => match parse_seq(lexicon, readings, lines) {
            Ok(steps) => Ok(Action::Sequence(steps)),
            Err(why) => Err(why),
        },
    }
}

/// Checks a section for one spelling of its trigger, and lowers it into its runnable form.
pub fn lower_bind(
    lexicon: &Lexicon,
    readings: &Readings,
    trigger_text: &str,
    raw: &RawBind,
    default_tap: u64,
    default_gap: u64,
) -> (r: Result<Bind, String>)
    ensures
        ({
            let meant = binding(
                lexicon,
                readings,
                trigger_text@,
                *raw,
                default_tap,
                default_gap,
            );
            match r {
                Ok(bind) => meant == Verdict::Sound(bind@),
                Err(why) => meant == Verdict::<BindModel>::Refused(why@),
            }
        }),
{
    let chord = match parse_trigger(lexicon, trigger_text) {
        Ok(chord) => chord,
        Err(why) => {
            return Err(why);
        },
    };
    let tap = match parse_optional_duration(readings, &raw.tap, "tap", default_tap) {
        Ok(tap) => tap,
        Err(why) => {
            return Err(why);
        },
    };
    let gap = match parse_optional_duration(readings, &raw.gap, "gap", default_gap) {
        Ok(gap) => gap,
        Err(why) => {
            return Err(why);
        },
    };
    let action = match parse_action(lexicon, readings, raw) {
        Ok(action) => action,
        Err(why) => {
            return Err(why);
        },
    };
    let loops = match parse_loops(&raw.loops) {
        Ok(loops) => loops,
        Err(why) => {
            return Err(why);
        },
    };
    let mirror = match &action {
        Action::Mirror(_) => true,
        Action::Sequence(_) => false,
    };
    if loops != Loops::Once && mirror {
        return Err(
            "`loop` needs a `seq`: a mirror follows the trigger's own edges and has nothing to repeat".to_owned(),
        );
    }
    Ok(Bind { trigger_text: trigger_text.to_owned(), trigger: chord, action, tap, gap, loops })
}

// ------------------------------------------------------------------------------ all bindings

/// A spelling of a trigger with its section.
pub struct Spelled<'a> {
    pub text: &'a str,
    pub raw: &'a RawBind,
}

/// The triggers of a section: its name, then whatever else it says.
pub open spec fn spellings_of(section: RawSection) -> Seq<(Seq<char>, RawBind)> {
    seq![(section.trigger@, section.bind)] + texts(section.bind.also@).map_values(
        |text: Seq<char>| (text, section.bind),
    )
}

/// The triggers of all sections, each with its section.
pub open spec fn all_spellings(sections: Seq<RawSection>) -> Seq<(Seq<char>, RawBind)>
    decreases sections.len(),
{
    if sections.len() == 0 {
        seq![]
    } else {
        all_spellings(sections.drop_last()) + spellings_of(sections.last())
    }
}

/// Spellings in the order of their text with one more in its place.
pub open spec fn spelled_into(
    list: Seq<(Seq<char>, RawBind)>,
    x: (Seq<char>, RawBind),
) -> Seq<(Seq<char>, RawBind)>
    decreases list.len(),
{
    if list.len() == 0 || at_or_before(list.last().0, x.0) {
        list.push(x)
    } else {
        spelled_into(list.drop_last(), x).push(list.last())
    }
}

/// Spellings in the order of their text; those of the same text stay as they are.
pub open spec fn by_text(list: Seq<(Seq<char>, RawBind)>) -> Seq<(Seq<char>, RawBind)>
    decreases list.len(),
{
    if list.len() == 0 {
        seq![]
    } else {
        spelled_into(by_text(list.drop_last()), list.last())
    }
}

/// The first binding with a trigger, keys in the same order.
pub open spec fn bind_with(binds: Seq<BindModel>, chord: Seq<Key>) -> Option<BindModel>
    decreases binds.len(),
{
    if binds.len() == 0 {
        None
    } else if binds[0].trigger == chord {
        Some(binds[0])
    } else {
        bind_with(binds.skip(1), chord)
    }
}

/// What the spellings from one on mean, after the bindings so far: two spellings of one trigger
/// are one key twice.
pub open spec fn bindings_from(
    lexicon: &Lexicon,
    readings: &Readings,
    spellings: Seq<(Seq<char>, RawBind)>,
    tap: u64,
    gap: u64,
    before: Seq<BindModel>,
) -> Verdict<Seq<BindModel>>
    decreases spellings.len(),
{
    if spellings.len() == 0 {
        Verdict::Sound(before)
    } else {
        let context = bracketed(spellings[0].0);
        match binding(lexicon, readings, spellings[0].0, spellings[0].1, tap, gap) {
            Verdict::Refused(why) => Verdict::Refused(context + ": "@ + why),
            Verdict::Sound(bind) => match bind_with(before, bind.trigger) {
                Some(previous) => Verdict::Refused(
                    context + ": this is the same trigger as "@ + bracketed(previous.trigger_text)
                        + " \u{2014} two spellings of one key"@,
                ),
                None => bindings_from(
                    lexicon,
                    readings,
                    spellings.skip(1),
                    tap,
                    gap,
                    before.push(bind),
                ),
            },
        }
    }
}

/// Where a trigger is among bindings.
fn find_trigger(binds: &Vec<Bind>, chord: &Vec<Key>) -> (r: Option<usize>)
    ensures
        match r {
            Some(i) => i < binds@.len() && bind_with(binds_view(binds@), chord@) == Some(
                binds@[i as int]@,
            ),
            None => bind_with(binds_view(binds@), chord@) is None,
        },
{
    let ghost all = binds_view(binds@);
    let mut i: usize = 0;
    assert(all.skip(0) =~= all);
    while i < binds.len()
        invariant
            i <= binds@.len(),
            all == binds_view(binds@),
            bind_with(all, chord@) == bind_with(all.skip(i as int), chord@),
        decreases binds@.len() - i,
    {
        assert(all.skip(i as int)[0] == binds@[i as int]@);
        if same_keys(&binds[i].trigger, chord) {
            return Some(i);
        }
        i += 1;
        assert(all.skip(i - 1).skip(1) =~= all.skip(i as int));
    }
    None
}

/// The mathematical values of a list of spellings.
pub open spec fn spelled_view(list: Seq<Spelled<'_>>) -> Seq<(Seq<char>, RawBind)> {
    list.map_values(|spelled: Spelled<'_>| (spelled.text@, *spelled.raw))
}

fn collect_spellings<'a>(sections: &'a Vec<RawSection>) -> (out: Vec<Spelled<'a>>)
    ensures
        spelled_view(out@) == all_spellings(sections@),
{
    let mut out: Vec<Spelled<'a>> = Vec::new();
    let mut i: usize = 0;
    proof {
        assert(sections@.take(0) =~= seq![]);
        assert(spelled_view(out@) =~= seq![]);
    }
    while i < sections.len()
        invariant
            i <= sections@.len(),
            spelled_view(out@) == all_spellings(sections@.take(i as int)),
        decreases sections@.len() - i,
    {
        let section = &sections[i];
        let ghost before = spelled_view(out@);
        let ghost more = texts(section.bind.also@).map_values(|text: Seq<char>| (text, section.bind));
        out.push(Spelled { text: section.trigger.as_str(), raw: &section.bind });
        let ghost first = before.push((section.trigger@, section.bind));
        let mut k: usize = 0;
        assert(spelled_view(out@) =~= first + more.take(0));
        while k < section.bind.also.len()
            invariant
                k <= section.bind.also@.len(),
                more == texts(section.bind.also@).map_values(
                    |text: Seq<char>| (text, section.bind),
                ),
                spelled_view(out@) == first + more.take(k as int),
            decreases section.bind.also@.len() - k,
        {
            let ghost sofar = spelled_view(out@);
            out.push(Spelled { text: section.bind.also[k].as_str(), raw: &section.bind });
            k += 1;
            assert(spelled_view(out@) =~= sofar.push((section.bind.also@[k - 1]@, section.bind)));
            assert(spelled_view(out@) =~= first + more.take(k as int));
        }
        proof {
            assert(more.take(more.len() as int) =~= more);
            assert(sections@.take(i + 1).drop_last() =~= sections@.take(i as int));
            assert(sections@.take(i + 1).last() == *section);
            assert(first + more =~= before + spellings_of(*section));
        }
        i += 1;
    }
    assert(sections@.take(sections@.len() as int) =~= sections@);
    out
}

/// Puts a spelling in its place.
fn insert_spelling<'a>(list: &mut Vec<Spelled<'a>>, x: Spelled<'a>)
    ensures
        spelled_view(final(list)@) == spelled_into(
            spelled_view(old(list)@),
            (x.text@, *x.raw),
        ),
{
    let ghost whole = spelled_view(list@);
    let ghost one = (x.text@, *x.raw);
    let mut i: usize = list.len();
    proof {
        assert(whole.take(i as int) =~= whole);
        assert(spelled_into(whole, one) + whole.skip(i as int) =~= spelled_into(whole, one));
    }
    while i > 0 && !comes_first(list[i - 1].text, x.text)
        invariant
            i <= list@.len(),
            list@ == old(list)@,
            whole == spelled_view(list@),
            one == (x.text@, *x.raw),
            spelled_into(whole, one) == spelled_into(whole.take(i as int), one) + whole.skip(
                i as int,
            ),
        decreases i,
    {
        proof {
            let part = whole.take(i as int);
            assert(part.last().0 == list@[i - 1].text@);
            assert(part.drop_last() =~= whole.take(i - 1));
            assert(spelled_into(whole.take(i - 1), one).push(part.last()) + whole.skip(i as int)
                =~= spelled_into(whole.take(i - 1), one) + whole.skip(i - 1));
        }
        i -= 1;
    }
    proof {
        let part = whole.take(i as int);
        if i > 0 {
            assert(part.last().0 == list@[i - 1].text@);
        }
        assert(spelled_into(part, one) =~= part.push(one));
    }
    list.insert(i, x);
    proof {
        assert(spelled_view(list@) =~= whole.take(i as int).push(one) + whole.skip(i as int));
    }
}

/// The triggers of all sections in the order of their text.
fn order_spellings<'a>(sections: &'a Vec<RawSection>) -> (out: Vec<Spelled<'a>>)
    ensures
        spelled_view(out@) == by_text(all_spellings(sections@)),
{
    let all = collect_spellings(sections);
    let ghost model = spelled_view(all@);
    let mut out: Vec<Spelled<'a>> = Vec::new();
    let mut i: usize = 0;
    proof {
        assert(model.take(0) =~= seq![]);
        assert(spelled_view(out@) =~= seq![]);
    }
    while i < all.len()
        invariant
            i <= all@.len(),
            model == spelled_view(all@),
            spelled_view(out@) == by_text(model.take(i as int)),
        decreases all@.len() - i,
    {
        proof {
            assert(model.take(i + 1).drop_last() =~= model.take(i as int));
            assert(model.take(i + 1).last() == model[i as int]);
        }
        insert_spelling(&mut out, Spelled { text: all[i].text, raw: all[i].raw });
        i += 1;
    }
    assert(model.take(model.len() as int) =~= model);
    out
}

fn parse_bindings(
    lexicon: &Lexicon,
    readings: &Readings,
    sections: &Vec<RawSection>,
    tap: u64,
    gap: u64,
) -> (r: Result<Vec<Bind>, String>)
    ensures
        ({
            let meant = bindings_from(
                lexicon,
                readings,
                by_text(all_spellings(sections@)),
                tap,
                gap,
                seq![],
            );
            match r {
                Ok(binds) => meant == Verdict::Sound(binds_view(binds@)),
                Err(why) => meant == Verdict::<Seq<BindModel>>::Refused(why@),
            }
        }),
{
    let spelled = order_spellings(sections);
    let ghost all = spelled_view(spelled@);
    let mut binds: Vec<Bind> = Vec::new();
    let mut i: usize = 0;
    proof {
        assert(all.skip(0) =~= all);
        assert(binds_view(binds@) =~= seq![]);
    }
    while i < spelled.len()
        invariant
            i <= spelled@.len(),
            all == spelled_view(spelled@),
            all == by_text(all_spellings(sections@)),
            bindings_from(lexicon, readings, all, tap, gap, seq![]) == bindings_from(
                lexicon,
                readings,
                all.skip(i as int),
                tap,
                gap,
                binds_view(binds@),
            ),
        decreases spelled@.len() - i,
    {
        let text = spelled[i].text;
        proof {
            assert(all.skip(i as int)[0] == (text@, *spelled@[i as int].raw));
            assert(all.skip(i as int).skip(1) =~= all.skip(i + 1));
        }
        match lower_bind(lexicon, readings, text, spelled[i].raw, tap, gap) {
            Err(detail) => {
                let mut why: String = bracket(text);
                why.append(": ");
                why.append(detail.as_str());
                return Err(why);
            },
            Ok(bind) => {
                if let Some(k) = find_trigger(&binds, &bind.trigger) {
                    let mut why: String = bracket(text);
                    why.append(": this is the same trigger as ");
                    why.append(bracket(binds[k].trigger_text.as_str()).as_str());
                    why.append(" \u{2014} two spellings of one key");
                    return Err(why);
                }
                let ghost before = binds_view(binds@);
                let ghost model = bind@;
                binds.push(bind);
                assert(binds_view(binds@) =~= before.push(model));
            },
        }
        i += 1;
    }
    Ok(binds)
}

// --------------------------------------------------------------------------- between bindings

/// Why an emergency stop that is a trigger too is refused; nothing where none is.
pub open spec fn stop_clash(stops: Seq<Seq<Key>>, binds: Seq<BindModel>) -> Option<Seq<char>>
    decreases stops.len(),
{
    if stops.len() == 0 {
        None
    } else {
        match bind_with(binds, stops[0]) {
            Some(bind) => Some(
                "emergency_stop is also the trigger of "@ + bracketed(bind.trigger_text)
                    + " \u{2014} one key cannot both run a binding and stop the run"@,
            ),
            None => stop_clash(stops.skip(1), binds),
        }
    }
}

fn find_stop_clash(stops: &Vec<Vec<Key>>, binds: &Vec<Bind>) -> (r: Option<String>)
    ensures
        text_of_option(r) == stop_clash(chords_view(stops@), binds_view(binds@)),
{
    let ghost all = chords_view(stops@);
    let mut i: usize = 0;
    assert(all.skip(0) =~= all);
    while i < stops.len()
        invariant
            i <= stops@.len(),
            all == chords_view(stops@),
            stop_clash(all, binds_view(binds@)) == stop_clash(
                all.skip(i as int),
                binds_view(binds@),
            ),
        decreases stops@.len() - i,
    {
        proof {
            assert(all.skip(i as int)[0] == stops@[i as int]@);
            assert(all.skip(i as int).skip(1) =~= all.skip(i + 1));
        }
        if let Some(k) = find_trigger(binds, &stops[i]) {
            let mut why: String = "emergency_stop is also the trigger of ".to_owned();
            why.append(bracket(binds[k].trigger_text.as_str()).as_str());
            why.append(" \u{2014} one key cannot both run a binding and stop the run");
            return Some(why);
        }
        i += 1;
    }
    None
}

/// The first binding that is a bare key which a chord holds.
pub open spec fn bare_within(binds: Seq<BindModel>, chord: Seq<Key>) -> Option<BindModel>
    decreases binds.len(),
{
    if binds.len() == 0 {
        None
    } else if binds[0].trigger.len() == 1 && chord.contains(binds[0].trigger[0]) {
        Some(binds[0])
    } else {
        bare_within(binds.skip(1), chord)
    }
}

/// Why a chord over a key that is a trigger by itself is refused; nothing where none is.
pub open spec fn overlap(all: Seq<BindModel>, rest: Seq<BindModel>) -> Option<Seq<char>>
    decreases rest.len(),
{
    if rest.len() == 0 {
        None
    } else {
        match bare_within(all, rest[0].trigger) {
            Some(plain) => if rest[0].trigger.len() > 1 {
                Some(
                    bracketed(plain.trigger_text) + " and "@ + bracketed(rest[0].trigger_text)
                        + " both grab the same key; a chord and the bare key it contains cannot both be triggers"@,
                )
            } else {
                overlap(all, rest.skip(1))
            },
            None => overlap(all, rest.skip(1)),
        }
    }
}

fn find_bare(binds: &Vec<Bind>, chord: &Vec<Key>) -> (r: Option<usize>)
    ensures
        match r {
            Some(i) => i < binds@.len() && bare_within(binds_view(binds@), chord@) == Some(
                binds@[i as int]@,
            ),
            None => bare_within(binds_view(binds@), chord@) is None,
        },
{
    let ghost all = binds_view(binds@);
    let mut i: usize = 0;
    assert(all.skip(0) =~= all);
    while i < binds.len()
        invariant
            i <= binds@.len(),
            all == binds_view(binds@),
            bare_within(all, chord@) == bare_within(all.skip(i as int), chord@),
        decreases binds@.len() - i,
    {
        assert(all.skip(i as int)[0] == binds@[i as int]@);
        if binds[i].trigger.len() == 1 && has_key(chord, binds[i].trigger[0]) {
            return Some(i);
        }
        i += 1;
        assert(all.skip(i - 1).skip(1) =~= all.skip(i as int));
    }
    None
}

/// The first pair of triggers where one is a bare key that the other decorates.
pub fn overlapping_trigger(binds: &Vec<Bind>) -> (r: Option<String>)
    ensures
        text_of_option(r) == overlap(binds_view(binds@), binds_view(binds@)),
{
    let ghost all = binds_view(binds@);
    let mut i: usize = 0;
    assert(all.skip(0) =~= all);
    while i < binds.len()
        invariant
            i <= binds@.len(),
            all == binds_view(binds@),
            overlap(all, all) == overlap(all, all.skip(i as int)),
        decreases binds@.len() - i,
    {
        proof {
            assert(all.skip(i as int)[0] == binds@[i as int]@);
            assert(all.skip(i as int).skip(1) =~= all.skip(i + 1));
        }
        if binds[i].trigger.len() > 1 {
            if let Some(k) = find_bare(binds, &binds[i].trigger) {
                let mut why: String = bracket(binds[k].trigger_text.as_str());
                why.append(" and ");
                why.append(bracket(binds[i].trigger_text.as_str()).as_str());
                why.append(
                    " both grab the same key; a chord and the bare key it contains cannot both be triggers",
                );
                return Some(why);
            }
        }
        i += 1;
    }
    None
}

/// The first binding whose grab a trigger would be too: the same ordinary key with the same
/// modifier classes.
pub open spec fn grab_twin(binds: Seq<BindModel>, chord: Seq<Key>) -> Option<BindModel>
    decreases binds.len(),
{
    if binds.len() == 0 {
        None
    } else if primary(binds[0].trigger) == primary(chord) && classes(binds[0].trigger) == classes(
        chord,
    ) {
        Some(binds[0])
    } else {
        grab_twin(binds.skip(1), chord)
    }
}

/// Why two triggers that are one grab are refused; nothing where none are.
pub open spec fn grab_clash(binds: Seq<BindModel>, i: int) -> Option<Seq<char>>
    decreases binds.len() - i,
{
    if i < 0 || i >= binds.len() {
        None
    } else {
        match grab_twin(binds.take(i), binds[i].trigger) {
            Some(previous) => Some(
                bracketed(previous.trigger_text) + " and "@ + bracketed(binds[i].trigger_text)
                    + " are the same grab: X cannot tell left from right shift/ctrl/meta, so these triggers are one key combination twice"@,
            ),
            None => grab_clash(binds, i + 1),
        }
    }
}

fn same_primary(a: Option<Key>, b: Option<Key>) -> (r: bool)
    ensures
        r == (a == b),
{
    match (a, b) {
        (Some(x), Some(y)) => x == y,
        (None, None) => true,
        _ => false,
    }
}

fn find_twin(binds: &Vec<Bind>, n: usize, chord: &Vec<Key>) -> (r: Option<usize>)
    requires
        n <= binds@.len(),
    ensures
        match r {
            Some(i) => i < n && grab_twin(binds_view(binds@).take(n as int), chord@) == Some(
                binds@[i as int]@,
            ),
            None => grab_twin(binds_view(binds@).take(n as int), chord@) is None,
        },
{
    let ghost all = binds_view(binds@).take(n as int);
    let key = primary_key(chord);
    let mods = chord_mods(chord);
    let mut i: usize = 0;
    assert(all.skip(0) =~= all);
    while i < n
        invariant
            i <= n <= binds@.len(),
            all == binds_view(binds@).take(n as int),
            key == primary(chord@),
            mods == classes(chord@),
            grab_twin(all, chord@) == grab_twin(all.skip(i as int), chord@),
        decreases n - i,
    {
        assert(all.skip(i as int)[0] == binds@[i as int]@);
        if same_primary(primary_key(&binds[i].trigger), key) && chord_mods(&binds[i].trigger) == mods {
            return Some(i);
        }
        i += 1;
        assert(all.skip(i - 1).skip(1) =~= all.skip(i as int));
    }
    None
}

fn find_grab_clash(binds: &Vec<Bind>) -> (r: Option<String>)
    ensures
        text_of_option(r) == grab_clash(binds_view(binds@), 0),
{
    let ghost all = binds_view(binds@);
    let mut i: usize = 0;
    while i < binds.len()
        invariant
            i <= binds@.len(),
            all == binds_view(binds@),
            grab_clash(all, 0) == grab_clash(all, i as int),
        decreases binds@.len() - i,
    {
        assert(all[i as int] == binds@[i as int]@);
        if let Some(k) = find_twin(binds, i, &binds[i].trigger) {
            let mut why: String = bracket(binds[k].trigger_text.as_str());
            why.append(" and ");
            why.append(bracket(binds[i].trigger_text.as_str()).as_str());
            why.append(
                " are the same grab: X cannot tell left from right shift/ctrl/meta, so these triggers are one key combination twice",
            );
            return Some(why);
        }
        i += 1;
    }
    None
}

// ------------------------------------------------------------------------------- a whole file

/// The settings of a file that may leave them all out.
pub open spec fn settings(file: RawFile) -> (Option<Seq<char>>, Option<Seq<char>>, Option<
    bool,
>, Option<Seq<char>>, Seq<Seq<char>>) {
    match file.defaults {
        Some(defaults) => (
            text_of_option(defaults.tap),
            text_of_option(defaults.gap),
            defaults.suppress,
            text_of_option(defaults.program),
            texts(defaults.emergency_stop@),
        ),
        None => (None, None, None, None, seq![]),
    }
}

/// What a file means, or why it is refused: first its settings, then each trigger in the order of
/// its text, then whatever is wrong between two of them.
pub open spec fn meaning(
    lexicon: &Lexicon,
    readings: &Readings,
    file: RawFile,
) -> Verdict<ProfileModel> {
    let (tap_text, gap_text, suppress, program_text, stop_texts) = settings(file);
    if suppress == Some(false) {
        Verdict::Refused(
            "suppress = false is not supported yet: an X11 grab consumes the key by nature. Remove the setting (true is the default and the only behaviour)."@,
        )
    } else {
        match optional_duration(readings, tap_text, "defaults.tap"@, DEFAULT_TAP) {
            Verdict::Refused(why) => Verdict::Refused(why),
            Verdict::Sound(tap) => match optional_duration(
                readings,
                gap_text,
                "defaults.gap"@,
                DEFAULT_GAP,
            ) {
                Verdict::Refused(why) => Verdict::Refused(why),
                Verdict::Sound(gap) => match program_setting(program_text) {
                    Verdict::Refused(why) => Verdict::Refused(why),
                    Verdict::Sound(program) => match stops_from(lexicon, stop_texts, seq![]) {
                        Verdict::Refused(why) => Verdict::Refused(why),
                        Verdict::Sound(stops) => match bindings_from(
                            lexicon,
                            readings,
                            by_text(all_spellings(file.binds@)),
                            tap,
                            gap,
                            seq![],
                        ) {
                            Verdict::Refused(why) => Verdict::Refused(why),
                            Verdict::Sound(binds) => sound_together(binds, program, stops),
                        },
                    },
                },
            },
        }
    }
}

/// What bindings that are each sound mean together.
pub open spec fn sound_together(
    binds: Seq<BindModel>,
    program: Option<Seq<char>>,
    stops: Seq<Seq<Key>>,
) -> Verdict<ProfileModel> {
    match stop_clash(stops, binds) {
        Some(why) => Verdict::Refused(why),
        None => match overlap(binds, binds) {
            Some(why) => Verdict::Refused(why),
            None => match grab_clash(binds, 0) {
                Some(why) => Verdict::Refused(why),
                None => Verdict::Sound(ProfileModel { binds, program, emergency_stop: stops }),
            },
        },
    }
}

/// Checks a file and gives its profile, or the reason why it is refused. The bindings come in the
/// order of the text of their triggers.
pub fn parse(lexicon: &Lexicon, readings: &Readings, file: &RawFile) -> (r: Result<Profile, String>)
    ensures
        match r {
            Ok(profile) => meaning(lexicon, readings, *file) == Verdict::Sound(profile@)
                && is_sound_profile(profile@),
            Err(why) => meaning(lexicon, readings, *file) == Verdict::<ProfileModel>::Refused(why@),
        },
{
    let none: Option<String> = None;
    let nothing: Vec<String> = Vec::new();
    assert(texts(nothing@) =~= seq![]);
    let (tap_text, gap_text, suppress, program_text, stop_texts) = match &file.defaults {
        Some(defaults) => (
            &defaults.tap,
            &defaults.gap,
            defaults.suppress,
            &defaults.program,
            &defaults.emergency_stop,
        ),
        None => (&none, &none, None, &none, &nothing),
    };
    if let Some(false) = suppress {
        return Err(
            "suppress = false is not supported yet: an X11 grab consumes the key by nature. Remove the setting (true is the default and the only behaviour).".to_owned(),
        );
    }
    let tap = match parse_optional_duration(readings, tap_text, "defaults.tap", DEFAULT_TAP) {
        Ok(tap) => tap,
        Err(why) => {
            return Err(why);
        },
    };
    let gap = match parse_optional_duration(readings, gap_text, "defaults.gap", DEFAULT_GAP) {
        Ok(gap) => gap,
        Err(why) => {
            return Err(why);
        },
    };
    let program = match parse_program(program_text) {
        Ok(program) => program,
        Err(why) => {
            return Err(why);
        },
    };
    let emergency_stop = match parse_emergency(lexicon, stop_texts) {
        Ok(stops) => stops,
        Err(why) => {
            return Err(why);
        },
    };
    let binds = match parse_bindings(lexicon, readings, &file.binds, tap, gap) {
        Ok(binds) => binds,
        Err(why) => {
            return Err(why);
        },
    };
    if let Some(why) = find_stop_clash(&emergency_stop, &binds) {
        return Err(why);
    }
    if let Some(why) = overlapping_trigger(&binds) {
        return Err(why);
    }
    if let Some(why) = find_grab_clash(&binds) {
        return Err(why);
    }
    let profile = Profile { binds, program, emergency_stop };
    proof {
        law_an_accepted_profile_is_sound(lexicon, readings, *file, profile@);
    }
    Ok(profile)
}

// -------------------------------------------------------------------------------- advice

/// The advice for a mirror whose trigger holds modifiers that its target does not name.
pub open spec fn warning(lexicon: &Lexicon, bind: BindModel) -> Option<Seq<char>> {
    match bind.action {
        ActionModel::Sequence(_) => None,
        ActionModel::Mirror(targets) => {
            let held = classes(bind.trigger);
            if wanted(targets).covering(held) {
                None
            } else {
                let name = lexicon.mods_name(held);
                Some(
                    bracketed(bind.trigger_text) + ": the held "@ + name
                        + " would recolour the target, so this tap fires only once "@ + name
                        + " is released; a trigger without modifiers is the straightforward alternative"@,
                )
            }
        },
    }
}

/// The advice for a list of bindings, in their order.
pub open spec fn all_warnings(lexicon: &Lexicon, binds: Seq<BindModel>) -> Seq<Seq<char>>
    decreases binds.len(),
{
    if binds.len() == 0 {
        seq![]
    } else {
        let before = all_warnings(lexicon, binds.drop_last());
        match warning(lexicon, binds.last()) {
            Some(text) => before.push(text),
            None => before,
        }
    }
}

fn warning_for(lexicon: &Lexicon, bind: &Bind) -> (r: Option<String>)
    ensures
        text_of_option(r) == warning(lexicon, bind@),
{
    match &bind.action {
        Action::Sequence(_) => None,
        Action::Mirror(targets) => {
            let held = chord_mods(&bind.trigger);
            if target_mods(targets).covers(held) {
                return None;
            }
            let name = lexicon.mods_name_of(held);
            let mut text: String = bracket(bind.trigger_text.as_str());
            text.append(": the held ");
            text.append(name.as_str());
            text.append(" would recolour the target, so this tap fires only once ");
            text.append(name.as_str());
            text.append(
                " is released; a trigger without modifiers is the straightforward alternative",
            );
            Some(text)
        },
    }
}

/// Advice for a profile that is sound but will surprise: a mirror whose trigger holds modifiers
/// that its target does not name.
pub fn warnings(lexicon: &Lexicon, profile: &Profile) -> (out: Vec<String>)
    ensures
        texts(out@) == all_warnings(lexicon, profile@.binds),
{
    let ghost all = profile@.binds;
    let mut out: Vec<String> = Vec::new();
    let mut i: usize = 0;
    proof {
        assert(all.take(0) =~= seq![]);
        assert(texts(out@) =~= seq![]);
    }
    while i < profile.binds.len()
        invariant
            i <= profile.binds@.len(),
            all == profile@.binds,
            texts(out@) == all_warnings(lexicon, all.take(i as int)),
        decreases profile.binds@.len() - i,
    {
        proof {
            assert(all.take(i + 1).drop_last() =~= all.take(i as int));
            assert(all.take(i + 1).last() == profile.binds@[i as int]@);
        }
        if let Some(text) = warning_for(lexicon, &profile.binds[i]) {
            let ghost before = texts(out@);
            let ghost said = text@;
            out.push(text);
            assert(texts(out@) =~= before.push(said));
        }
        i += 1;
    }
    assert(all.take(all.len() as int) =~= all);
    out
}

} // verus!
