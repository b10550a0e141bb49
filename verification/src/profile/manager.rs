//! The manager of the applied profiles: what comes and goes, who gets an event, when to stop.
use vstd::prelude::*;

use crate::doctor::{stuck_warning, stuck_warning_text, KeyboardAnswer};
use crate::input::{same_keys, EmitAction, EventKind, InputEvent, Key};
use crate::names::{key_names, names_of, Lexicon};
use crate::runtime::Wake;
use crate::style;
use crate::text::{decimal, decimal_of, join, joined, same, texts};

use super::circle::{bindings_of, feeds_round, names_along, trigger_cycle, Named};
use super::claims::has_signature;
use super::model::{chords_view, Profile, ProfileModel};
use super::run::{
    drain_held, is_stop, later, releases, saturating_later, stop_chords, stop_signatures, Outcome,
    Seams,
};
use super::select::at_or_before;
use super::slots::{slots_view, text_of_option, Slot, SlotModel};

verus! {

// ------------------------------------------------------------------------------- the set on disk

/// A link of the active set: its name and its time stamp.
#[derive(Debug)]
pub struct Entry {
    pub name: String,
    pub stamp: Option<u64>,
}

impl View for Entry {
    type V = (Seq<char>, Option<u64>);

    open spec fn view(&self) -> (Seq<char>, Option<u64>) {
        (self.name@, self.stamp)
    }
}

/// The mathematical values of a list of links.
pub open spec fn entries_view(entries: Seq<Entry>) -> Seq<(Seq<char>, Option<u64>)> {
    entries.map_values(|entry: Entry| entry@)
}

/// The time stamp of the first link with a name.
pub open spec fn stamp_in(entries: Seq<(Seq<char>, Option<u64>)>, name: Seq<char>) -> Option<
    Option<u64>,
>
    decreases entries.len(),
{
    if entries.len() == 0 {
        None
    } else if entries[0].0 == name {
        Some(entries[0].1)
    } else {
        stamp_in(entries.skip(1), name)
    }
}

fn find_stamp(entries: &Vec<Entry>, name: &str) -> (r: Option<Option<u64>>)
    ensures
        r == stamp_in(entries_view(entries@), name@),
{
    let ghost all = entries_view(entries@);
    let mut i: usize = 0;
    assert(all.skip(0) =~= all);
    while i < entries.len()
        invariant
            i <= entries@.len(),
            all == entries_view(entries@),
            stamp_in(all, name@) == stamp_in(all.skip(i as int), name@),
        decreases entries@.len() - i,
    {
        assert(all.skip(i as int)[0] == entries@[i as int]@);
        if same(entries[i].name.as_str(), name) {
            return Some(entries[i].stamp);
        }
        i += 1;
        assert(all.skip(i - 1).skip(1) =~= all.skip(i as int));
    }
    None
}

/// Why a slot leaves.
#[derive(Debug, Clone, Copy, PartialEq, Eq, Structural)]
pub enum Leaving {
    /// Its link is gone.
    Gone,
    /// Its link was replaced, so the profile is loaded anew.
    Replaced,
}

/// Whether a slot leaves, and why: its link is gone, or carries another stamp than when the
/// profile was loaded.
pub open spec fn leaves(
    slot: SlotModel,
    set: Seq<(Seq<char>, Option<u64>)>,
) -> Option<Leaving> {
    match stamp_in(set, slot.name) {
        None => Some(Leaving::Gone),
        Some(stamp) => if stamp == slot.stamp {
            None
        } else {
            Some(Leaving::Replaced)
        },
    }
}

/// A slot that leaves: what to do about it.
#[derive(Debug)]
pub struct Departure {
    pub name: String,
    pub why: Leaving,
    /// Whether its grabs have to be stopped.
    pub stop: bool,
    /// The releases that it owes, last pressed first.
    pub releases: Vec<EmitAction>,
}

/// A slot that leaves as a mathematical value.
#[verifier::ext_equal]
pub struct DepartureModel {
    pub name: Seq<char>,
    pub why: Leaving,
    pub stop: bool,
    pub releases: Seq<EmitAction>,
}

impl View for Departure {
    type V = DepartureModel;

    open spec fn view(&self) -> DepartureModel {
        DepartureModel {
            name: self.name@,
            why: self.why,
            stop: self.stop,
            releases: self.releases@,
        }
    }
}

/// The mathematical values of a list of departures.
pub open spec fn departures_view(list: Seq<Departure>) -> Seq<DepartureModel> {
    list.map_values(|departure: Departure| departure@)
}

/// The slots that stay.
pub open spec fn staying(
    slots: Seq<SlotModel>,
    set: Seq<(Seq<char>, Option<u64>)>,
) -> Seq<SlotModel>
    decreases slots.len(),
{
    if slots.len() == 0 {
        seq![]
    } else if leaves(slots.last(), set) is None {
        staying(slots.drop_last(), set).push(slots.last())
    } else {
        staying(slots.drop_last(), set)
    }
}

/// The slots that leave, each with the releases of everything that it held.
pub open spec fn departing(
    slots: Seq<SlotModel>,
    set: Seq<(Seq<char>, Option<u64>)>,
) -> Seq<DepartureModel>
    decreases slots.len(),
{
    if slots.len() == 0 {
        seq![]
    } else {
        let before = departing(slots.drop_last(), set);
        match leaves(slots.last(), set) {
            None => before,
            Some(why) => before.push(
                DepartureModel {
                    name: slots.last().name,
                    why,
                    stop: slots.last().live,
                    releases: releases(slots.last().held.reverse()),
                },
            ),
        }
    }
}

/// Parts the slots whose links are gone or replaced from those that stay.
pub fn part_slots(slots: Vec<Slot>, set: &Vec<Entry>) -> (r: (Vec<Slot>, Vec<Departure>))
    ensures
        slots_view(r.0@) == staying(slots_view(slots@), entries_view(set@)),
        departures_view(r.1@) == departing(slots_view(slots@), entries_view(set@)),
{
    let ghost all = slots_view(slots@);
    let ghost links = entries_view(set@);
    let mut stay: Vec<Slot> = Vec::new();
    let mut leave: Vec<Departure> = Vec::new();
    let mut rest = slots;
    proof {
        assert(all.take(rest@.len() as int) =~= all);
        assert(slots@.take(rest@.len() as int) =~= slots@);
        assert(staying(all, links) + slots_view(stay@).reverse() =~= staying(all, links));
        assert(departing(all, links) + departures_view(leave@).reverse() =~= departing(all, links));
    }
    // Taken from the back, so both lists come out in reverse and are turned round at the end.
    while rest.len() > 0
        invariant
            all == slots_view(slots@),
            links == entries_view(set@),
            rest@ == slots@.take(rest@.len() as int),
            rest@.len() <= slots@.len(),
            staying(all, links) == staying(all.take(rest@.len() as int), links) + slots_view(
                stay@,
            ).reverse(),
            departing(all, links) == departing(all.take(rest@.len() as int), links)
                + departures_view(leave@).reverse(),
        decreases rest@.len(),
    {
        let ghost n = rest@.len();
        let ghost part = all.take(n as int);
        let ghost old_stay = slots_view(stay@);
        let ghost old_leave = departures_view(leave@);
        proof {
            assert(part.drop_last() =~= all.take(n - 1));
            assert(part.last() == rest@[n - 1]@);
        }
        if let Some(mut slot) = rest.pop() {
            let ghost model = slot@;
            assert(rest@ =~= slots@.take(n - 1));
            match find_stamp(set, slot.name.as_str()) {
                Some(stamp) if same_stamp(stamp, slot.stamp) => {
                    stay.push(slot);
                    proof {
                        assert(slots_view(stay@) =~= old_stay.push(model));
                        assert(old_stay.push(model).reverse() =~= seq![model]
                            + old_stay.reverse());
                        assert(staying(part, links) + old_stay.reverse() =~= staying(
                            all.take(n - 1),
                            links,
                        ) + slots_view(stay@).reverse());
                    }
                },
                found => {
                    let why = if found.is_none() {
                        Leaving::Gone
                    } else {
                        Leaving::Replaced
                    };
                    let releases = drain_held(&mut slot.held);
                    let departure = Departure { name: slot.name, why, stop: slot.live, releases };
                    let ghost gone = departure@;
                    leave.push(departure);
                    proof {
                        assert(departures_view(leave@) =~= old_leave.push(gone));
                        assert(old_leave.push(gone).reverse() =~= seq![gone]
                            + old_leave.reverse());
                        assert(departing(part, links) + old_leave.reverse() =~= departing(
                            all.take(n - 1),
                            links,
                        ) + departures_view(leave@).reverse());
                    }
                },
            }
        }
    }
    let mut stay_in_order: Vec<Slot> = Vec::new();
    let ghost stayed = slots_view(stay@);
    while stay.len() > 0
        invariant
            stay@.len() <= stayed.len(),
            slots_view(stay@) == stayed.take(stay@.len() as int),
            slots_view(stay_in_order@) == stayed.reverse().take(stayed.len() - stay@.len()),
        decreases stay@.len(),
    {
        let ghost n = stay@.len();
        let ghost before = slots_view(stay_in_order@);
        let ghost model = stay@[n - 1]@;
        proof {
            assert(slots_view(stay@)[n - 1] == model);
            assert(stayed[n - 1] == model);
        }
        if let Some(slot) = stay.pop() {
            stay_in_order.push(slot);
            assert(slots_view(stay_in_order@) =~= before.push(model));
            assert(slots_view(stay@) =~= stayed.take(n - 1));
            assert(slots_view(stay_in_order@) =~= stayed.reverse().take(stayed.len() - n + 1));
        }
    }
    let mut leave_in_order: Vec<Departure> = Vec::new();
    let ghost left = departures_view(leave@);
    while leave.len() > 0
        invariant
            leave@.len() <= left.len(),
            departures_view(leave@) == left.take(leave@.len() as int),
            departures_view(leave_in_order@) == left.reverse().take(left.len() - leave@.len()),
        decreases leave@.len(),
    {
        let ghost n = leave@.len();
        let ghost before = departures_view(leave_in_order@);
        let ghost model = leave@[n - 1]@;
        proof {
            assert(departures_view(leave@)[n - 1] == model);
            assert(left[n - 1] == model);
        }
        if let Some(departure) = leave.pop() {
            leave_in_order.push(departure);
            assert(departures_view(leave_in_order@) =~= before.push(model));
            assert(departures_view(leave@) =~= left.take(n - 1));
            assert(departures_view(leave_in_order@) =~= left.reverse().take(left.len() - n + 1));
        }
    }
    proof {
        assert(all.take(0) =~= seq![]);
        assert(stayed.reverse().take(stayed.len() as int) =~= stayed.reverse());
        assert(left.reverse().take(left.len() as int) =~= left.reverse());
        assert(staying(all, links) =~= stayed.reverse());
        assert(departing(all, links) =~= left.reverse());
    }
    (stay_in_order, leave_in_order)
}

fn same_stamp(a: Option<u64>, b: Option<u64>) -> (r: bool)
    ensures
        r == (a == b),
{
    match (a, b) {
        (Some(x), Some(y)) => x == y,
        (None, None) => true,
        _ => false,
    }
}

/// The line for a slot that left: only one that is gone for good has one.
pub fn departure_line(departure: &Departure) -> (r: Option<String>)
    ensures
        match r {
            Some(line) => departure@.why is Gone && line@ == "profile removed: "@ + departure@.name,
            None => departure@.why is Replaced,
        },
{
    match departure.why {
        Leaving::Gone => {
            let mut line: String = "profile removed: ".to_owned();
            line.append(departure.name.as_str());
            Some(line)
        },
        Leaving::Replaced => None,
    }
}

/// Whether a name is that of a slot that left because its link was replaced.
pub open spec fn is_update(leaving: Seq<DepartureModel>, name: Seq<char>) -> bool {
    exists|i: int|
        0 <= i < leaving.len() && (#[trigger] leaving[i]).name == name && leaving[i].why is Replaced
}

/// Whether a link that is loaded replaces one that was applied.
pub fn was_replaced(leaving: &Vec<Departure>, name: &str) -> (r: bool)
    ensures
        r == is_update(departures_view(leaving@), name@),
{
    let ghost all = departures_view(leaving@);
    let mut i: usize = 0;
    while i < leaving.len()
        invariant
            i <= leaving@.len(),
            all == departures_view(leaving@),
            forall|k: int|
                0 <= k < i ==> !((#[trigger] all[k]).name == name@ && all[k].why is Replaced),
        decreases leaving@.len() - i,
    {
        assert(all[i as int] == leaving@[i as int]@);
        if same(leaving[i].name.as_str(), name) && leaving[i].why == Leaving::Replaced {
            return true;
        }
        i += 1;
    }
    false
}

/// The refused links that are still there as they were.
pub open spec fn still_refused(
    refused: Seq<(Seq<char>, Option<u64>)>,
    set: Seq<(Seq<char>, Option<u64>)>,
) -> Seq<(Seq<char>, Option<u64>)>
    decreases refused.len(),
{
    if refused.len() == 0 {
        seq![]
    } else if stamp_in(set, refused.last().0) == Some(refused.last().1) {
        still_refused(refused.drop_last(), set).push(refused.last())
    } else {
        still_refused(refused.drop_last(), set)
    }
}

/// Keeps the refusals whose links are still there as they were: a replaced link earns a retry.
pub fn retain_refused(refused: &Vec<Entry>, set: &Vec<Entry>) -> (out: Vec<Entry>)
    ensures
        entries_view(out@) == still_refused(entries_view(refused@), entries_view(set@)),
{
    let ghost all = entries_view(refused@);
    let ghost links = entries_view(set@);
    let mut out: Vec<Entry> = Vec::new();
    let mut i: usize = 0;
    assert(all.take(0) =~= seq![]);
    assert(entries_view(out@) =~= seq![]);
    while i < refused.len()
        invariant
            i <= refused@.len(),
            all == entries_view(refused@),
            links == entries_view(set@),
            entries_view(out@) == still_refused(all.take(i as int), links),
        decreases refused@.len() - i,
    {
        proof {
            assert(all.take(i + 1).drop_last() =~= all.take(i as int));
            assert(all.take(i + 1).last() == refused@[i as int]@);
        }
        if let Some(stamp) = find_stamp(set, refused[i].name.as_str()) {
            if same_stamp(stamp, refused[i].stamp) {
                let ghost before = entries_view(out@);
                let entry = Entry { name: refused[i].name.clone(), stamp: refused[i].stamp };
                let ghost model = entry@;
                out.push(entry);
                assert(entries_view(out@) =~= before.push(model));
            }
        }
        i += 1;
    }
    assert(all.take(all.len() as int) =~= all);
    out
}

/// Whether a name is among the slots.
pub open spec fn is_applied(slots: Seq<SlotModel>, name: Seq<char>) -> bool {
    exists|i: int| 0 <= i < slots.len() && (#[trigger] slots[i]).name == name
}

/// Where a name is among the slots.
pub fn slot_named(slots: &Vec<Slot>, name: &str) -> (r: Option<usize>)
    ensures
        match r {
            Some(i) => i < slots@.len() && slots@[i as int].name@ == name@,
            None => !is_applied(slots_view(slots@), name@),
        },
{
    let mut i: usize = 0;
    while i < slots.len()
        invariant
            i <= slots@.len(),
            forall|k: int| 0 <= k < i ==> (#[trigger] slots_view(slots@)[k]).name != name@,
        decreases slots@.len() - i,
    {
        assert(slots_view(slots@)[i as int] == slots@[i as int]@);
        if same(slots[i].name.as_str(), name) {
            return Some(i);
        }
        i += 1;
    }
    None
}

/// Whether a link has to be loaded: it is neither applied nor refused.
pub fn needs_loading(slots: &Vec<Slot>, refused: &Vec<Entry>, name: &str) -> (r: bool)
    ensures
        r == (!is_applied(slots_view(slots@), name@) && stamp_in(entries_view(refused@), name@) is None),
{
    match slot_named(slots, name) {
        Some(i) => {
            assert(slots_view(slots@)[i as int].name == name@);
            false
        },
        None => find_stamp(refused, name).is_none(),
    }
}

// ------------------------------------------------------------------------------ what is said

/// A chord the way a user would write it.
pub open spec fn chord_words(lexicon: &Lexicon, chord: Seq<Key>) -> Seq<char> {
    joined(key_names(lexicon, chord), " "@)
}

/// A chord the way a user would write it: the names of its keys, with blanks between them.
pub fn chord_text(lexicon: &Lexicon, chord: &Vec<Key>) -> (out: String)
    ensures
        out@ == chord_words(lexicon, chord@),
{
    let names = names_of(lexicon, chord);
    join(&names, " ")
}

/// The emergency chords of a profile, each highlighted.
pub open spec fn stop_words(
    lexicon: &Lexicon,
    chords: Seq<Seq<Key>>,
    colour: bool,
) -> Seq<Seq<char>> {
    chords.map_values(
        |chord: Seq<Key>| style::painted(style::STOPPER@, chord_words(lexicon, chord), colour),
    )
}

/// How to make a profile stop; nothing where it names no chord for that.
pub open spec fn stop_hint_text(lexicon: &Lexicon, chords: Seq<Seq<Key>>, colour: bool) -> Option<
    Seq<char>,
> {
    if chords.len() == 0 {
        None
    } else {
        Some(
            "to "@ + style::painted(style::STOPPER@, "stop"@, colour) + " this script, press: "@
                + joined(stop_words(lexicon, chords, colour), " or "@),
        )
    }
}

/// The one line worth knowing after a profile lands: how to make it stop.
pub fn stop_hint(lexicon: &Lexicon, profile: &Profile, colour: bool) -> (r: Option<String>)
    ensures
        text_of_option(r) == stop_hint_text(lexicon, profile@.emergency_stop, colour),
{
    if profile.emergency_stop.len() == 0 {
        return None;
    }
    let ghost meant = stop_words(lexicon, profile@.emergency_stop, colour);
    let mut words: Vec<String> = Vec::new();
    let mut i: usize = 0;
    assert(texts(words@) =~= meant.take(0));
    while i < profile.emergency_stop.len()
        invariant
            i <= profile.emergency_stop@.len(),
            meant == stop_words(lexicon, profile@.emergency_stop, colour),
            texts(words@) == meant.take(i as int),
        decreases profile.emergency_stop@.len() - i,
    {
        let ghost before = texts(words@);
        let word = style::stopper(
            chord_text(lexicon, &profile.emergency_stop[i]).as_str(),
            colour,
        );
        let ghost said = word@;
        words.push(word);
        i += 1;
        assert(texts(words@) =~= before.push(said));
        assert(meant.take(i as int) =~= before.push(meant[i - 1]));
    }
    assert(meant.take(meant.len() as int) =~= meant);
    let mut line: String = "to ".to_owned();
    line.append(style::stopper("stop", colour).as_str());
    line.append(" this script, press: ");
    line.append(join(&words, " or ").as_str());
    Some(line)
}

/// What linking a profile did.
#[derive(Debug, Clone, Copy, PartialEq, Eq, Structural)]
pub enum Applied {
    /// The link was created.
    Linked,
    /// The same file was in the set already, and its link was replaced.
    Reapplied,
}

/// The lines for a profile that was applied: where it is linked and how many bindings it has, with
/// the hint how to stop it where somebody else will not say so. One that was applied before says
/// that in place of the count.
pub open spec fn announcement(
    applied: Applied,
    link: Seq<char>,
    binds: nat,
    hint: Option<Seq<char>>,
) -> Seq<Seq<char>> {
    let first = match applied {
        Applied::Linked => "applied: "@ + link + " ("@ + decimal(binds) + " binds)"@,
        Applied::Reapplied => "already applied: "@ + link,
    };
    match hint {
        Some(hint) => seq![first, hint],
        None => seq![first],
    }
}

/// The lines for a profile that was applied. The hint is given where another window would
/// otherwise be the only one to show it.
pub fn announce(
    applied: Applied,
    link: &str,
    profile: &Profile,
    with_hint: bool,
    lexicon: &Lexicon,
    colour: bool,
) -> (lines: Vec<String>)
    ensures
        texts(lines@) == announcement(
            applied,
            link@,
            profile@.binds.len(),
            if with_hint {
                stop_hint_text(lexicon, profile@.emergency_stop, colour)
            } else {
                None
            },
        ),
{
    let mut lines: Vec<String> = Vec::new();
    let line = match applied {
        Applied::Linked => {
            let mut line: String = "applied: ".to_owned();
            line.append(link);
            line.append(" (");
            line.append(decimal_of(profile.binds.len() as u64).as_str());
            line.append(" binds)");
            line
        },
        Applied::Reapplied => {
            let mut line: String = "already applied: ".to_owned();
            line.append(link);
            line
        },
    };
    let ghost first = line@;
    lines.push(line);
    assert(texts(lines@) =~= seq![first]);
    if with_hint {
        if let Some(hint) = stop_hint(lexicon, profile, colour) {
            let ghost second = hint@;
            lines.push(hint);
            assert(texts(lines@) =~= seq![first, second]);
        }
    }
    lines
}

/// The line for a profile that a running manager takes over.
pub fn attached_line(pid: u32, colour: bool) -> (line: String)
    ensures
        line@ == style::painted(style::HIGHLIGHT@, "adding"@, colour) + " to an "@
            + style::painted(style::HIGHLIGHT@, "existing"@, colour) + " manager (PID "@
            + decimal(pid as nat) + ")"@,
{
    let mut line: String = style::key("adding", colour);
    line.append(" to an ");
    line.append(style::key("existing", colour).as_str());
    line.append(" manager (PID ");
    line.append(decimal_of(pid as u64).as_str());
    line.append(")");
    line
}

/// The line for a profile that a running manager loads anew.
pub fn reattached_line(pid: u32, colour: bool) -> (line: String)
    ensures
        line@ == style::painted(style::HIGHLIGHT@, "updating (re-applying)"@, colour)
            + " onto an "@ + style::painted(style::HIGHLIGHT@, "existing"@, colour)
            + " manager (PID "@ + decimal(pid as nat) + ")"@,
{
    let mut line: String = style::key("updating (re-applying)", colour);
    line.append(" onto an ");
    line.append(style::key("existing", colour).as_str());
    line.append(" manager (PID ");
    line.append(decimal_of(pid as u64).as_str());
    line.append(")");
    line
}

// ------------------------------------------------------------------------- taking a profile in

/// Where a name belongs among slots in the order of their names.
pub open spec fn place_for(slots: Seq<SlotModel>, name: Seq<char>) -> int
    decreases slots.len(),
{
    if slots.len() == 0 || at_or_before(slots.last().name, name) {
        slots.len() as int
    } else {
        place_for(slots.drop_last(), name)
    }
}

/// A slot that has just been loaded.
pub open spec fn fresh_slot(
    name: Seq<char>,
    profile: ProfileModel,
    stamp: Option<u64>,
) -> SlotModel {
    SlotModel {
        name,
        profile,
        held: seq![],
        live: false,
        grabbed: seq![],
        yielded: seq![],
        stamp,
        want: false,
        blocked: false,
    }
}

/// The bindings of slots and of one profile more, with their names.
pub open spec fn bindings_with(
    slots: Seq<SlotModel>,
    name: Seq<char>,
    profile: ProfileModel,
) -> Seq<(Seq<char>, super::model::BindModel)> {
    slot_bindings(slots) + profile.binds.map_values(|bind: super::model::BindModel| (name, bind))
}

/// The bindings of slots, with their names.
pub open spec fn slot_bindings(slots: Seq<SlotModel>) -> Seq<(Seq<char>, super::model::BindModel)>
    decreases slots.len(),
{
    if slots.len() == 0 {
        seq![]
    } else {
        let last = slots.last();
        slot_bindings(slots.drop_last()) + last.profile.binds.map_values(
            |bind: super::model::BindModel| (last.name, bind),
        )
    }
}

/// What loading a link came to.
#[derive(Debug)]
pub enum Admission {
    /// It is applied; these lines are said.
    Applied(Vec<String>),
    /// It is refused; this line is said.
    Refused(String),
}

/// A circle through the applied profiles and one more, by the names of its bindings.
pub fn circle_with(slots: &Vec<Slot>, name: &str, profile: &Profile) -> (r: Option<Vec<String>>)
    ensures
        match r {
            Some(names) => exists|path: Seq<int>|
                #[trigger] feeds_round(
                    bindings_with(slots_view(slots@), name@, profile@),
                    path,
                ) && texts(names@) == names_along(
                    bindings_with(slots_view(slots@), name@, profile@),
                    path,
                ),
            None => forall|path: Seq<int>|
                !feeds_round(bindings_with(slots_view(slots@), name@, profile@), path),
        },
{
    let ghost all = slots_view(slots@);
    let mut named: Vec<Named<'_>> = Vec::new();
    let mut i: usize = 0;
    assert(named@ =~= seq![]);
    assert(all.take(0) =~= seq![]);
    while i < slots.len()
        invariant
            i <= slots@.len(),
            all == slots_view(slots@),
            bindings_of(named@) == slot_bindings(all.take(i as int)),
        decreases slots@.len() - i,
    {
        let ghost before = named@;
        named.push(Named { name: slots[i].name.as_str(), profile: &slots[i].profile });
        proof {
            assert(named@.drop_last() =~= before);
            assert(all.take(i + 1).drop_last() =~= all.take(i as int));
            assert(all.take(i + 1).last() == slots@[i as int]@);
        }
        i += 1;
    }
    let ghost before = named@;
    named.push(Named { name, profile });
    proof {
        assert(all.take(all.len() as int) =~= all);
        assert(named@.drop_last() =~= before);
        assert(bindings_of(named@) == bindings_with(all, name@, profile@));
    }
    trigger_cycle(&named)
}

/// The line for a profile that is refused.
pub open spec fn refusal_line(name: Seq<char>, why: Seq<char>) -> Seq<char> {
    "profile refused: "@ + name + ": "@ + why
}

/// Why bindings that go round in a circle are refused.
pub open spec fn circle_reason(names: Seq<Seq<char>>) -> Seq<char> {
    "these binds would trigger each other in a circle: "@ + joined(names, " -> "@)
}

/// Why bindings that go round in a circle are refused.
pub fn circle_text(names: &Vec<String>) -> (out: String)
    ensures
        out@ == circle_reason(texts(names@)),
{
    let mut out: String = "these binds would trigger each other in a circle: ".to_owned();
    out.append(join(names, " -> ").as_str());
    out
}

/// The lines for a profile that is taken in.
pub open spec fn admission_lines(
    name: Seq<char>,
    updated: bool,
    profile: ProfileModel,
    lexicon: &Lexicon,
    colour: bool,
) -> Seq<Seq<char>> {
    let first = (if updated {
        "profile updated"@
    } else {
        "profile applied"@
    }) + ": "@ + name + " ("@ + decimal(profile.binds.len()) + " binds)"@;
    match stop_hint_text(lexicon, profile.emergency_stop, colour) {
        Some(hint) => seq![first, hint],
        None => seq![first],
    }
}

/// Where a pass over the links stands: the slots, and the refused links.
pub type PassState = (Seq<SlotModel>, Seq<(Seq<char>, Option<u64>)>);

/// Whether a link was taken in: as a slot in its place, or as a refusal.
pub open spec fn takes_in(before: PassState, name: Seq<char>, after: PassState) -> bool {
    ||| after.1 == before.1 && exists|profile: ProfileModel, stamp: Option<u64>|
        after.0 == before.0.insert(
            place_for(before.0, name),
            #[trigger] fresh_slot(name, profile, stamp),
        )
    ||| after.0 == before.0 && exists|stamp: Option<u64>|
        after.1 == before.1.push(#[trigger] linked_at(name, stamp))
}

/// A link with its time stamp.
pub open spec fn linked_at(name: Seq<char>, stamp: Option<u64>) -> (Seq<char>, Option<u64>) {
    (name, stamp)
}

/// Takes a link that was just loaded into the set: a profile that would close a circle with those
/// that are applied is refused like one that does not parse. What is refused is remembered with its
/// stamp.
pub fn take_in(
    slots: &mut Vec<Slot>,
    refused: &mut Vec<Entry>,
    name: &str,
    stamp: Option<u64>,
    loaded: Result<Profile, String>,
    updated: bool,
    lexicon: &Lexicon,
    colour: bool,
) -> (r: Admission)
    ensures
        takes_in(
            (slots_view(old(slots)@), entries_view(old(refused)@)),
            name@,
            (slots_view(final(slots)@), entries_view(final(refused)@)),
        ),
        match (loaded, r) {
            (Ok(profile), Admission::Applied(lines)) => {
                &&& forall|path: Seq<int>|
                    !feeds_round(bindings_with(slots_view(old(slots)@), name@, profile@), path)
                &&& texts(lines@) == admission_lines(name@, updated, profile@, lexicon, colour)
                &&& final(refused)@ == old(refused)@
                &&& slots_view(final(slots)@) == slots_view(old(slots)@).insert(
                    place_for(slots_view(old(slots)@), name@),
                    fresh_slot(name@, profile@, stamp),
                )
            },
            (Ok(profile), Admission::Refused(line)) => {
                &&& exists|path: Seq<int>|
                    #[trigger] feeds_round(
                        bindings_with(slots_view(old(slots)@), name@, profile@),
                        path,
                    ) && line@ == refusal_line(
                        name@,
                        circle_reason(
                            names_along(
                                bindings_with(slots_view(old(slots)@), name@, profile@),
                                path,
                            ),
                        ),
                    )
                &&& final(slots)@ == old(slots)@
                &&& entries_view(final(refused)@) == entries_view(old(refused)@).push((name@, stamp))
            },
            (Err(why), Admission::Refused(line)) => {
                &&& line@ == refusal_line(name@, why@)
                &&& final(slots)@ == old(slots)@
                &&& entries_view(final(refused)@) == entries_view(old(refused)@).push((name@, stamp))
            },
            (Err(_), Admission::Applied(_)) => false,
        },
{
    let ghost all = slots_view(slots@);
    let ghost links = entries_view(refused@);
    let why = match loaded {
        Err(why) => why,
        Ok(profile) => {
            match circle_with(slots, name, &profile) {
                Some(circle) => {
                    let mut line: String = "profile refused: ".to_owned();
                    line.append(name);
                    line.append(": ");
                    line.append(circle_text(&circle).as_str());
                    let entry = Entry { name: name.to_owned(), stamp };
                    let ghost model = entry@;
                    refused.push(entry);
                    assert(entries_view(refused@) =~= links.push(model));
                    assert(model == linked_at(name@, stamp));
                    return Admission::Refused(line);
                },
                None => {
                    let lines = admission_text(name, updated, &profile, lexicon, colour);
                    let at = place_of(slots, name);
                    let slot = Slot {
                        name: name.to_owned(),
                        profile,
                        held: Vec::new(),
                        live: false,
                        grabbed: Vec::new(),
                        yielded: Vec::new(),
                        stamp,
                        want: false,
                        blocked: false,
                    };
                    let ghost model = slot@;
                    proof {
                        assert(model =~= fresh_slot(name@, profile@, stamp));
                    }
                    slots.insert(at, slot);
                    assert(slots_view(slots@) =~= all.insert(at as int, model));
                    return Admission::Applied(lines);
                },
            }
        },
    };
    let mut line: String = "profile refused: ".to_owned();
    line.append(name);
    line.append(": ");
    line.append(why.as_str());
    let entry = Entry { name: name.to_owned(), stamp };
    let ghost model = entry@;
    refused.push(entry);
    assert(entries_view(refused@) =~= links.push(model));
    assert(model == linked_at(name@, stamp));
    Admission::Refused(line)
}

fn admission_text(
    name: &str,
    updated: bool,
    profile: &Profile,
    lexicon: &Lexicon,
    colour: bool,
) -> (lines: Vec<String>)
    ensures
        texts(lines@) == admission_lines(name@, updated, profile@, lexicon, colour),
{
    let mut line: String = if updated {
        "profile updated".to_owned()
    } else {
        "profile applied".to_owned()
    };
    line.append(": ");
    line.append(name);
    line.append(" (");
    line.append(decimal_of(profile.binds.len() as u64).as_str());
    line.append(" binds)");
    let ghost first = line@;
    let mut lines: Vec<String> = Vec::new();
    lines.push(line);
    assert(texts(lines@) =~= seq![first]);
    if let Some(hint) = stop_hint(lexicon, profile, colour) {
        let ghost second = hint@;
        lines.push(hint);
        assert(texts(lines@) =~= seq![first, second]);
    }
    lines
}

fn place_of(slots: &Vec<Slot>, name: &str) -> (at: usize)
    ensures
        at == place_for(slots_view(slots@), name@),
        at <= slots@.len(),
{
    let ghost all = slots_view(slots@);
    let mut at: usize = slots.len();
    assert(all.take(at as int) =~= all);
    while at > 0 && !super::select::comes_first(slots[at - 1].name.as_str(), name)
        invariant
            at <= slots@.len(),
            all == slots_view(slots@),
            place_for(all, name@) == place_for(all.take(at as int), name@),
        decreases at,
    {
        proof {
            assert(all.take(at as int).last() == slots@[at - 1]@);
            assert(all.take(at as int).drop_last() =~= all.take(at - 1));
        }
        at -= 1;
    }
    proof {
        if at > 0 {
            assert(all.take(at as int).last() == slots@[at - 1]@);
        }
    }
    at
}

/// Whether a name is among the refused links.
pub open spec fn is_refused(refused: Seq<(Seq<char>, Option<u64>)>, name: Seq<char>) -> bool {
    stamp_in(refused, name) is Some
}

/// Whether one link of a pass was dealt with: it is taken in where it is neither applied nor
/// refused, else left alone.
pub open spec fn passes_link(before: PassState, name: Seq<char>, after: PassState) -> bool {
    if is_applied(before.0, name) || is_refused(before.1, name) {
        after == before
    } else {
        takes_in(before, name, after)
    }
}

/// Whether states follow each other in a pass over the links of a set: the slots whose links are
/// gone or replaced leave and refusals of such links lapse, then each link is dealt with in turn.
pub open spec fn is_pass(
    before: PassState,
    set: Seq<(Seq<char>, Option<u64>)>,
    states: Seq<PassState>,
) -> bool {
    &&& states.len() == set.len() + 1
    &&& states[0] == (staying(before.0, set), still_refused(before.1, set))
    &&& forall|i: int|
        0 <= i < set.len() ==> passes_link(#[trigger] states[i], set[i].0, states[i + 1])
}

/// Whether no link is both applied and refused.
pub open spec fn are_apart(state: PassState) -> bool {
    forall|name: Seq<char>|
        !(#[trigger] is_applied(state.0, name) && is_refused(state.1, name))
}

proof fn lemma_stamp_in(list: Seq<(Seq<char>, Option<u64>)>, name: Seq<char>)
    ensures
        stamp_in(list, name) is Some <==> exists|i: int|
            0 <= i < list.len() && (#[trigger] list[i]).0 == name,
    decreases list.len(),
{
    if list.len() > 0 && list[0].0 != name {
        let rest = list.skip(1);
        lemma_stamp_in(rest, name);
        if stamp_in(rest, name) is Some {
            let i = choose|i: int| 0 <= i < rest.len() && (#[trigger] rest[i]).0 == name;
            assert(list[i + 1].0 == name);
        }
        if exists|i: int| 0 <= i < list.len() && (#[trigger] list[i]).0 == name {
            let i = choose|i: int| 0 <= i < list.len() && (#[trigger] list[i]).0 == name;
            assert(rest[i - 1].0 == name);
        }
    } else if list.len() > 0 {
        assert(list[0].0 == name);
    }
}

proof fn lemma_staying(slots: Seq<SlotModel>, set: Seq<(Seq<char>, Option<u64>)>, name: Seq<char>)
    ensures
        is_applied(staying(slots, set), name) ==> is_applied(slots, name) && is_refused(set, name),
    decreases slots.len(),
{
    if slots.len() > 0 && is_applied(staying(slots, set), name) {
        let rest = slots.drop_last();
        let kept = staying(rest, set);
        lemma_staying(rest, set, name);
        let all = staying(slots, set);
        let i = choose|i: int| 0 <= i < all.len() && (#[trigger] all[i]).name == name;
        if i < kept.len() {
            assert(kept[i].name == name);
            let k = choose|k: int| 0 <= k < rest.len() && (#[trigger] rest[k]).name == name;
            assert(slots[k].name == name);
        } else {
            assert(slots[slots.len() - 1].name == name);
        }
    }
}

proof fn lemma_still_refused(
    refused: Seq<(Seq<char>, Option<u64>)>,
    set: Seq<(Seq<char>, Option<u64>)>,
    name: Seq<char>,
)
    ensures
        is_refused(still_refused(refused, set), name) ==> is_refused(refused, name) && is_refused(
            set,
            name,
        ),
    decreases refused.len(),
{
    let all = still_refused(refused, set);
    lemma_stamp_in(all, name);
    lemma_stamp_in(refused, name);
    if refused.len() > 0 && is_refused(all, name) {
        let rest = refused.drop_last();
        let kept = still_refused(rest, set);
        lemma_still_refused(rest, set, name);
        lemma_stamp_in(kept, name);
        lemma_stamp_in(rest, name);
        let i = choose|i: int| 0 <= i < all.len() && (#[trigger] all[i]).0 == name;
        if i < kept.len() {
            assert(kept[i].0 == name);
            let k = choose|k: int| 0 <= k < rest.len() && (#[trigger] rest[k]).0 == name;
            assert(refused[k].0 == name);
        } else {
            assert(refused[refused.len() - 1].0 == name);
        }
    }
}

proof fn lemma_place_for(slots: Seq<SlotModel>, name: Seq<char>)
    ensures
        0 <= place_for(slots, name) <= slots.len(),
    decreases slots.len(),
{
    if slots.len() > 0 {
        lemma_place_for(slots.drop_last(), name);
    }
}

proof fn lemma_taken_in(before: PassState, name: Seq<char>, after: PassState, other: Seq<char>)
    requires
        takes_in(before, name, after),
        !is_applied(before.0, name),
        !is_refused(before.1, name),
    ensures
        is_applied(after.0, other) || is_refused(after.1, other) <==> is_applied(before.0, other)
            || is_refused(before.1, other) || other == name,
        is_applied(after.0, other) && is_refused(after.1, other) ==> is_applied(before.0, other)
            && is_refused(before.1, other),
{
    lemma_place_for(before.0, name);
    lemma_stamp_in(before.1, other);
    lemma_stamp_in(after.1, other);
    if exists|profile: ProfileModel, stamp: Option<u64>|
        after.0 == before.0.insert(
            place_for(before.0, name),
            #[trigger] fresh_slot(name, profile, stamp),
        ) && after.1 == before.1 {
        let (profile, stamp) = choose|profile: ProfileModel, stamp: Option<u64>|
            after.0 == before.0.insert(
                place_for(before.0, name),
                #[trigger] fresh_slot(name, profile, stamp),
            ) && after.1 == before.1;
        let at = place_for(before.0, name);
        assert(after.0[at].name == name);
        if is_applied(before.0, other) {
            let i = choose|i: int| 0 <= i < before.0.len() && (#[trigger] before.0[i]).name == other;
            if i < at {
                assert(after.0[i].name == other);
            } else {
                assert(after.0[i + 1].name == other);
            }
        }
        if is_applied(after.0, other) && other != name {
            let i = choose|i: int| 0 <= i < after.0.len() && (#[trigger] after.0[i]).name == other;
            if i < at {
                assert(before.0[i].name == other);
            } else {
                assert(before.0[i - 1].name == other);
            }
        }
    } else {
        let stamp = choose|stamp: Option<u64>|
            after.1 == before.1.push(#[trigger] linked_at(name, stamp));
        assert(after.1 == before.1.push(linked_at(name, stamp)));
        let n = before.1.len();
        assert(after.1[n as int].0 == name);
        if is_refused(before.1, other) {
            let i = choose|i: int| 0 <= i < before.1.len() && (#[trigger] before.1[i]).0 == other;
            assert(after.1[i].0 == other);
        }
        if is_refused(after.1, other) && other != name {
            let i = choose|i: int| 0 <= i < after.1.len() && (#[trigger] after.1[i]).0 == other;
            assert(before.1[i].0 == other);
        }
    }
}

proof fn lemma_pass(
    before: PassState,
    set: Seq<(Seq<char>, Option<u64>)>,
    states: Seq<PassState>,
    n: int,
)
    requires
        is_pass(before, set, states),
        are_apart(before),
        0 <= n <= set.len(),
    ensures
        are_apart(states[n]),
        forall|name: Seq<char>|
            #[trigger] is_applied(states[n].0, name) || is_refused(states[n].1, name) ==> is_refused(
                set,
                name,
            ),
        forall|i: int|
            0 <= i < n ==> is_applied(states[n].0, (#[trigger] set[i]).0) || is_refused(
                states[n].1,
                set[i].0,
            ),
    decreases n,
{
    if n == 0 {
        assert forall|name: Seq<char>| !(#[trigger] is_applied(states[0].0, name) && is_refused(
            states[0].1,
            name,
        )) by {
            lemma_staying(before.0, set, name);
            lemma_still_refused(before.1, set, name);
            assert(!(is_applied(before.0, name) && is_refused(before.1, name)));
        }
        assert forall|name: Seq<char>|
            #[trigger] is_applied(states[0].0, name) || is_refused(
                states[0].1,
                name,
            ) implies is_refused(set, name) by {
            lemma_staying(before.0, set, name);
            lemma_still_refused(before.1, set, name);
        }
    } else {
        lemma_pass(before, set, states, n - 1);
        let from = states[n - 1];
        let to = states[n];
        let name = set[n - 1].0;
        assert(passes_link(states[n - 1], set[n - 1].0, states[n - 1 + 1]));
        lemma_stamp_in(set, name);
        if !(is_applied(from.0, name) || is_refused(from.1, name)) {
            assert forall|other: Seq<char>| !(#[trigger] is_applied(to.0, other) && is_refused(
                to.1,
                other,
            )) by {
                lemma_taken_in(from, name, to, other);
                assert(!(is_applied(from.0, other) && is_refused(from.1, other)));
            }
            assert forall|other: Seq<char>|
                #[trigger] is_applied(to.0, other) || is_refused(to.1, other) implies is_refused(
                set,
                other,
            ) by {
                lemma_taken_in(from, name, to, other);
                if other != name {
                    assert(is_applied(from.0, other) || is_refused(from.1, other));
                }
            }
            assert forall|i: int| 0 <= i < n implies is_applied(to.0, (#[trigger] set[i]).0)
                || is_refused(to.1, set[i].0) by {
                lemma_taken_in(from, name, to, set[i].0);
            }
        }
    }
}

/// A pass accounts for every link: after it each link of the set is applied or refused and never
/// both, and nothing else is.
pub proof fn law_a_pass_accounts_for_every_link(
    before: PassState,
    set: Seq<(Seq<char>, Option<u64>)>,
    states: Seq<PassState>,
    name: Seq<char>,
)
    requires
        is_pass(before, set, states),
        are_apart(before),
    ensures
        ({
            let after = states.last();
            let listed = exists|i: int| 0 <= i < set.len() && (#[trigger] set[i]).0 == name;
            &&& listed <==> is_applied(after.0, name) || is_refused(after.1, name)
            &&& !(is_applied(after.0, name) && is_refused(after.1, name))
        }),
{
    lemma_pass(before, set, states, set.len() as int);
    lemma_stamp_in(set, name);
    let after = states.last();
    assert(after == states[set.len() as int]);
    if exists|i: int| 0 <= i < set.len() && (#[trigger] set[i]).0 == name {
        let i = choose|i: int| 0 <= i < set.len() && (#[trigger] set[i]).0 == name;
        assert(is_applied(after.0, set[i].0) || is_refused(after.1, set[i].0));
    }
    assert(!(is_applied(after.0, name) && is_refused(after.1, name)));
}

// ------------------------------------------------------------------------- the emergency grab

/// A list of chords without repetitions.
pub open spec fn distinct(chords: Seq<Seq<Key>>) -> Seq<Seq<Key>>
    decreases chords.len(),
{
    if chords.len() == 0 {
        seq![]
    } else {
        let before = distinct(chords.drop_last());
        if before.contains(chords.last()) {
            before
        } else {
            before.push(chords.last())
        }
    }
}

/// The emergency chords of all slots, one after the other.
pub open spec fn all_stops(slots: Seq<SlotModel>) -> Seq<Seq<Key>>
    decreases slots.len(),
{
    if slots.len() == 0 {
        seq![]
    } else {
        all_stops(slots.drop_last()) + slots.last().profile.emergency_stop
    }
}

fn has_chord(chords: &Vec<Vec<Key>>, chord: &Vec<Key>) -> (r: bool)
    ensures
        r == chords_view(chords@).contains(chord@),
{
    let mut i: usize = 0;
    while i < chords.len()
        invariant
            i <= chords@.len(),
            forall|k: int| 0 <= k < i ==> (#[trigger] chords_view(chords@)[k]) != chord@,
        decreases chords@.len() - i,
    {
        assert(chords_view(chords@)[i as int] == chords@[i as int]@);
        if same_keys(&chords[i], chord) {
            return true;
        }
        i += 1;
    }
    false
}

/// The chords that the emergency grab has to hold: every one that some slot names, once.
pub fn wanted_stops(slots: &Vec<Slot>) -> (out: Vec<Vec<Key>>)
    ensures
        chords_view(out@) == distinct(all_stops(slots_view(slots@))),
{
    let ghost all = slots_view(slots@);
    let mut out: Vec<Vec<Key>> = Vec::new();
    let mut i: usize = 0;
    assert(all.take(0) =~= seq![]);
    assert(chords_view(out@) =~= seq![]);
    while i < slots.len()
        invariant
            i <= slots@.len(),
            all == slots_view(slots@),
            chords_view(out@) == distinct(all_stops(all.take(i as int))),
        decreases slots@.len() - i,
    {
        let ghost before = all_stops(all.take(i as int));
        let ghost mine = slots@[i as int]@.profile.emergency_stop;
        let chords = &slots[i].profile.emergency_stop;
        proof {
            assert(all.take(i + 1).drop_last() =~= all.take(i as int));
            assert(all.take(i + 1).last() == slots@[i as int]@);
            assert(before + mine.take(0) =~= before);
        }
        let mut k: usize = 0;
        while k < chords.len()
            invariant
                k <= chords@.len(),
                mine == chords_view(chords@),
                chords_view(out@) == distinct(before + mine.take(k as int)),
            decreases chords@.len() - k,
        {
            proof {
                let longer = before + mine.take(k + 1);
                assert(longer.drop_last() =~= before + mine.take(k as int));
                assert(longer.last() == chords@[k as int]@);
            }
            if !has_chord(&out, &chords[k]) {
                let chord = crate::input::copy_keys(&chords[k]);
                let ghost keys = chord@;
                let ghost sofar = chords_view(out@);
                out.push(chord);
                assert(chords_view(out@) =~= sofar.push(keys));
            }
            k += 1;
        }
        assert(mine.take(mine.len() as int) =~= mine);
        i += 1;
    }
    assert(all.take(all.len() as int) =~= all);
    out
}

/// What to do about the emergency grab.
#[derive(Debug, Clone, Copy, PartialEq, Eq, Structural)]
pub enum EmergencyPlan {
    /// It holds what it has to.
    Keep,
    /// Stop the one that stands, if one does, and grab what is wanted, if anything is.
    Change { stop: bool, grab: bool },
}

/// Whether two lists of chords hold the same ones.
pub open spec fn same_chords(a: Seq<Seq<Key>>, b: Seq<Seq<Key>>) -> bool {
    forall|chord: Seq<Key>| a.contains(chord) <==> b.contains(chord)
}

fn holds_all(chords: &Vec<Vec<Key>>, of: &Vec<Vec<Key>>) -> (r: bool)
    ensures
        r == (forall|chord: Seq<Key>| chords_view(of@).contains(chord) ==> chords_view(chords@).contains(chord)),
{
    let ghost whole = chords_view(chords@);
    let ghost part = chords_view(of@);
    let mut i: usize = 0;
    while i < of.len()
        invariant
            i <= of@.len(),
            whole == chords_view(chords@),
            part == chords_view(of@),
            forall|k: int| 0 <= k < i ==> whole.contains(#[trigger] part[k]),
        decreases of@.len() - i,
    {
        assert(part[i as int] == of@[i as int]@);
        if !has_chord(chords, &of[i]) {
            assert(part.contains(part[i as int]));
            return false;
        }
        i += 1;
    }
    proof {
        assert forall|chord: Seq<Key>| part.contains(chord) implies whole.contains(chord) by {
            let k = choose|k: int| 0 <= k < part.len() && part[k] == chord;
            assert(whole.contains(part[k]));
        }
    }
    true
}

/// What to do about the emergency grab, given the chords that it holds and those that it should.
pub fn plan_emergency(current: &Vec<Vec<Key>>, wanted: &Vec<Vec<Key>>) -> (r: EmergencyPlan)
    ensures
        r == (if same_chords(chords_view(current@), chords_view(wanted@)) {
            EmergencyPlan::Keep
        } else {
            EmergencyPlan::Change { stop: current@.len() > 0, grab: wanted@.len() > 0 }
        }),
{
    if holds_all(current, wanted) && holds_all(wanted, current) {
        EmergencyPlan::Keep
    } else {
        EmergencyPlan::Change { stop: current.len() > 0, grab: wanted.len() > 0 }
    }
}

proof fn lemma_distinct(chords: Seq<Seq<Key>>)
    ensures
        distinct(chords).no_duplicates(),
        forall|chord: Seq<Key>| distinct(chords).contains(chord) <==> chords.contains(chord),
    decreases chords.len(),
{
    if chords.len() > 0 {
        let rest = chords.drop_last();
        lemma_distinct(rest);
        let before = distinct(rest);
        assert(chords =~= rest.push(chords.last()));
        assert forall|chord: Seq<Key>| distinct(chords).contains(chord) <==> chords.contains(
            chord,
        ) by {
            super::model::lemma_push_contains(rest, chords.last(), chord);
            super::model::lemma_push_contains(before, chords.last(), chord);
        }
        if !before.contains(chords.last()) {
            let after = before.push(chords.last());
            assert forall|i: int, j: int| 0 <= i < after.len() && 0 <= j < after.len() && i != j implies
                after[i] != after[j] by {
                if i < before.len() && j < before.len() {
                    assert(before[i] != before[j]);
                } else if i < before.len() {
                    assert(before.contains(before[i]));
                } else {
                    assert(before.contains(before[j]));
                }
            }
        }
    }
}

/// The emergency grab holds exactly the chords that applied profiles name, whether or not those
/// are live.
pub proof fn law_the_emergency_grab_is_the_union(
    slots: Seq<SlotModel>,
    chord: Seq<Key>,
)
    ensures
        distinct(all_stops(slots)).contains(chord) <==> exists|i: int|
            0 <= i < slots.len() && (#[trigger] slots[i]).profile.emergency_stop.contains(chord),
    decreases slots.len(),
{
    lemma_distinct(all_stops(slots));
    lemma_all_stops(slots, chord);
}

proof fn lemma_all_stops(slots: Seq<SlotModel>, chord: Seq<Key>)
    ensures
        all_stops(slots).contains(chord) <==> exists|i: int|
            0 <= i < slots.len() && (#[trigger] slots[i]).profile.emergency_stop.contains(chord),
    decreases slots.len(),
{
    if slots.len() > 0 {
        let rest = slots.drop_last();
        lemma_all_stops(rest, chord);
        let before = all_stops(rest);
        let mine = slots.last().profile.emergency_stop;
        let all = all_stops(slots);
        assert(all == before + mine);
        if all.contains(chord) {
            let k = choose|k: int| 0 <= k < all.len() && all[k] == chord;
            if k < before.len() {
                assert(before[k] == chord);
                let i = choose|i: int|
                    0 <= i < rest.len() && (#[trigger] rest[i]).profile.emergency_stop.contains(
                        chord,
                    );
                assert(slots[i] == rest[i]);
            } else {
                assert(mine[k - before.len()] == chord);
                assert(slots[slots.len() - 1].profile.emergency_stop.contains(chord));
            }
        }
        if exists|i: int|
            0 <= i < slots.len() && (#[trigger] slots[i]).profile.emergency_stop.contains(chord) {
            let i = choose|i: int|
                0 <= i < slots.len() && (#[trigger] slots[i]).profile.emergency_stop.contains(
                    chord,
                );
            if i < rest.len() {
                assert(rest[i] == slots[i]);
                assert(before.contains(chord));
                let k = choose|k: int| 0 <= k < before.len() && before[k] == chord;
                assert(all[k] == chord);
            } else {
                let k = choose|k: int| 0 <= k < mine.len() && mine[k] == chord;
                assert(all[before.len() + k] == chord);
            }
        }
    }
}

/// Whether the focus has to be watched: some profile names a program.
pub fn needs_focus(slots: &Vec<Slot>) -> (r: bool)
    ensures
        r == exists|i: int|
            0 <= i < slots@.len() && (#[trigger] slots@[i]).profile.program is Some,
{
    let mut i: usize = 0;
    while i < slots.len()
        invariant
            i <= slots@.len(),
            forall|k: int| 0 <= k < i ==> (#[trigger] slots@[k]).profile.program is None,
        decreases slots@.len() - i,
    {
        if slots[i].profile.program.is_some() {
            return true;
        }
        i += 1;
    }
    false
}

// ------------------------------------------------------------------------------ who gets an event

/// Whom an event concerns.
#[derive(Debug)]
pub enum Route {
    /// Nobody.
    Ignore,
    /// These profiles stop: the event is an emergency chord of each.
    Stop(Vec<usize>),
    /// This profile runs it: the event is one of its grabs.
    Run(usize),
}

/// The key of a key event.
pub open spec fn key_of(event: InputEvent) -> Option<Key> {
    match event.kind {
        EventKind::KeyDown(key) => Some(key),
        EventKind::KeyUp(key) => Some(key),
        _ => None,
    }
}

/// Whether an event is an emergency chord of a slot.
pub open spec fn stops_slot(slot: SlotModel, event: InputEvent) -> bool {
    event.kind is KeyDown && stop_signatures(slot.profile.emergency_stop).contains(
        (event.kind->KeyDown_0, event.mods),
    )
}

/// The first slots that an event stops, in order.
pub open spec fn stopped_slots(slots: Seq<SlotModel>, event: InputEvent, n: int) -> Seq<usize>
    decreases n,
{
    if n <= 0 {
        seq![]
    } else if stops_slot(slots[n - 1], event) {
        stopped_slots(slots, event, n - 1).push((n - 1) as usize)
    } else {
        stopped_slots(slots, event, n - 1)
    }
}

/// Whether a slot has grabbed an event.
pub open spec fn has_grabbed(slot: SlotModel, event: InputEvent) -> bool {
    match key_of(event) {
        Some(key) => slot.grabbed.contains((key, event.mods)),
        None => false,
    }
}

/// Routes an event: an emergency chord stops exactly the profiles that name it, and anything else
/// runs the profile that grabbed it. A key that nobody grabbed is ignored.
pub fn route(slots: &Vec<Slot>, event: InputEvent) -> (r: Route)
    ensures
        match r {
            Route::Stop(which) => which@ == stopped_slots(
                slots_view(slots@),
                event,
                slots@.len() as int,
            ) && which@.len() > 0,
            Route::Run(i) => i < slots@.len() && has_grabbed(slots@[i as int]@, event) && (forall|
                k: int,
            |
                0 <= k < i ==> !has_grabbed((#[trigger] slots@[k])@, event)) && stopped_slots(
                slots_view(slots@),
                event,
                slots@.len() as int,
            ).len() == 0,
            Route::Ignore => (forall|k: int|
                0 <= k < slots@.len() ==> !has_grabbed((#[trigger] slots@[k])@, event))
                && stopped_slots(slots_view(slots@), event, slots@.len() as int).len() == 0,
        },
{
    let ghost all = slots_view(slots@);
    let (key, down) = match event.kind {
        EventKind::KeyDown(key) => (key, true),
        EventKind::KeyUp(key) => (key, false),
        _ => {
            proof {
                lemma_nothing_stopped(all, event, all.len() as int);
            }
            return Route::Ignore;
        },
    };
    let mut which: Vec<usize> = Vec::new();
    let mut i: usize = 0;
    while down && i < slots.len()
        invariant
            i <= slots@.len(),
            all == slots_view(slots@),
            down ==> event.kind == EventKind::KeyDown(key),
            !down ==> event.kind == EventKind::KeyUp(key),
            which@ == stopped_slots(all, event, i as int),
        decreases slots@.len() - i,
    {
        assert(all[i as int] == slots@[i as int]@);
        let stops = stop_chords(&slots[i].profile);
        if is_stop(&stops, key, event.mods) {
            which.push(i);
        }
        i += 1;
    }
    proof {
        if !down {
            lemma_nothing_stopped(all, event, i as int);
            lemma_nothing_stopped(all, event, all.len() as int);
        }
    }
    if which.len() > 0 {
        return Route::Stop(which);
    }
    let mut j: usize = 0;
    while j < slots.len()
        invariant
            j <= slots@.len(),
            all == slots_view(slots@),
            key_of(event) == Some(key),
            forall|k: int| 0 <= k < j ==> !has_grabbed((#[trigger] slots@[k])@, event),
            stopped_slots(all, event, all.len() as int).len() == 0,
        decreases slots@.len() - j,
    {
        if has_signature(&slots[j].grabbed, (key, event.mods)) {
            return Route::Run(j);
        }
        j += 1;
    }
    Route::Ignore
}

proof fn lemma_nothing_stopped(slots: Seq<SlotModel>, event: InputEvent, n: int)
    requires
        !(event.kind is KeyDown),
        0 <= n <= slots.len(),
    ensures
        stopped_slots(slots, event, n).len() == 0,
    decreases n,
{
    if n > 0 {
        lemma_nothing_stopped(slots, event, n - 1);
    }
}

/// Stops are a matter of each profile alone: an event stops a profile exactly where it is one of
/// that profile's own emergency chords.
pub proof fn law_stops_are_per_profile(slots: Seq<SlotModel>, event: InputEvent, i: int)
    requires
        0 <= i < slots.len() <= usize::MAX,
    ensures
        stopped_slots(slots, event, slots.len() as int).contains(i as usize) <==> stops_slot(
            slots[i],
            event,
        ),
{
    lemma_stopped(slots, event, slots.len() as int, i);
}

proof fn lemma_stopped(slots: Seq<SlotModel>, event: InputEvent, n: int, i: int)
    requires
        0 <= n <= slots.len() <= usize::MAX,
        0 <= i < slots.len(),
    ensures
        stopped_slots(slots, event, n).contains(i as usize) <==> i < n && stops_slot(
            slots[i],
            event,
        ),
    decreases n,
{
    if n > 0 {
        lemma_stopped(slots, event, n - 1, i);
        super::model::lemma_push_contains(
            stopped_slots(slots, event, n - 1),
            (n - 1) as usize,
            i as usize,
        );
    }
}

/// What the surroundings can answer while a slot runs: the focus matters only where the profile
/// names a program.
pub fn seams_for(slot: &Slot) -> (r: Seams)
    ensures
        r == (Seams {
            gate: slot@.profile.program is Some,
            mods_down: true,
            key_down: true,
            lift: true,
        }),
{
    Seams {
        gate: slot.profile.program.is_some(),
        mods_down: true,
        key_down: true,
        lift: true,
    }
}

/// Whether a slot stops because of how its run ended.
pub fn ends_slot(outcome: Option<Outcome>) -> (r: bool)
    ensures
        r == (outcome == Some(Outcome::EmergencyStop)),
{
    match outcome {
        Some(Outcome::EmergencyStop) => true,
        _ => false,
    }
}

/// Takes a stopped slot out: its grabs are to be stopped and what it held is to be released.
pub fn stop_slot(slots: &mut Vec<Slot>, i: usize) -> (r: Departure)
    requires
        i < old(slots)@.len(),
    ensures
        slots_view(final(slots)@) == slots_view(old(slots)@).remove(i as int),
        r@ == (DepartureModel {
            name: old(slots)@[i as int]@.name,
            why: Leaving::Gone,
            stop: old(slots)@[i as int]@.live,
            releases: releases(old(slots)@[i as int]@.held.reverse()),
        }),
{
    let mut slot = slots.remove(i);
    let releases = drain_held(&mut slot.held);
    assert(slots_view(slots@) =~= slots_view(old(slots)@).remove(i as int));
    Departure { name: slot.name, why: Leaving::Gone, stop: slot.live, releases }
}

/// The line for a profile that was stopped by its emergency chord.
pub fn emergency_line(name: &str) -> (line: String)
    ensures
        line@ == "emergency stop: "@ + name@ + " unapplied"@,
{
    let mut line: String = "emergency stop: ".to_owned();
    line.append(name);
    line.append(" unapplied");
    line
}

/// Lets every slot go, whatever ended the run: each with the releases of all that it held.
pub fn teardown(slots: Vec<Slot>) -> (r: Vec<Departure>)
    ensures
        departures_view(r@) == departing(slots_view(slots@), seq![]),
        r@.len() == slots@.len(),
{
    let nothing: Vec<Entry> = Vec::new();
    assert(entries_view(nothing@) =~= seq![]);
    proof {
        lemma_everything_leaves(slots_view(slots@));
    }
    let (_, leave) = part_slots(slots, &nothing);
    assert(departures_view(leave@).len() == leave@.len());
    leave
}

proof fn lemma_everything_leaves(slots: Seq<SlotModel>)
    ensures
        departing(slots, seq![]).len() == slots.len(),
        staying(slots, seq![]).len() == 0,
    decreases slots.len(),
{
    if slots.len() > 0 {
        lemma_everything_leaves(slots.drop_last());
    }
}

/// Every profile that leaves, for whatever reason, owes the release of everything that it held,
/// last pressed first.
pub proof fn law_a_leaving_profile_releases_what_it_held(
    slots: Seq<SlotModel>,
    set: Seq<(Seq<char>, Option<u64>)>,
    i: int,
)
    requires
        0 <= i < slots.len(),
        leaves(slots[i], set) is Some,
    ensures
        exists|k: int|
            0 <= k < departing(slots, set).len() && #[trigger] departing(slots, set)[k] == (
            DepartureModel {
                name: slots[i].name,
                why: leaves(slots[i], set)->0,
                stop: slots[i].live,
                releases: releases(slots[i].held.reverse()),
            }),
    decreases slots.len(),
{
    let all = departing(slots, set);
    let before = departing(slots.drop_last(), set);
    if i == slots.len() - 1 {
        assert(all[all.len() - 1].name == slots[i].name);
        assert(all[all.len() - 1] == (DepartureModel {
            name: slots[i].name,
            why: leaves(slots[i], set)->0,
            stop: slots[i].live,
            releases: releases(slots[i].held.reverse()),
        }));
    } else {
        law_a_leaving_profile_releases_what_it_held(slots.drop_last(), set, i);
        let k = choose|k: int|
            0 <= k < before.len() && #[trigger] before[k] == (DepartureModel {
                name: slots[i].name,
                why: leaves(slots[i], set)->0,
                stop: slots[i].live,
                releases: releases(slots[i].held.reverse()),
            });
        assert(all[k] == before[k]);
    }
}

// ------------------------------------------------------------------------------- the main loop

/// How many nanoseconds lie between two passes of maintenance.
pub const MAINTENANCE_NANOS: u64 = 50_000_000;

/// The directory is read again every so many passes.
pub const SCAN_EVERY: u32 = 4;

/// Why the manager stops.
#[derive(Debug, Clone, Copy, PartialEq, Eq, Structural)]
pub enum StopReason {
    Interrupted,
    NoProfilesLeft,
    SourcesClosed,
}

/// What the manager's loop asks for.
#[derive(Debug, Clone, Copy, PartialEq, Eq, Structural)]
pub enum LoopRequest {
    /// Whether a signal asked the process to stop.
    Interrupted,
    /// The time.
    Now,
    /// A pass of maintenance, reading the directory too if so told.
    Maintain { scan: bool },
    /// An event, until the time at the latest.
    Wait(u64),
    /// Dealing with an event.
    Dispatch(InputEvent),
    /// The end, in good order.
    Stop(StopReason),
    /// The end, because something failed.
    Fail,
}

/// What came of it.
#[derive(Debug, Clone, Copy, PartialEq, Eq, Structural)]
pub enum LoopReply {
    Answer(bool),
    Time(u64),
    /// The pass is done; whether any profile is left.
    Maintained { empty: bool },
    Woke(Wake),
    Done,
    Failed,
}

/// Where the loop stands.
#[derive(Debug, Clone, Copy, PartialEq, Eq, Structural)]
pub enum LoopPhase {
    Top,
    Due,
    Maintaining,
    Rested,
    Waiting,
    Dispatching(InputEvent),
    Stopped(StopReason),
    Failed,
}

/// The manager's loop.
#[derive(Debug, Clone, Copy, PartialEq, Eq, Structural)]
pub struct ManagerLoop {
    pub phase: LoopPhase,
    /// Passes of maintenance so far.
    pub passes: u32,
    /// When the next one is due.
    pub next: u64,
}

impl ManagerLoop {
    /// Whether the pass at hand reads the directory.
    pub open spec fn scans(self) -> bool {
        self.passes % SCAN_EVERY == 0
    }

    /// What the loop asks for.
    pub open spec fn asks(self) -> LoopRequest {
        match self.phase {
            LoopPhase::Top => LoopRequest::Interrupted,
            LoopPhase::Due | LoopPhase::Rested => LoopRequest::Now,
            LoopPhase::Maintaining => LoopRequest::Maintain { scan: self.scans() },
            LoopPhase::Waiting => LoopRequest::Wait(self.next),
            LoopPhase::Dispatching(event) => LoopRequest::Dispatch(event),
            LoopPhase::Stopped(reason) => LoopRequest::Stop(reason),
            LoopPhase::Failed => LoopRequest::Fail,
        }
    }

    /// The loop after a reply; one that does not answer the request changes nothing.
    pub open spec fn after(self, reply: LoopReply) -> ManagerLoop {
        match (self.phase, reply) {
            (LoopPhase::Top, LoopReply::Answer(interrupted)) => ManagerLoop {
                phase: if interrupted {
                    LoopPhase::Stopped(StopReason::Interrupted)
                } else {
                    LoopPhase::Due
                },
                ..self
            },
            (LoopPhase::Due, LoopReply::Time(now)) => ManagerLoop {
                phase: if now >= self.next {
                    LoopPhase::Maintaining
                } else {
                    LoopPhase::Waiting
                },
                ..self
            },
            (LoopPhase::Maintaining, LoopReply::Maintained { empty }) => if self.scans() && empty {
                ManagerLoop { phase: LoopPhase::Stopped(StopReason::NoProfilesLeft), ..self }
            } else {
                ManagerLoop {
                    phase: LoopPhase::Rested,
                    passes: if self.passes == u32::MAX {
                        0
                    } else {
                        (self.passes + 1) as u32
                    },
                    ..self
                }
            },
            (LoopPhase::Rested, LoopReply::Time(now)) => ManagerLoop {
                phase: LoopPhase::Waiting,
                next: later(now, MAINTENANCE_NANOS),
                ..self
            },
            (LoopPhase::Waiting, LoopReply::Woke(wake)) => ManagerLoop {
                phase: match wake {
                    Wake::Event(event) => LoopPhase::Dispatching(event),
                    Wake::Deadline => LoopPhase::Top,
                    Wake::Interrupted => LoopPhase::Stopped(StopReason::SourcesClosed),
                },
                ..self
            },
            (LoopPhase::Dispatching(_), LoopReply::Done) => ManagerLoop {
                phase: LoopPhase::Top,
                ..self
            },
            (LoopPhase::Maintaining, LoopReply::Failed) | (
                LoopPhase::Dispatching(_),
                LoopReply::Failed,
            ) => ManagerLoop { phase: LoopPhase::Failed, ..self },
            _ => self,
        }
    }

    /// A loop that begins at a time: its first pass is due at once and reads the directory.
    pub fn new(now: u64) -> (r: Self)
        ensures
            r == (ManagerLoop { phase: LoopPhase::Top, passes: 0, next: now }),
            r.scans(),
    {
        ManagerLoop { phase: LoopPhase::Top, passes: 0, next: now }
    }

    /// What the loop asks for.
    pub fn request(&self) -> (r: LoopRequest)
        ensures
            r == self.asks(),
    {
        match self.phase {
            LoopPhase::Top => LoopRequest::Interrupted,
            LoopPhase::Due | LoopPhase::Rested => LoopRequest::Now,
            LoopPhase::Maintaining => LoopRequest::Maintain {
                scan: self.passes % SCAN_EVERY == 0,
            },
            LoopPhase::Waiting => LoopRequest::Wait(self.next),
            LoopPhase::Dispatching(event) => LoopRequest::Dispatch(event),
            LoopPhase::Stopped(reason) => LoopRequest::Stop(reason),
            LoopPhase::Failed => LoopRequest::Fail,
        }
    }

    /// Takes in what came of the request.
    pub fn advance(&mut self, reply: LoopReply)
        ensures
            *final(self) == old(self).after(reply),
    {
        match (self.phase, reply) {
            (LoopPhase::Top, LoopReply::Answer(interrupted)) => {
                self.phase = if interrupted {
                    LoopPhase::Stopped(StopReason::Interrupted)
                } else {
                    LoopPhase::Due
                };
            },
            (LoopPhase::Due, LoopReply::Time(now)) => {
                self.phase = if now >= self.next {
                    LoopPhase::Maintaining
                } else {
                    LoopPhase::Waiting
                };
            },
            (LoopPhase::Maintaining, LoopReply::Maintained { empty }) => {
                if self.passes % SCAN_EVERY == 0 && empty {
                    self.phase = LoopPhase::Stopped(StopReason::NoProfilesLeft);
                } else {
                    self.phase = LoopPhase::Rested;
                    self.passes = if self.passes == u32::MAX {
                        0
                    } else {
                        self.passes + 1
                    };
                }
            },
            (LoopPhase::Rested, LoopReply::Time(now)) => {
                self.phase = LoopPhase::Waiting;
                self.next = saturating_later(now, MAINTENANCE_NANOS);
            },
            (LoopPhase::Waiting, LoopReply::Woke(wake)) => {
                self.phase = match wake {
                    Wake::Event(event) => LoopPhase::Dispatching(event),
                    Wake::Deadline => LoopPhase::Top,
                    Wake::Interrupted => LoopPhase::Stopped(StopReason::SourcesClosed),
                };
            },
            (LoopPhase::Dispatching(_), LoopReply::Done) => {
                self.phase = LoopPhase::Top;
            },
            (LoopPhase::Maintaining, LoopReply::Failed) | (
                LoopPhase::Dispatching(_),
                LoopReply::Failed,
            ) => {
                self.phase = LoopPhase::Failed;
            },
            _ => {},
        }
    }
}

/// A signal is noticed at the very next turn: nothing is maintained, awaited or dispatched between
/// the question and the end.
pub proof fn law_an_interrupt_stops_the_manager(s: ManagerLoop)
    requires
        s.phase is Top,
    ensures
        s.asks() is Interrupted,
        s.after(LoopReply::Answer(true)).asks() == LoopRequest::Stop(StopReason::Interrupted),
{
}

/// A manager whose set is found empty has no reason to linger; one that has just not looked goes
/// on.
pub proof fn law_an_empty_set_ends_the_manager(s: ManagerLoop, empty: bool)
    requires
        s.phase is Maintaining,
    ensures
        s.after(LoopReply::Maintained { empty }).phase is Stopped <==> s.scans() && empty,
{
}

/// Maintenance is never due later than its interval after the last pass.
pub proof fn law_maintenance_comes_round(s: ManagerLoop, now: u64)
    requires
        s.phase is Rested,
    ensures
        s.after(LoopReply::Time(now)).asks() == LoopRequest::Wait(later(now, MAINTENANCE_NANOS)),
{
}

/// The word for why the manager stops.
pub open spec fn reason_text(reason: StopReason) -> Seq<char> {
    match reason {
        StopReason::Interrupted => "interrupted"@,
        StopReason::NoProfilesLeft => "no profiles left"@,
        StopReason::SourcesClosed => "event sources closed"@,
    }
}

/// What is said of a manager that stopped in good order.
pub open spec fn farewell_text(reason: StopReason, cleared: u64) -> Seq<char> {
    (if reason is Interrupted {
        "\n"@
    } else {
        ""@
    }) + "stopped ("@ + reason_text(reason) + "); "@ + decimal(cleared as nat)
        + " profile(s) unapplied \u{2014} nothing is enforced now"@
}

/// What a manager says on the way out: that it stopped, where it did so in good order, and a
/// warning where the server still has a modifier stuck.
pub fn parting_lines(
    stopped: Option<StopReason>,
    cleared: u64,
    lexicon: &Lexicon,
    keyboard: &KeyboardAnswer,
) -> (lines: Vec<String>)
    ensures
        texts(lines@) == (match stopped {
            Some(reason) => seq![farewell_text(reason, cleared)],
            None => Seq::<Seq<char>>::empty(),
        }) + (match stuck_warning_text(lexicon, *keyboard) {
            Some(warning) => seq![warning],
            None => Seq::<Seq<char>>::empty(),
        }),
{
    let mut lines: Vec<String> = Vec::new();
    assert(texts(lines@) =~= seq![]);
    if let Some(reason) = stopped {
        let line = farewell(reason, cleared);
        let ghost said = line@;
        lines.push(line);
        assert(texts(lines@) =~= seq![said]);
    }
    let ghost before = texts(lines@);
    if let Some(line) = stuck_warning(lexicon, keyboard) {
        let ghost said = line@;
        lines.push(line);
        assert(texts(lines@) =~= before.push(said));
    }
    lines
}

/// The last line of a manager that stopped in good order: an interrupt has left the cursor in the
/// middle of a line, so that one starts on a new one.
pub fn farewell(reason: StopReason, cleared: u64) -> (line: String)
    ensures
        line@ == farewell_text(reason, cleared),
{
    let mut line: String = match reason {
        StopReason::Interrupted => "\n".to_owned(),
        _ => "".to_owned(),
    };
    line.append("stopped (");
    line.append(
        match reason {
            StopReason::Interrupted => "interrupted",
            StopReason::NoProfilesLeft => "no profiles left",
            StopReason::SourcesClosed => "event sources closed",
        },
    );
    line.append("); ");
    line.append(decimal_of(cleared).as_str());
    line.append(" profile(s) unapplied \u{2014} nothing is enforced now");
    line
}

/// The first line of a manager.
pub fn greeting(active_dir: &str) -> (line: String)
    ensures
        line@ == "managing "@ + active_dir@
            + "; apply/unapply from any shell, Ctrl+C stops everything"@,
{
    let mut line: String = "managing ".to_owned();
    line.append(active_dir);
    line.append("; apply/unapply from any shell, Ctrl+C stops everything");
    line
}

/// Whether the terminal has moved on to another process, so that nothing should be written to it
/// any more. `owner` is the process group in its foreground where that is known.
pub fn lost_terminal(is_terminal: bool, owner: Option<i32>, own: i32) -> (r: bool)
    ensures
        r == (is_terminal && owner is Some && owner->0 != own),
{
    match owner {
        Some(owner) => is_terminal && owner != own,
        None => false,
    }
}

/// The signal that ended a run, by the number that was noted; zero means none.
pub fn caught_interrupt(noted: u64) -> (r: Option<i32>)
    ensures
        r == (if 0 < noted <= i32::MAX {
            Some(noted as i32)
        } else {
            None
        }),
{
    if noted == 0 || noted > i32::MAX as u64 {
        None
    } else {
        Some(noted as i32)
    }
}

} // verus!
