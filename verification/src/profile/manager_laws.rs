//! What the applied profiles do together: who comes and goes, who hears an event, what is let go
//! of, and how an apply runs its course.
use vstd::prelude::*;

use crate::error::Error;
use crate::input::{classes, EventKind, InputEvent, Key, Mods};
use crate::names::{mods_number, Lexicon};
use crate::runtime::Wake;
use crate::text::{decimal, is_space, lowered, texts};
use crate::text_laws::{law_a_number_reads_back, law_trimming_takes_white_space_off_both_ends};

use super::apply::{
    attached_lines, attached_text, beside, fresh_apply, is_asked, is_named, members_bindings,
    reattached_text, ApplyReply, ApplyRequest, ApplyStage, ApplyState, MemberModel, PlacedModel,
};
use super::claims::{
    bracketed, comes_before, key_number, label, owner_in, ClaimModel, Signature,
};
use super::manager::{
    admission_lines, announcement, bindings_with, departing, farewell_text, has_grabbed, leaves, place_for,
    reason_text, slot_bindings, stamp_in, staying, still_refused, stop_hint_text, stops_slot,
    Applied, Leaving, LoopPhase, LoopReply, LoopRequest, ManagerLoop, StopReason,
};
use super::model::{lemma_push_contains, primary, BindModel, ProfileModel};
use super::run::{handling, releases, stop_signatures, Context, Outcome, Phase, Reply, Request};
use super::select::{
    all_resolved, at_or_before, lemma_order_is_total, lemma_order_is_transitive, pick, picked,
    resolved, Pick,
};
use super::session::{session_asking, session_next, Ending, SessionState, Stage};
use super::slots::{grabbed, planned, resume_lines, yield_lines, SlotModel};
use super::state::{pid_in, place_after, ConfigDir, Custody, PlaceOutcome, PlaceStep, Teardown};

verus! {

// ------------------------------------------------------------------------------ the active set

/// The time stamp of a name is that of its first link, and a name without a link has none.
pub proof fn law_a_name_has_the_stamp_of_its_first_link(
    set: Seq<(Seq<char>, Option<u64>)>,
    name: Seq<char>,
    at: int,
)
    requires
        0 <= at <= set.len(),
        forall|i: int| 0 <= i < at ==> (#[trigger] set[i]).0 != name,
        at < set.len() ==> set[at].0 == name,
    ensures
        at < set.len() ==> stamp_in(set, name) == Some(set[at].1),
        at == set.len() ==> stamp_in(set, name) is None,
    decreases set.len(),
{
    if at > 0 {
        assert(set[0].0 != name);
        let rest = set.skip(1);
        assert forall|i: int| 0 <= i < at - 1 implies (#[trigger] rest[i]).0 != name by {
            assert(rest[i] == set[i + 1]);
        }
        law_a_name_has_the_stamp_of_its_first_link(rest, name, at - 1);
    }
}

/// A profile leaves where its link is gone, or was replaced since it was loaded; while its link is
/// the one it was loaded from, it stays.
pub proof fn law_a_profile_stays_while_its_link_does(
    slot: SlotModel,
    set: Seq<(Seq<char>, Option<u64>)>,
    at: int,
)
    requires
        0 <= at <= set.len(),
        forall|i: int| 0 <= i < at ==> (#[trigger] set[i]).0 != slot.name,
        at < set.len() ==> set[at].0 == slot.name,
    ensures
        at == set.len() ==> leaves(slot, set) == Some(Leaving::Gone),
        at < set.len() && set[at].1 == slot.stamp ==> leaves(slot, set) is None,
        at < set.len() && set[at].1 != slot.stamp ==> leaves(slot, set) == Some(Leaving::Replaced),
{
    law_a_name_has_the_stamp_of_its_first_link(set, slot.name, at);
}

/// Each applied profile either stays or leaves: those that stay are just those with no reason to
/// leave, and the others each depart once.
pub proof fn law_each_profile_stays_or_leaves(
    slots: Seq<SlotModel>,
    set: Seq<(Seq<char>, Option<u64>)>,
    slot: SlotModel,
)
    ensures
        staying(slots, set).len() + departing(slots, set).len() == slots.len(),
        staying(slots, set).contains(slot) <==> slots.contains(slot) && leaves(slot, set) is None,
    decreases slots.len(),
{
    if slots.len() > 0 {
        let fewer = slots.drop_last();
        law_each_profile_stays_or_leaves(fewer, set, slot);
        assert(slots =~= fewer.push(slots.last()));
        lemma_push_contains(fewer, slots.last(), slot);
        lemma_push_contains(staying(fewer, set), slots.last(), slot);
    }
}

/// A link that was refused stays refused exactly while it is the same link.
pub proof fn law_a_refusal_lasts_as_long_as_its_link(
    refused: Seq<(Seq<char>, Option<u64>)>,
    set: Seq<(Seq<char>, Option<u64>)>,
    link: (Seq<char>, Option<u64>),
)
    ensures
        still_refused(refused, set).contains(link) <==> refused.contains(link) && stamp_in(
            set,
            link.0,
        ) == Some(link.1),
    decreases refused.len(),
{
    if refused.len() > 0 {
        let fewer = refused.drop_last();
        law_a_refusal_lasts_as_long_as_its_link(fewer, set, link);
        assert(refused =~= fewer.push(refused.last()));
        lemma_push_contains(fewer, refused.last(), link);
        lemma_push_contains(still_refused(fewer, set), refused.last(), link);
    }
}

/// Whether slots are in the order of their names.
pub open spec fn are_by_name(slots: Seq<SlotModel>) -> bool {
    forall|i: int, j: int|
        0 <= i <= j < slots.len() ==> at_or_before((#[trigger] slots[i]).name, (
        #[trigger] slots[j]).name)
}

/// A profile that comes takes its place in the order of the names.
pub proof fn law_a_newcomer_takes_its_place_by_name(slots: Seq<SlotModel>, slot: SlotModel)
    requires
        are_by_name(slots),
    ensures
        0 <= place_for(slots, slot.name) <= slots.len(),
        are_by_name(slots.insert(place_for(slots, slot.name), slot)),
{
    let at = place_for(slots, slot.name);
    lemma_place(slots, slot.name);
    let all = slots.insert(at, slot);
    lemma_order_is_total(slot.name, slot.name);
    assert forall|i: int, j: int| 0 <= i <= j < all.len() implies at_or_before((
    #[trigger] all[i]).name, (#[trigger] all[j]).name) by {
        if i < at {
            assert(all[i] == slots[i]);
        }
        if i > at {
            assert(all[i] == slots[i - 1]);
        }
        if j < at {
            assert(all[j] == slots[j]);
        }
        if j > at {
            assert(all[j] == slots[j - 1]);
        }
    }
}

proof fn lemma_place(slots: Seq<SlotModel>, name: Seq<char>)
    requires
        are_by_name(slots),
    ensures
        0 <= place_for(slots, name) <= slots.len(),
        forall|i: int|
            0 <= i < place_for(slots, name) ==> at_or_before((#[trigger] slots[i]).name, name),
        forall|i: int|
            place_for(slots, name) <= i < slots.len() ==> at_or_before(
                name,
                (#[trigger] slots[i]).name,
            ),
    decreases slots.len(),
{
    if slots.len() > 0 {
        let last = slots.last();
        if at_or_before(last.name, name) {
            assert forall|i: int| 0 <= i < slots.len() implies at_or_before(
                (#[trigger] slots[i]).name,
                name,
            ) by {
                assert(slots[slots.len() - 1] == last);
                lemma_order_is_transitive(slots[i].name, last.name, name);
            }
        } else {
            let fewer = slots.drop_last();
            assert forall|i: int, j: int| 0 <= i <= j < fewer.len() implies at_or_before((
            #[trigger] fewer[i]).name, (#[trigger] fewer[j]).name) by {
                assert(fewer[i] == slots[i] && fewer[j] == slots[j]);
            }
            lemma_place(fewer, name);
            lemma_order_is_total(last.name, name);
            assert forall|i: int| 0 <= i < place_for(slots, name) implies at_or_before(
                (#[trigger] slots[i]).name,
                name,
            ) by {
                assert(fewer[i] == slots[i]);
            }
            assert forall|i: int|
                place_for(slots, name) <= i < slots.len() implies at_or_before(
                name,
                (#[trigger] slots[i]).name,
            ) by {
                if i < fewer.len() {
                    assert(fewer[i] == slots[i]);
                }
            }
        }
    }
}

// ---------------------------------------------------------------------------- who hears what

/// The events that stop a run are those of its emergency chords: the ordinary key of each, with
/// the modifier classes of the chord.
pub proof fn law_each_emergency_chord_has_its_event(
    chords: Seq<Seq<Key>>,
    key: Key,
    mods: Mods,
)
    ensures
        stop_signatures(chords).contains((key, mods)) <==> exists|i: int|
            0 <= i < chords.len() && primary(#[trigger] chords[i]) == Some(key) && classes(
                chords[i],
            ) == mods,
    decreases chords.len(),
{
    if chords.len() > 0 {
        let fewer = chords.drop_last();
        let last = chords.last();
        law_each_emergency_chord_has_its_event(fewer, key, mods);
        let before = stop_signatures(fewer);
        if let Some(own) = primary(last) {
            lemma_push_contains(before, (own, classes(last)), (key, mods));
        }
        if before.contains((key, mods)) {
            let i = choose|i: int|
                0 <= i < fewer.len() && primary(#[trigger] fewer[i]) == Some(key) && classes(
                    fewer[i],
                ) == mods;
            assert(chords[i] == fewer[i]);
        }
        if exists|i: int|
            0 <= i < chords.len() && primary(#[trigger] chords[i]) == Some(key) && classes(
                chords[i],
            ) == mods {
            let i = choose|i: int|
                0 <= i < chords.len() && primary(#[trigger] chords[i]) == Some(key) && classes(
                    chords[i],
                ) == mods;
            if i < fewer.len() {
                assert(fewer[i] == chords[i]);
            }
        }
        assert(chords[chords.len() - 1] == last);
    }
}

/// The press of an emergency chord stops the profiles that have it; its release stops nobody.
pub proof fn law_only_the_press_of_a_chord_stops(
    slot: SlotModel,
    chord: int,
    key: Key,
    mods: Mods,
)
    requires
        0 <= chord < slot.profile.emergency_stop.len(),
        primary(slot.profile.emergency_stop[chord]) == Some(key),
        classes(slot.profile.emergency_stop[chord]) == mods,
    ensures
        stops_slot(slot, (InputEvent { kind: EventKind::KeyDown(key), mods })),
        !stops_slot(slot, (InputEvent { kind: EventKind::KeyUp(key), mods })),
{
    law_each_emergency_chord_has_its_event(slot.profile.emergency_stop, key, mods);
}

/// An event belongs to a profile that grabbed its key with its modifiers, be it the press or the
/// release; the mouse belongs to nobody.
pub proof fn law_an_event_belongs_to_whoever_grabbed_it(
    slot: SlotModel,
    key: Key,
    event: InputEvent,
)
    ensures
        event.kind == EventKind::KeyDown(key) || event.kind == EventKind::KeyUp(key) ==> (
        has_grabbed(slot, event) <==> slot.grabbed.contains((key, event.mods))),
        !(event.kind is KeyDown || event.kind is KeyUp) ==> !has_grabbed(slot, event),
{
}

/// A trigger belongs to whoever is first on the list for it.
pub proof fn law_a_trigger_belongs_to_its_first_owner(
    list: Seq<(Signature, Seq<char>)>,
    signature: Signature,
    at: int,
)
    requires
        0 <= at <= list.len(),
        forall|i: int| 0 <= i < at ==> (#[trigger] list[i]).0 != signature,
        at < list.len() ==> list[at].0 == signature,
    ensures
        at < list.len() ==> owner_in(list, signature) == Some(list[at].1),
        at == list.len() ==> owner_in(list, signature) is None,
    decreases list.len(),
{
    if at > 0 {
        assert(list[0].0 != signature);
        let rest = list.skip(1);
        assert forall|i: int| 0 <= i < at - 1 implies (#[trigger] rest[i]).0 != signature by {
            assert(rest[i] == list[i + 1]);
        }
        law_a_trigger_belongs_to_its_first_owner(rest, signature, at - 1);
    }
}

/// Triggers are in one order, by their keys and then by their modifier classes: of two different
/// ones exactly one comes first.
pub proof fn law_triggers_have_one_order(a: Signature, b: Signature, c: Signature)
    ensures
        key_number(a.0) == key_number(b.0) <==> a.0 == b.0,
        comes_before(a, b) || comes_before(b, a),
        comes_before(a, b) && comes_before(b, a) ==> a == b,
        comes_before(a, b) && comes_before(b, c) ==> comes_before(a, c),
        a.0 == b.0 ==> (comes_before(a, b) <==> mods_number(a.1) <= mods_number(b.1)),
{
    crate::names::law_each_set_of_classes_has_its_number(a.1, b.1);
}

/// A trigger is called by the section of the first binding that it fires.
pub proof fn law_a_trigger_is_called_by_its_binding(
    binds: Seq<BindModel>,
    key: Key,
    mods: Mods,
    at: int,
)
    requires
        0 <= at < binds.len(),
        primary(binds[at].trigger) == Some(key),
        classes(binds[at].trigger) == mods,
        forall|i: int|
            0 <= i < at ==> !(primary((#[trigger] binds[i]).trigger) == Some(key) && classes(
                binds[i].trigger,
            ) == mods),
    ensures
        label(binds, (key, mods)) == "[binds.\""@ + binds[at].trigger_text + "\"]"@,
    decreases binds.len(),
{
    if at > 0 {
        assert(!(primary(binds[0].trigger) == Some(key) && classes(binds[0].trigger) == mods));
        let rest = binds.skip(1);
        assert forall|i: int| 0 <= i < at - 1 implies !(primary((#[trigger] rest[i]).trigger)
            == Some(key) && classes(rest[i].trigger) == mods) by {
            assert(rest[i] == binds[i + 1]);
        }
        law_a_trigger_is_called_by_its_binding(rest, key, mods, at - 1);
    }
    assert(bracketed(binds[at].trigger_text) == "[binds.\""@ + binds[at].trigger_text + "\"]"@);
}

// ----------------------------------------------------------------------------------- the grabs

/// A live profile that wants its keys no more stops its grabs, releases what it held in reverse and
/// holds nothing; one that was not live does nothing.
pub proof fn law_a_profile_that_rests_lets_go(slot: SlotModel)
    ensures
        slot.live ==> {
            let (after, plan) = planned(slot, None);
            &&& !after.live
            &&& after.held.len() == 0
            &&& after.grabbed.len() == 0
            &&& after.yielded.len() == 0
            &&& plan.stop
            &&& plan.grab is None
            &&& plan.releases == releases(slot.held.reverse())
        },
        !slot.live ==> {
            let (after, plan) = planned(slot, None);
            &&& after == slot
            &&& !plan.stop
            &&& plan.grab is None
            &&& plan.releases.len() == 0
            &&& plan.lines.len() == 0
        },
{
}

/// A profile whose share of the triggers has not changed keeps its grabs. Where it has, the old
/// grabs are stopped and the new share is grabbed, unless it is empty; what it holds down stays.
pub proof fn law_a_changed_share_is_grabbed_anew(slot: SlotModel, claim: ClaimModel)
    ensures
        ({
            let (after, plan) = planned(slot, Some(claim));
            &&& slot.live && slot.grabbed == claim.sigs ==> !plan.stop && plan.grab is None
                && after.live && after.grabbed == slot.grabbed
            &&& !(slot.live && slot.grabbed == claim.sigs) ==> plan.stop == slot.live
            &&& !(slot.live && slot.grabbed == claim.sigs) && claim.chords.len() > 0 ==> plan.grab
                == Some(claim.chords)
            &&& !(slot.live && slot.grabbed == claim.sigs) && claim.chords.len() == 0
                ==> plan.grab is None && !after.live
            &&& plan.releases.len() == 0
            &&& after.held == slot.held
        }),
{
}

/// A profile whose grabs are granted is live with its share; one whose grabs are refused is
/// blocked, and says so the first time only.
pub proof fn law_a_refused_grab_blocks_a_profile(
    slot: SlotModel,
    claim: ClaimModel,
    was_live: bool,
    why: Seq<char>,
)
    ensures
        ({
            let (after, lines) = grabbed(slot, claim, was_live, None);
            &&& after.live && !after.blocked
            &&& after.grabbed == claim.sigs
            &&& after.yielded == claim.yielded
            &&& lines.len() == 0 <==> was_live
        }),
        ({
            let (after, lines) = grabbed(slot, claim, was_live, Some(why));
            &&& after.blocked
            &&& after.live == slot.live
            &&& after.grabbed == slot.grabbed
            &&& lines.len() == 0 <==> slot.blocked
        }),
{
}

// -------------------------------------------------------------------------------- the manager

/// Maintenance comes round every fifty milliseconds, and with every fourth pass the directory is
/// read.
pub proof fn law_every_fourth_pass_reads_the_directory(s: ManagerLoop, now: u64)
    requires
        now + 50_000_000 <= u64::MAX,
    ensures
        s.phase is Rested ==> s.after(LoopReply::Time(now)).asks() == LoopRequest::Wait(
            (now + 50_000_000) as u64,
        ),
        s.phase is Maintaining ==> s.asks() == (LoopRequest::Maintain { scan: s.passes % 4 == 0 }),
        s.phase is Due && now >= s.next ==> s.after(LoopReply::Time(now)).asks() is Maintain,
        s.phase is Due && now < s.next ==> s.after(LoopReply::Time(now)).asks() == LoopRequest::Wait(
            s.next,
        ),
        s.phase is Maintaining && s.passes < u32::MAX ==> s.after(
            (LoopReply::Maintained { empty: false }),
        ).passes == s.passes + 1,
{
}

/// An event is dealt with as soon as it comes, and then the manager goes on; the end of every
/// source stops it, and what fails, fails it.
pub proof fn law_an_event_never_waits_for_maintenance(s: ManagerLoop, event: InputEvent)
    ensures
        s.phase is Waiting ==> s.after(LoopReply::Woke(Wake::Event(event))).asks()
            == LoopRequest::Dispatch(event),
        s.phase is Waiting ==> s.after(LoopReply::Woke(Wake::Deadline)).asks() is Interrupted,
        s.phase is Waiting ==> s.after(LoopReply::Woke(Wake::Interrupted)).asks()
            == LoopRequest::Stop(StopReason::SourcesClosed),
        s.phase == LoopPhase::Dispatching(event) ==> s.after(LoopReply::Done).asks() is Interrupted,
        s.phase == LoopPhase::Dispatching(event) ==> s.after(LoopReply::Failed).asks() is Fail,
        s.phase is Maintaining ==> s.after(LoopReply::Failed).asks() is Fail,
{
}

/// Each reason to stop has its own word.
pub proof fn law_each_reason_to_stop_has_its_word()
    ensures
        reason_text(StopReason::Interrupted) == "interrupted"@,
        reason_text(StopReason::NoProfilesLeft) == "no profiles left"@,
        reason_text(StopReason::SourcesClosed) == "event sources closed"@,
{
}

/// The number in a lock file is read with white space around it; without a number there is none.
pub proof fn law_a_process_number_reads_back(
    front: Seq<char>,
    pid: u32,
    back: Seq<char>,
)
    requires
        forall|i: int| 0 <= i < front.len() ==> is_space(#[trigger] front[i]),
        forall|i: int| 0 <= i < back.len() ==> is_space(#[trigger] back[i]),
    ensures
        pid_in(Some(front + decimal(pid as nat) + back)) == Some(pid),
        pid_in(None) is None,
{
    let text = decimal(pid as nat);
    lemma_decimal_has_no_spaces(pid as nat);
    law_trimming_takes_white_space_off_both_ends(front, text, back);
    law_a_number_reads_back(pid as nat, u32::MAX as nat);
}

proof fn lemma_decimal_has_no_spaces(n: nat)
    ensures
        decimal(n).len() > 0,
        !is_space(decimal(n)[0]),
        !is_space(decimal(n).last()),
    decreases n,
{
    if n >= 10 {
        lemma_decimal_has_no_spaces(n / 10);
        assert(decimal(n)[0] == decimal(n / 10)[0]);
    }
}

/// A link is put in place beside the set and renamed over the old one. Only where the two are on
/// different file systems is the old link removed first; any other failure leaves it alone.
pub proof fn law_a_link_is_renamed_into_place(outcome: PlaceOutcome)
    ensures
        place_after(PlaceStep::ClearStaging, outcome) is LinkStaging,
        place_after(PlaceStep::LinkStaging, PlaceOutcome::Done) is Rename,
        !(outcome is Done) ==> place_after(PlaceStep::LinkStaging, outcome) is FailedStaging,
        place_after(PlaceStep::Rename, PlaceOutcome::Done) is Placed,
        place_after(PlaceStep::Rename, PlaceOutcome::CrossDevice) is AbandonStaging,
        place_after(PlaceStep::Rename, PlaceOutcome::Failed) is GiveUp,
        place_after(PlaceStep::GiveUp, outcome) is FailedLink,
        place_after(PlaceStep::AbandonStaging, outcome) is RemoveOld,
        place_after(PlaceStep::RemoveOld, outcome) is LinkDirect,
        place_after(PlaceStep::LinkDirect, PlaceOutcome::Done) is Placed,
        !(outcome is Done) ==> place_after(PlaceStep::LinkDirect, outcome) is FailedLink,
{
}

// ------------------------------------------------------------------------------------ a run

/// A run hands each event on, goes back to listening when it is dealt with, and ends when its
/// source does, when an emergency stop is pressed, or when sending fails: then it lets go of what
/// is held, the last pressed first, delivers that, has the backend release the rest, and is over.
pub proof fn law_a_run_ends_in_good_order(
    c: Context,
    s: SessionState,
    event: InputEvent,
    outcome: Outcome,
    ending: Ending,
)
    ensures
        s.stage is Listening ==> {
            &&& session_asking(c, s) == Request::Wait(None)
            &&& session_next(c, s, Reply::Woke(Wake::Event(event))) == (SessionState {
                stage: Stage::Executing,
                inner: handling(c, s.inner, event),
            })
            &&& session_next(c, s, Reply::Woke(Wake::Interrupted)).stage == Stage::Draining(
                Ending::Ended(Outcome::SourceClosed),
            )
            &&& session_next(c, s, Reply::Woke(Wake::Deadline)) == s
        },
        s.stage is Executing && s.inner.phase == Phase::Over(None) ==> session_next(
            c,
            s,
            Reply::Done,
        ).stage is Listening,
        s.stage is Executing && s.inner.phase == Phase::Over(Some(outcome)) ==> session_next(
            c,
            s,
            Reply::Done,
        ).stage == Stage::Draining(Ending::Ended(outcome)),
        s.stage is Executing && s.inner.phase is Failed ==> session_next(c, s, Reply::Done).stage
            == Stage::Draining(Ending::SendFailed),
        s.stage == Stage::Draining(ending) && s.inner.held.len() > 0 ==> session_asking(c, s)
            == Request::EmitQuiet(s.inner.held.last().released()) && session_next(
            c,
            s,
            Reply::Done,
        ).inner.held == s.inner.held.drop_last() && session_next(c, s, Reply::Done).stage
            == s.stage,
        s.stage == Stage::Draining(ending) && s.inner.held.len() == 0 ==> session_asking(
            c,
            session_next(c, s, Reply::Done),
        ) is FlushQuiet,
        s.stage == Stage::Flushing(ending) ==> session_asking(
            c,
            session_next(c, s, Reply::Done),
        ) is ReleaseAll,
        s.stage == Stage::Releasing(ending) ==> session_next(c, s, Reply::Done).stage
            == Stage::Ended(ending),
        s.stage == Stage::Ended(Ending::Ended(outcome)) ==> session_asking(c, s)
            == Request::Handled(Some(outcome)),
        s.stage == Stage::Ended(Ending::SendFailed) ==> session_asking(c, s) is Failed,
{
}

// ------------------------------------------------------------------------------------ an apply

/// An apply waits out a teardown, drops the marker of one that is gone, and goes on only where there
/// is none; it links to a manager that runs already and is done, or manages the set itself. What
/// fails before that ends it with the error.
pub proof fn law_an_apply_runs_its_course(s: ApplyState, pid: u32, code: u8, error: Error)
    ensures
        s.stage is Looking ==> {
            &&& s.next(ApplyReply::Looked(Teardown::Wait)).stage is Pausing
            &&& s.next(ApplyReply::Looked(Teardown::Stale)).stage is Dropping
            &&& s.count > 0 ==> s.next(ApplyReply::Looked(Teardown::Nothing)).stage is Surveying
            &&& s.count == 0 ==> s.next(ApplyReply::Looked(Teardown::Nothing)).stage is Locking
        },
        s.stage is Pausing || s.stage is Dropping ==> s.next(ApplyReply::Done).stage is Looking,
        s.stage is Locking ==> {
            &&& s.next(ApplyReply::Locked(Custody::Ours)).stage == ApplyStage::Announcing(None)
            &&& s.next(ApplyReply::Locked(Custody::Theirs(pid))).stage == ApplyStage::Announcing(
                Some(pid),
            )
        },
        s.stage == ApplyStage::Announcing(Some(pid)) ==> s.next(ApplyReply::Done).stage
            == ApplyStage::Over(Ok::<u8, Error>(0)),
        s.stage == ApplyStage::Announcing(None) ==> s.next(ApplyReply::Done).stage is Managing,
        s.stage is Managing ==> s.next(ApplyReply::Managed(code)).stage == ApplyStage::Over(
            Ok::<u8, Error>(code),
        ),
        s.stage is Managing ==> s.next(ApplyReply::Failed(error)).stage == ApplyStage::Clearing(
            error,
        ),
        s.stage == ApplyStage::Clearing(error) ==> s.next(ApplyReply::Done).stage
            == ApplyStage::Over(Err::<u8, Error>(error)),
        s.stage is Loading || s.stage is Looking || s.stage is Surveying || s.stage is Linking
            || s.stage is Locking ==> s.next(ApplyReply::Failed(error)).stage == ApplyStage::Over(
            Err::<u8, Error>(error),
        ),
{
}

/// The profiles that stay beside those being applied are just those of the set with other names.
pub proof fn law_a_profile_does_not_meet_what_it_replaces(
    live: Seq<MemberModel>,
    applied: Seq<MemberModel>,
    member: MemberModel,
)
    ensures
        beside(live, applied).contains(member) <==> live.contains(member) && !is_named(
            applied,
            member.0,
        ),
    decreases live.len(),
{
    if live.len() > 0 {
        let fewer = live.drop_last();
        law_a_profile_does_not_meet_what_it_replaces(fewer, applied, member);
        assert(live =~= fewer.push(live.last()));
        lemma_push_contains(fewer, live.last(), member);
        lemma_push_contains(beside(fewer, applied), live.last(), member);
    }
}

/// An apply to a manager that runs already says that it adds where something is new, and that it
/// updates where something was applied before; both where both are so.
pub proof fn law_an_attached_apply_says_what_it_does(
    placed: Seq<PlacedModel>,
    pid: u32,
    colour: bool,
)
    requires
        placed.len() > 0,
    ensures
        (forall|i: int| 0 <= i < placed.len() ==> (#[trigger] placed[i]).0 is Linked)
            ==> attached_lines(placed, pid, colour) == seq![attached_text(pid, colour)],
        (forall|i: int| 0 <= i < placed.len() ==> (#[trigger] placed[i]).0 is Reapplied)
            ==> attached_lines(placed, pid, colour) == seq![reattached_text(pid, colour)],
        (exists|i: int| 0 <= i < placed.len() && (#[trigger] placed[i]).0 is Linked) && (exists|
            i: int,
        |
            0 <= i < placed.len() && (#[trigger] placed[i]).0 is Reapplied) ==> attached_lines(
            placed,
            pid,
            colour,
        ) == seq![attached_text(pid, colour), reattached_text(pid, colour)],
{
    assert(placed[0].0 is Linked || placed[0].0 is Reapplied);
    let none: Seq<Seq<char>> = seq![];
    let new = seq![attached_text(pid, colour)];
    let old = seq![reattached_text(pid, colour)];
    assert(new + none =~= new);
    assert(none + old =~= old);
    assert(new + old =~= seq![attached_text(pid, colour), reattached_text(pid, colour)]);
}

// ------------------------------------------------------------------------------- what is said

/// A profile that is new is announced as applied with how many bindings it has, one whose link was
/// replaced as applied already, and how to stop it is said where there is a way and it is asked
/// for.
pub proof fn law_a_profile_is_announced_for_what_it_is(
    lexicon: &Lexicon,
    link: Seq<char>,
    binds: nat,
    hint: Seq<char>,
    profile: ProfileModel,
    colour: bool,
)
    ensures
        announcement(Applied::Linked, link, binds, None) == seq![
            "applied: "@ + link + " ("@ + decimal(binds) + " binds)"@,
        ],
        announcement(Applied::Reapplied, link, binds, None) == seq!["already applied: "@ + link],
        announcement(Applied::Linked, link, binds, Some(hint)) == announcement(
            Applied::Linked,
            link,
            binds,
            None,
        ).push(hint),
        stop_hint_text(lexicon, profile.emergency_stop, colour) is None
            <==> profile.emergency_stop.len() == 0,
        admission_lines(link, false, profile, lexicon, colour)[0] == "profile applied"@ + ": "@
            + link + " ("@ + decimal(profile.binds.len()) + " binds)"@,
        admission_lines(link, true, profile, lexicon, colour)[0] == "profile updated"@ + ": "@
            + link + " ("@ + decimal(profile.binds.len()) + " binds)"@,
        admission_lines(link, false, profile, lexicon, colour).len() == (
        if profile.emergency_stop.len() == 0 {
            1int
        } else {
            2
        }),
{
    let first = "applied: "@ + link + " ("@ + decimal(binds) + " binds)"@;
    assert(seq![first].push(hint) =~= seq![first, hint]);
}

/// A profile says that it yields a trigger when it begins to, to whom, and that it has it back when
/// it has; what has not changed is not said again.
pub proof fn law_yielding_is_said_when_it_begins_and_ends(
    slot: SlotModel,
    was: Seq<(Signature, Seq<char>)>,
    now: Seq<(Signature, Seq<char>)>,
    entry: (Signature, Seq<char>),
)
    ensures
        yield_lines(slot, Seq::empty()).len() == 0,
        owner_in(slot.yielded, entry.0) is None ==> yield_lines(slot, now.push(entry))
            == yield_lines(slot, now).push(
            "bind yielded: "@ + slot.name + " "@ + label(slot.profile.binds, entry.0) + " -> "@
                + entry.1,
        ),
        owner_in(slot.yielded, entry.0) is Some ==> yield_lines(slot, now.push(entry))
            == yield_lines(slot, now),
        resume_lines(slot, Seq::empty(), now).len() == 0,
        owner_in(now, entry.0) is None ==> resume_lines(slot, was.push(entry), now)
            == resume_lines(slot, was, now).push(
            "bind resumed: "@ + slot.name + " "@ + label(slot.profile.binds, entry.0),
        ),
        owner_in(now, entry.0) is Some ==> resume_lines(slot, was.push(entry), now)
            == resume_lines(slot, was, now),
{
    assert(now.push(entry).drop_last() =~= now);
    assert(was.push(entry).drop_last() =~= was);
}

/// Every binding of every profile is looked at for circles, with the name of its profile.
pub proof fn law_every_binding_is_looked_at_for_circles(
    slots: Seq<SlotModel>,
    slot: SlotModel,
    members: Seq<MemberModel>,
    member: MemberModel,
    name: Seq<char>,
    profile: ProfileModel,
)
    ensures
        slot_bindings(Seq::empty()).len() == 0,
        slot_bindings(slots.push(slot)) == slot_bindings(slots) + slot.profile.binds.map_values(
            |bind: BindModel| (slot.name, bind),
        ),
        members_bindings(Seq::empty()).len() == 0,
        members_bindings(members.push(member)) == members_bindings(members)
            + member.1.binds.map_values(|bind: BindModel| (member.0, bind)),
        bindings_with(slots, name, profile) == slot_bindings(slots) + profile.binds.map_values(
            |bind: BindModel| (name, bind),
        ),
{
    assert(slots.push(slot).drop_last() =~= slots);
    assert(members.push(member).drop_last() =~= members);
}

// ------------------------------------------------------------------------------ what is chosen

/// Names that are given choose one profile each, in order, and one that means none refuses them
/// all.
pub proof fn law_each_given_name_chooses_its_profile(
    tokens: Seq<Seq<char>>,
    token: Seq<char>,
    names: Seq<Seq<char>>,
    colour: bool,
)
    ensures
        all_resolved(Seq::empty(), names, colour) == Ok::<Seq<Seq<char>>, Seq<char>>(seq![]),
        all_resolved(tokens, names, colour) matches Ok(before) ==> match resolved(token, names) {
            Some(name) => all_resolved(tokens.push(token), names, colour) == Ok::<
                Seq<Seq<char>>,
                Seq<char>,
            >(before.push(name)),
            None => all_resolved(tokens.push(token), names, colour) is Err,
        },
        all_resolved(tokens, names, colour) is Err ==> all_resolved(
            tokens.push(token),
            names,
            colour,
        ) == all_resolved(tokens, names, colour),
{
    assert(tokens.push(token).drop_last() =~= tokens);
}

/// What is picked is picked word by word: each word picks its profile, one that asks for all picks
/// every one, and one that means none refuses the whole.
pub proof fn law_each_word_of_a_choice_counts(
    token: Seq<char>,
    rest: Seq<Seq<char>>,
    names: Seq<Seq<char>>,
    colour: bool,
    chosen: Seq<Seq<char>>,
)
    ensures
        picked(Seq::empty(), names, colour, chosen) == Ok::<Option<Seq<Seq<char>>>, Seq<char>>(
            Some(chosen),
        ),
        lowered(token) == "all"@ ==> picked(seq![token] + rest, names, colour, chosen) == Ok::<
            Option<Seq<Seq<char>>>,
            Seq<char>,
        >(None),
        pick(token, names, colour) matches Pick::One(name) ==> picked(
            seq![token] + rest,
            names,
            colour,
            chosen,
        ) == picked(rest, names, colour, chosen.push(name)),
        pick(token, names, colour) is Refused ==> picked(
            seq![token] + rest,
            names,
            colour,
            chosen,
        ) is Err,
{
    assert((seq![token] + rest).skip(1) =~= rest);
}

/// An apply asks for one thing at a time, and for what its stage is: each file in turn, then
/// whether somebody is tearing down, the set, each link in turn, the lock, and what follows.
pub proof fn law_an_apply_asks_for_what_comes_next(
    request: ApplyRequest,
    s: ApplyState,
    lexicon: &Lexicon,
    colour: bool,
    files: nat,
)
    requires
        is_asked(request, s, lexicon, colour),
    ensures
        s.stage is Loading ==> (request matches ApplyRequest::Load(i) && i == s.profiles.len()),
        s.stage is Looking ==> request is Look,
        s.stage is Surveying ==> request is Survey,
        s.stage is Dropping ==> request is DropMarker,
        s.stage is Pausing ==> request is Pause,
        s.stage is Linking ==> (request matches ApplyRequest::Link(i) && i == s.placed.len()),
        s.stage is Locking ==> request is Lock,
        s.stage is Managing ==> request is Manage,
        s.stage is Over ==> request is Over,
        s.stage is Announcing ==> request is Print,
        s.stage is Clearing ==> (request matches ApplyRequest::Clear(names) && texts(names@)
            == s.placed.map_values(|placed: PlacedModel| placed.2)),
        fresh_apply(files).profiles.len() == 0,
        fresh_apply(files).placed.len() == 0,
        fresh_apply(files).stage is Loading <==> files > 0,
{
}

/// A manager that stopped says why and how many profiles it unapplied; an interrupt leaves the line
/// of the terminal first.
pub proof fn law_a_manager_says_why_it_stopped(cleared: u64)
    ensures
        farewell_text(StopReason::NoProfilesLeft, cleared) == ""@ + "stopped ("@
            + "no profiles left"@ + "); "@ + decimal(cleared as nat)
            + " profile(s) unapplied \u{2014} nothing is enforced now"@,
        farewell_text(StopReason::SourcesClosed, cleared) == ""@ + "stopped ("@
            + "event sources closed"@ + "); "@ + decimal(cleared as nat)
            + " profile(s) unapplied \u{2014} nothing is enforced now"@,
        farewell_text(StopReason::Interrupted, cleared) == "\n"@ + "stopped ("@ + "interrupted"@
            + "); "@ + decimal(cleared as nat)
            + " profile(s) unapplied \u{2014} nothing is enforced now"@,
{
}

/// The state is kept where it is told to be, else below the desktop's configuration directory, else
/// below the home directory.
pub proof fn law_the_state_has_its_place()
    ensures
        ConfigDir::Given.parts().len() == 0,
        ConfigDir::Xdg.parts() == seq!["sequencer"@],
        ConfigDir::Home.parts() == seq![".config"@, "sequencer"@],
{
}

} // verus!
