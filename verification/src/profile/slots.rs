//! The applied profiles at run time: which of them are live, and with which triggers.
use vstd::prelude::*;

use crate::input::{EmitAction, Holdable, Key};
use crate::text::{lowered, texts};

use super::claims::{
    all_owned, claim_of, claim_triggers, label, label_of, owned_view, owner_in, owner_of, Claim,
    ClaimModel, Owned, Signature,
};
use super::model::{chords_view, Profile, ProfileModel};
use super::program::{matches_pattern, program_matches};
use super::run::{drain_held, releases, stop_chords, stop_signatures};

verus! {

/// One applied profile and where it stands.
#[derive(Debug)]
pub struct Slot {
    pub name: String,
    pub profile: Profile,
    /// What its run holds down.
    pub held: Vec<Holdable>,
    /// Whether its triggers are grabbed at all.
    pub live: bool,
    /// The signatures that its grabs hold: an event belongs to whoever grabbed it.
    pub grabbed: Vec<Signature>,
    /// The signatures that it yielded, and to whom, in the order of the signatures.
    pub yielded: Vec<Owned>,
    /// The time stamp of its link when it was loaded.
    pub stamp: Option<u64>,
    /// Whether it wants to be live.
    pub want: bool,
    /// Whether its grabs were refused last time.
    pub blocked: bool,
}

/// An applied profile as a mathematical value.
#[verifier::ext_equal]
pub struct SlotModel {
    pub name: Seq<char>,
    pub profile: ProfileModel,
    pub held: Seq<Holdable>,
    pub live: bool,
    pub grabbed: Seq<Signature>,
    pub yielded: Seq<(Signature, Seq<char>)>,
    pub stamp: Option<u64>,
    pub want: bool,
    pub blocked: bool,
}

impl View for Slot {
    type V = SlotModel;

    open spec fn view(&self) -> SlotModel {
        SlotModel {
            name: self.name@,
            profile: self.profile@,
            held: self.held@,
            live: self.live,
            grabbed: self.grabbed@,
            yielded: owned_view(self.yielded@),
            stamp: self.stamp,
            want: self.want,
            blocked: self.blocked,
        }
    }
}

/// The mathematical values of a list of slots.
pub open spec fn slots_view(slots: Seq<Slot>) -> Seq<SlotModel> {
    slots.map_values(|slot: Slot| slot@)
}

// ------------------------------------------------------------------------ who wants to be live

/// Whether a profile may run while a program has the focus: always where it names no program, and
/// as it was before where the focus cannot be read.
pub open spec fn wants(program: Option<Seq<char>>, class: Option<Seq<char>>, before: bool) -> bool {
    match program {
        None => true,
        Some(pattern) => match class {
            Some(class) => matches_pattern(lowered(pattern), lowered(class)),
            None => before,
        },
    }
}

/// A slot that has looked at the focus.
pub open spec fn wanting(slot: SlotModel, class: Option<Seq<char>>) -> SlotModel {
    SlotModel { want: wants(slot.profile.program, class, slot.want), ..slot }
}

/// The text of an optional string.
pub open spec fn text_of_option(text: Option<String>) -> Option<Seq<char>> {
    match text {
        Some(text) => Some(text@),
        None => None,
    }
}

/// Whether a profile may run while a program has the focus.
pub fn may_run(program: &Option<String>, class: &Option<String>, before: bool) -> (r: bool)
    ensures
        r == wants(text_of_option(*program), text_of_option(*class), before),
{
    match program {
        None => true,
        Some(pattern) => match class {
            Some(class) => program_matches(pattern.as_str(), class.as_str()),
            None => before,
        },
    }
}

/// Lets every slot look at the focus.
pub fn decide_wants(slots: &mut Vec<Slot>, class: &Option<String>)
    ensures
        slots_view(final(slots)@) == slots_view(old(slots)@).map_values(
            |slot: SlotModel| wanting(slot, text_of_option(*class)),
        ),
{
    let ghost before = slots_view(slots@);
    let mut i: usize = 0;
    while i < slots.len()
        invariant
            i <= slots@.len(),
            before == slots_view(old(slots)@),
            slots@.len() == before.len(),
            forall|k: int|
                0 <= k < i ==> (#[trigger] slots@[k])@ == wanting(
                    before[k],
                    text_of_option(*class),
                ),
            forall|k: int| i <= k < slots@.len() ==> (#[trigger] slots@[k])@ == before[k],
        decreases slots@.len() - i,
    {
        let want = may_run(&slots[i].profile.program, class, slots[i].want);
        slots[i].want = want;
        i += 1;
    }
    assert(slots_view(slots@) =~= before.map_values(
        |slot: SlotModel| wanting(slot, text_of_option(*class)),
    ));
}

/// Whether a running sequence may go on: unless the focus can be read and another program has it.
pub fn licensed(program: &Option<String>, class: &Option<String>) -> (r: bool)
    ensures
        r == wants(text_of_option(*program), text_of_option(*class), true),
{
    may_run(program, class, true)
}

// ------------------------------------------------------------------------- who gets which trigger

/// The owner that every emergency chord has.
pub const EMERGENCY_OWNER: &'static str = "the emergency grab";

/// The emergency chords of all slots, dormant ones too, as owned signatures.
pub open spec fn stops_taken(slots: Seq<SlotModel>) -> Seq<(Signature, Seq<char>)>
    decreases slots.len(),
{
    if slots.len() == 0 {
        seq![]
    } else {
        stops_taken(slots.drop_last()) + all_owned(
            stop_signatures(slots.last().profile.emergency_stop),
            EMERGENCY_OWNER@,
        )
    }
}

/// Whether a slot claims in a tier: first those that name a program, then the others.
pub open spec fn in_tier(slot: SlotModel, gated: bool) -> bool {
    slot.want && (slot.profile.program is Some) == gated
}

/// What is taken once the first `n` slots of a tier have claimed.
pub open spec fn taken_in_tier(
    slots: Seq<SlotModel>,
    gated: bool,
    taken: Seq<(Signature, Seq<char>)>,
    n: int,
) -> Seq<(Signature, Seq<char>)>
    decreases n,
{
    if n <= 0 {
        taken
    } else {
        let before = taken_in_tier(slots, gated, taken, n - 1);
        if in_tier(slots[n - 1], gated) {
            before + all_owned(
                claim_of(slots[n - 1].profile.binds, before).sigs,
                slots[n - 1].name,
            )
        } else {
            before
        }
    }
}

/// What is taken when it is a slot's turn: the emergency chords, then whatever the slots that
/// name a program claim, then whatever the others do, each tier in the order of the names.
pub open spec fn taken_before(slots: Seq<SlotModel>, i: int) -> Seq<(Signature, Seq<char>)> {
    let stops = stops_taken(slots);
    if slots[i].profile.program is Some {
        taken_in_tier(slots, true, stops, i)
    } else {
        taken_in_tier(slots, false, taken_in_tier(slots, true, stops, slots.len() as int), i)
    }
}

/// The share of a slot; none where it does not want to be live.
pub open spec fn slot_claim(slots: Seq<SlotModel>, i: int) -> Option<ClaimModel> {
    if slots[i].want {
        Some(claim_of(slots[i].profile.binds, taken_before(slots, i)))
    } else {
        None
    }
}

/// The mathematical value of an optional share.
pub open spec fn claim_view(claim: Option<Claim>) -> Option<ClaimModel> {
    match claim {
        Some(claim) => Some(claim@),
        None => None,
    }
}

fn take_stops(slots: &Vec<Slot>) -> (taken: Vec<Owned>)
    ensures
        owned_view(taken@) == stops_taken(slots_view(slots@)),
{
    let mut taken: Vec<Owned> = Vec::new();
    let ghost all = slots_view(slots@);
    let mut i: usize = 0;
    assert(all.take(0) =~= seq![]);
    assert(owned_view(taken@) =~= seq![]);
    while i < slots.len()
        invariant
            i <= slots@.len(),
            all == slots_view(slots@),
            owned_view(taken@) == stops_taken(all.take(i as int)),
        decreases slots@.len() - i,
    {
        proof {
            assert(all.take(i + 1).drop_last() =~= all.take(i as int));
            assert(all.take(i + 1).last() == slots@[i as int]@);
        }
        let stops = stop_chords(&slots[i].profile);
        let ghost before = owned_view(taken@);
        let mut k: usize = 0;
        assert(owned_view(taken@) =~= before + all_owned(stops@.take(0), EMERGENCY_OWNER@));
        while k < stops.len()
            invariant
                k <= stops@.len(),
                owned_view(taken@) == before + all_owned(
                    stops@.take(k as int),
                    EMERGENCY_OWNER@,
                ),
            decreases stops@.len() - k,
        {
            let owned = Owned { signature: stops[k], owner: EMERGENCY_OWNER.to_owned() };
            let ghost entry = owned@;
            let ghost sofar = owned_view(taken@);
            taken.push(owned);
            k += 1;
            assert(owned_view(taken@) =~= sofar.push(entry));
            assert(owned_view(taken@) =~= before + all_owned(
                stops@.take(k as int),
                EMERGENCY_OWNER@,
            ));
        }
        assert(stops@.take(stops@.len() as int) =~= stops@);
        i += 1;
    }
    assert(all.take(all.len() as int) =~= all);
    taken
}

fn claim_tier(slots: &Vec<Slot>, gated: bool, taken: &mut Vec<Owned>, claims: &mut Vec<Option<Claim>>)
    requires
        old(claims)@.len() == slots@.len(),
    ensures
        final(claims)@.len() == slots@.len(),
        owned_view(final(taken)@) == taken_in_tier(
            slots_view(slots@),
            gated,
            owned_view(old(taken)@),
            slots@.len() as int,
        ),
        forall|i: int|
            0 <= i < slots@.len() ==> claim_view(#[trigger] final(claims)@[i]) == (if in_tier(
                slots_view(slots@)[i],
                gated,
            ) {
                Some(
                    claim_of(
                        slots_view(slots@)[i].profile.binds,
                        taken_in_tier(slots_view(slots@), gated, owned_view(old(taken)@), i),
                    ),
                )
            } else {
                claim_view(old(claims)@[i])
            }),
{
    let ghost all = slots_view(slots@);
    let ghost first = owned_view(taken@);
    let ghost before = claims@;
    let mut i: usize = 0;
    while i < slots.len()
        invariant
            i <= slots@.len(),
            all == slots_view(slots@),
            first == owned_view(old(taken)@),
            before == old(claims)@,
            before.len() == slots@.len(),
            claims@.len() == slots@.len(),
            owned_view(taken@) == taken_in_tier(all, gated, first, i as int),
            forall|k: int| i <= k < claims@.len() ==> #[trigger] claims@[k] == before[k],
            forall|k: int|
                0 <= k < i ==> claim_view(#[trigger] claims@[k]) == (if in_tier(all[k], gated) {
                    Some(
                        claim_of(
                            all[k].profile.binds,
                            taken_in_tier(all, gated, first, k),
                        ),
                    )
                } else {
                    claim_view(before[k])
                }),
        decreases slots@.len() - i,
    {
        assert(all[i as int] == slots@[i as int]@);
        if slots[i].want && slots[i].profile.program.is_some() == gated {
            let claim = claim_triggers(&slots[i].profile, slots[i].name.as_str(), taken);
            claims.set(i, Some(claim));
        }
        i += 1;
    }
}

/// The share of each slot in the triggers, in order of precedence.
pub fn claim_all(slots: &Vec<Slot>) -> (claims: Vec<Option<Claim>>)
    ensures
        claims@.len() == slots@.len(),
        forall|i: int|
            0 <= i < slots@.len() ==> claim_view(#[trigger] claims@[i]) == slot_claim(
                slots_view(slots@),
                i,
            ),
{
    let mut taken = take_stops(slots);
    let mut claims: Vec<Option<Claim>> = Vec::new();
    let mut n: usize = 0;
    while n < slots.len()
        invariant
            n <= slots@.len(),
            claims@.len() == n,
            forall|i: int| 0 <= i < n ==> (#[trigger] claims@[i]) is None,
        decreases slots@.len() - n,
    {
        claims.push(None);
        n += 1;
    }
    claim_tier(slots, true, &mut taken, &mut claims);
    claim_tier(slots, false, &mut taken, &mut claims);
    claims
}

// ------------------------------------------------------------------------ what to do with a slot

/// What the surroundings have to do for a slot, in this order: stop its grabs, release what it
/// held, say the lines, and grab the chords.
#[derive(Debug)]
pub struct SlotPlan {
    pub stop: bool,
    pub releases: Vec<EmitAction>,
    pub lines: Vec<String>,
    pub grab: Option<Vec<Vec<Key>>>,
}

/// The plan for a slot as a mathematical value.
#[verifier::ext_equal]
pub struct PlanModel {
    pub stop: bool,
    pub releases: Seq<EmitAction>,
    pub lines: Seq<Seq<char>>,
    pub grab: Option<Seq<Seq<Key>>>,
}

impl View for SlotPlan {
    type V = PlanModel;

    open spec fn view(&self) -> PlanModel {
        PlanModel {
            stop: self.stop,
            releases: self.releases@,
            lines: texts(self.lines@),
            grab: match self.grab {
                Some(chords) => Some(chords_view(chords@)),
                None => None,
            },
        }
    }
}

/// The line for a trigger that is yielded.
pub open spec fn yield_line(
    slot: SlotModel,
    signature: Signature,
    owner: Seq<char>,
) -> Seq<char> {
    "bind yielded: "@ + slot.name + " "@ + label(slot.profile.binds, signature) + " -> "@ + owner
}

/// The line for a trigger that is had back.
pub open spec fn resume_line(slot: SlotModel, signature: Signature) -> Seq<char> {
    "bind resumed: "@ + slot.name + " "@ + label(slot.profile.binds, signature)
}

/// A line for each trigger that is yielded now and was not before, in the order of the signatures.
pub open spec fn yield_lines(slot: SlotModel, now: Seq<(Signature, Seq<char>)>) -> Seq<Seq<char>>
    decreases now.len(),
{
    if now.len() == 0 {
        seq![]
    } else {
        let before = yield_lines(slot, now.drop_last());
        if owner_in(slot.yielded, now.last().0) is None {
            before.push(yield_line(slot, now.last().0, now.last().1))
        } else {
            before
        }
    }
}

/// A line for each trigger that was yielded and is not any more.
pub open spec fn resume_lines(
    slot: SlotModel,
    was: Seq<(Signature, Seq<char>)>,
    now: Seq<(Signature, Seq<char>)>,
) -> Seq<Seq<char>>
    decreases was.len(),
{
    if was.len() == 0 {
        seq![]
    } else {
        let before = resume_lines(slot, was.drop_last(), now);
        if owner_in(now, was.last().0) is None {
            before.push(resume_line(slot, was.last().0))
        } else {
            before
        }
    }
}

/// A slot after its plan was made, and the plan: a slot that does not want to be live lets go of
/// everything; one whose share has not changed stays as it is; any other is grabbed anew, unless
/// nothing is left to grab.
pub open spec fn planned(slot: SlotModel, claim: Option<ClaimModel>) -> (SlotModel, PlanModel) {
    match claim {
        None => if slot.live {
            (
                SlotModel { live: false, grabbed: seq![], yielded: seq![], held: seq![], ..slot },
                PlanModel {
                    stop: true,
                    releases: releases(slot.held.reverse()),
                    lines: seq!["dormant: "@ + slot.name],
                    grab: None,
                },
            )
        } else {
            (slot, PlanModel { stop: false, releases: seq![], lines: seq![], grab: None })
        },
        Some(claim) => {
            let lines = yield_lines(slot, claim.yielded) + resume_lines(
                slot,
                slot.yielded,
                claim.yielded,
            );
            if slot.live && slot.grabbed == claim.sigs {
                (
                    SlotModel { yielded: claim.yielded, ..slot },
                    PlanModel { stop: false, releases: seq![], lines, grab: None },
                )
            } else if claim.chords.len() == 0 {
                (
                    SlotModel { live: false, grabbed: seq![], yielded: claim.yielded, ..slot },
                    PlanModel { stop: slot.live, releases: seq![], lines, grab: None },
                )
            } else {
                (
                    SlotModel { live: false, grabbed: seq![], ..slot },
                    PlanModel {
                        stop: slot.live,
                        releases: seq![],
                        lines,
                        grab: Some(claim.chords),
                    },
                )
            }
        },
    }
}

/// A slot after its grabs were tried, and what to say: the first success says so, and so does the
/// first refusal in a row.
pub open spec fn grabbed(
    slot: SlotModel,
    claim: ClaimModel,
    was_live: bool,
    refusal: Option<Seq<char>>,
) -> (SlotModel, Seq<Seq<char>>) {
    match refusal {
        None => (
            SlotModel {
                live: true,
                grabbed: claim.sigs,
                yielded: claim.yielded,
                blocked: false,
                ..slot
            },
            if was_live {
                seq![]
            } else {
                seq!["active: "@ + slot.name]
            },
        ),
        Some(why) => (
            SlotModel { blocked: true, ..slot },
            if slot.blocked {
                seq![]
            } else {
                seq![
                    "blocked: "@ + slot.name + ": "@ + why
                        + " (another program owns a trigger; retrying as things change)"@,
                ]
            },
        ),
    }
}

fn push_yield_lines(lines: &mut Vec<String>, slot: &Slot, now: &Vec<Owned>)
    ensures
        texts(final(lines)@) == texts(old(lines)@) + yield_lines(slot@, owned_view(now@)),
{
    let ghost all = owned_view(now@);
    let ghost first = texts(lines@);
    let mut i: usize = 0;
    assert(all.take(0) =~= seq![]);
    assert(first + yield_lines(slot@, all.take(0)) =~= first);
    while i < now.len()
        invariant
            i <= now@.len(),
            all == owned_view(now@),
            texts(lines@) == first + yield_lines(slot@, all.take(i as int)),
        decreases now@.len() - i,
    {
        proof {
            assert(all.take(i + 1).drop_last() =~= all.take(i as int));
            assert(all.take(i + 1).last() == now@[i as int]@);
        }
        if owner_of(&slot.yielded, now[i].signature).is_none() {
            let mut line: String = "bind yielded: ".to_owned();
            line.append(slot.name.as_str());
            line.append(" ");
            line.append(label_of(&slot.profile, now[i].signature).as_str());
            line.append(" -> ");
            line.append(now[i].owner.as_str());
            let ghost word = line@;
            let ghost before = texts(lines@);
            lines.push(line);
            assert(texts(lines@) =~= before.push(word));
            assert(texts(lines@) =~= first + yield_lines(slot@, all.take(i + 1)));
        }
        i += 1;
    }
    assert(all.take(all.len() as int) =~= all);
}

fn push_resume_lines(lines: &mut Vec<String>, slot: &Slot, now: &Vec<Owned>)
    ensures
        texts(final(lines)@) == texts(old(lines)@) + resume_lines(
            slot@,
            slot@.yielded,
            owned_view(now@),
        ),
{
    let ghost all = owned_view(slot.yielded@);
    let ghost first = texts(lines@);
    let ghost new = owned_view(now@);
    let mut i: usize = 0;
    assert(all.take(0) =~= seq![]);
    assert(first + resume_lines(slot@, all.take(0), new) =~= first);
    while i < slot.yielded.len()
        invariant
            i <= slot.yielded@.len(),
            all == owned_view(slot.yielded@),
            new == owned_view(now@),
            texts(lines@) == first + resume_lines(slot@, all.take(i as int), new),
        decreases slot.yielded@.len() - i,
    {
        proof {
            assert(all.take(i + 1).drop_last() =~= all.take(i as int));
            assert(all.take(i + 1).last() == slot.yielded@[i as int]@);
        }
        if owner_of(now, slot.yielded[i].signature).is_none() {
            let mut line: String = "bind resumed: ".to_owned();
            line.append(slot.name.as_str());
            line.append(" ");
            line.append(label_of(&slot.profile, slot.yielded[i].signature).as_str());
            let ghost word = line@;
            let ghost before = texts(lines@);
            lines.push(line);
            assert(texts(lines@) =~= before.push(word));
            assert(texts(lines@) =~= first + resume_lines(slot@, all.take(i + 1), new));
        }
        i += 1;
    }
    assert(all.take(all.len() as int) =~= all);
}

fn same_signatures(a: &Vec<Signature>, b: &Vec<Signature>) -> (r: bool)
    ensures
        r == (a@ == b@),
{
    if a.len() != b.len() {
        return false;
    }
    let mut i: usize = 0;
    while i < a.len()
        invariant
            i <= a@.len(),
            a@.len() == b@.len(),
            forall|k: int| 0 <= k < i ==> a@[k] == b@[k],
        decreases a@.len() - i,
    {
        if !(a[i].0 == b[i].0 && a[i].1 == b[i].1) {
            assert(a@[i as int] != b@[i as int]);
            return false;
        }
        i += 1;
    }
    assert(a@ =~= b@);
    true
}

fn copy_chords(chords: &Vec<Vec<Key>>) -> (out: Vec<Vec<Key>>)
    ensures
        chords_view(out@) == chords_view(chords@),
{
    let mut out: Vec<Vec<Key>> = Vec::new();
    let mut i: usize = 0;
    while i < chords.len()
        invariant
            i <= chords@.len(),
            chords_view(out@) == chords_view(chords@).take(i as int),
        decreases chords@.len() - i,
    {
        let ghost before = chords_view(out@);
        let chord = crate::input::copy_keys(&chords[i]);
        let ghost keys = chord@;
        out.push(chord);
        i += 1;
        assert(chords_view(out@) =~= before.push(keys));
        assert(chords_view(chords@).take(i as int) =~= before.push(keys));
    }
    assert(chords_view(chords@).take(chords@.len() as int) =~= chords_view(chords@));
    out
}

impl Slot {
    /// Makes the plan for this slot, given its share in the triggers. Where the plan says to grab,
    /// `grabs_tried` is owed what came of it, with the same share.
    pub fn plan(&mut self, claim: &Option<Claim>) -> (plan: SlotPlan)
        ensures
            (final(self)@, plan@) == planned(old(self)@, claim_view(*claim)),
    {
        let mut lines: Vec<String> = Vec::new();
        assert(texts(lines@) =~= seq![]);
        match claim {
            None => {
                if !self.live {
                    return SlotPlan { stop: false, releases: Vec::new(), lines, grab: None };
                }
                let releases = drain_held(&mut self.held);
                self.live = false;
                self.grabbed = Vec::new();
                self.yielded = Vec::new();
                let mut line: String = "dormant: ".to_owned();
                line.append(self.name.as_str());
                let ghost word = line@;
                lines.push(line);
                assert(texts(lines@) =~= seq![word]);
                assert(self@ =~= planned(old(self)@, None).0);
                SlotPlan { stop: true, releases, lines, grab: None }
            },
            Some(claim) => {
                push_yield_lines(&mut lines, self, &claim.yielded);
                push_resume_lines(&mut lines, self, &claim.yielded);
                let ghost said = yield_lines(self@, claim@.yielded) + resume_lines(
                    self@,
                    self@.yielded,
                    claim@.yielded,
                );
                assert(texts(lines@) =~= said);
                if self.live && same_signatures(&self.grabbed, &claim.sigs) {
                    self.yielded = copy_owned(&claim.yielded);
                    return SlotPlan { stop: false, releases: Vec::new(), lines, grab: None };
                }
                let stop = self.live;
                self.live = false;
                self.grabbed = Vec::new();
                if claim.chords.len() == 0 {
                    self.yielded = copy_owned(&claim.yielded);
                    assert(self@ =~= planned(old(self)@, Some(claim@)).0);
                    return SlotPlan { stop, releases: Vec::new(), lines, grab: None };
                }
                let chords = copy_chords(&claim.chords);
                assert(self@ =~= planned(old(self)@, Some(claim@)).0);
                SlotPlan { stop, releases: Vec::new(), lines, grab: Some(chords) }
            },
        }
    }

    /// Takes in whether the grabs of the plan were granted, and gives what to say.
    pub fn grabs_tried(&mut self, claim: Claim, was_live: bool, refusal: Option<String>) -> (lines:
        Vec<String>)
        ensures
            (final(self)@, texts(lines@)) == grabbed(
                old(self)@,
                claim@,
                was_live,
                text_of_option(refusal),
            ),
    {
        let mut lines: Vec<String> = Vec::new();
        assert(texts(lines@) =~= seq![]);
        match refusal {
            None => {
                self.live = true;
                self.grabbed = claim.sigs;
                self.yielded = claim.yielded;
                self.blocked = false;
                if !was_live {
                    let mut line: String = "active: ".to_owned();
                    line.append(self.name.as_str());
                    let ghost word = line@;
                    lines.push(line);
                    assert(texts(lines@) =~= seq![word]);
                }
            },
            Some(why) => {
                if !self.blocked {
                    let mut line: String = "blocked: ".to_owned();
                    line.append(self.name.as_str());
                    line.append(": ");
                    line.append(why.as_str());
                    line.append(" (another program owns a trigger; retrying as things change)");
                    let ghost word = line@;
                    lines.push(line);
                    assert(texts(lines@) =~= seq![word]);
                    self.blocked = true;
                }
            },
        }
        lines
    }
}

fn copy_owned(list: &Vec<Owned>) -> (out: Vec<Owned>)
    ensures
        owned_view(out@) == owned_view(list@),
{
    let mut out: Vec<Owned> = Vec::new();
    let mut i: usize = 0;
    while i < list.len()
        invariant
            i <= list@.len(),
            owned_view(out@) == owned_view(list@).take(i as int),
        decreases list@.len() - i,
    {
        let owned = Owned { signature: list[i].signature, owner: list[i].owner.clone() };
        let ghost entry = owned@;
        let ghost before = owned_view(out@);
        out.push(owned);
        i += 1;
        assert(owned_view(out@) =~= before.push(entry));
        assert(owned_view(list@).take(i as int) =~= before.push(entry));
    }
    assert(owned_view(list@).take(list@.len() as int) =~= owned_view(list@));
    out
}

// -------------------------------------------------------------------------------- laws

proof fn lemma_owner_stays(
    taken: Seq<(Signature, Seq<char>)>,
    more: Seq<(Signature, Seq<char>)>,
    signature: Signature,
)
    ensures
        owner_in(taken, signature) is Some ==> owner_in(taken + more, signature) == owner_in(
            taken,
            signature,
        ),
        owner_in(taken, signature) is None ==> owner_in(taken + more, signature) == owner_in(
            more,
            signature,
        ),
    decreases taken.len(),
{
    if taken.len() == 0 {
        assert(taken + more =~= more);
    } else {
        assert((taken + more)[0] == taken[0]);
        assert((taken + more).skip(1) =~= taken.skip(1) + more);
        lemma_owner_stays(taken.skip(1), more, signature);
    }
}

proof fn lemma_owned_found(sigs: Seq<Signature>, owner: Seq<char>, signature: Signature)
    ensures
        sigs.contains(signature) ==> owner_in(all_owned(sigs, owner), signature) == Some(owner),
        !sigs.contains(signature) ==> owner_in(all_owned(sigs, owner), signature) is None,
    decreases sigs.len(),
{
    let all = all_owned(sigs, owner);
    if sigs.len() > 0 {
        assert(all.skip(1) =~= all_owned(sigs.skip(1), owner));
        lemma_owned_found(sigs.skip(1), owner, signature);
        if sigs[0] != signature {
            if sigs.contains(signature) {
                let i = choose|i: int| 0 <= i < sigs.len() && sigs[i] == signature;
                assert(sigs.skip(1)[i - 1] == signature);
            }
            if sigs.skip(1).contains(signature) {
                let i = choose|i: int| 0 <= i < sigs.skip(1).len() && sigs.skip(1)[i] == signature;
                assert(sigs[i + 1] == signature);
            }
        } else {
            assert(all[0].0 == signature);
        }
    }
}

proof fn lemma_taken_grows(
    slots: Seq<SlotModel>,
    gated: bool,
    taken: Seq<(Signature, Seq<char>)>,
    i: int,
    j: int,
    signature: Signature,
)
    requires
        0 <= i <= j,
        owner_in(taken_in_tier(slots, gated, taken, i), signature) is Some,
    ensures
        owner_in(taken_in_tier(slots, gated, taken, j), signature) == owner_in(
            taken_in_tier(slots, gated, taken, i),
            signature,
        ),
    decreases j - i,
{
    if i < j {
        lemma_taken_grows(slots, gated, taken, i, j - 1, signature);
        let before = taken_in_tier(slots, gated, taken, j - 1);
        let sigs = claim_of(slots[j - 1].profile.binds, before).sigs;
        lemma_owner_stays(before, all_owned(sigs, slots[j - 1].name), signature);
    }
}

proof fn lemma_claimed_is_taken(
    slots: Seq<SlotModel>,
    gated: bool,
    taken: Seq<(Signature, Seq<char>)>,
    i: int,
    signature: Signature,
)
    requires
        0 <= i < slots.len(),
        in_tier(slots[i], gated),
        claim_of(slots[i].profile.binds, taken_in_tier(slots, gated, taken, i)).sigs.contains(
            signature,
        ),
    ensures
        owner_in(taken_in_tier(slots, gated, taken, i + 1), signature) == Some(slots[i].name),
{
    let before = taken_in_tier(slots, gated, taken, i);
    let sigs = claim_of(slots[i].profile.binds, before).sigs;
    super::claims::law_a_trigger_has_one_owner(slots[i].profile.binds, before, signature);
    lemma_owned_found(sigs, slots[i].name, signature);
    lemma_owner_stays(before, all_owned(sigs, slots[i].name), signature);
}

/// Whether a slot comes before another when triggers are claimed: those that name a program come
/// first, and within a tier the order is that of the list.
pub open spec fn outranks(slots: Seq<SlotModel>, i: int, j: int) -> bool {
    if slots[i].profile.program is Some {
        slots[j].profile.program is None || i < j
    } else {
        slots[j].profile.program is None && i < j
    }
}

/// No two profiles ever hold the same trigger, and where two want it, the one that comes first has
/// it: while a profile that names a program is live, its bindings outrank those of a profile that
/// always applies.
pub proof fn law_no_trigger_is_held_twice(
    slots: Seq<SlotModel>,
    i: int,
    j: int,
    signature: Signature,
)
    requires
        0 <= i < slots.len(),
        0 <= j < slots.len(),
        outranks(slots, i, j),
        slot_claim(slots, i) is Some,
        slot_claim(slots, j) is Some,
        slot_claim(slots, i)->0.sigs.contains(signature),
    ensures
        !slot_claim(slots, j)->0.sigs.contains(signature),
{
    let stops = stops_taken(slots);
    let n = slots.len() as int;
    let gated_all = taken_in_tier(slots, true, stops, n);
    if slots[i].profile.program is Some {
        lemma_claimed_is_taken(slots, true, stops, i, signature);
        if slots[j].profile.program is Some {
            lemma_taken_grows(slots, true, stops, i + 1, j, signature);
        } else {
            lemma_taken_grows(slots, true, stops, i + 1, n, signature);
            lemma_taken_grows(slots, false, gated_all, 0, j, signature);
        }
    } else {
        lemma_claimed_is_taken(slots, false, gated_all, i, signature);
        lemma_taken_grows(slots, false, gated_all, i + 1, j, signature);
    }
    assert(owner_in(taken_before(slots, j), signature) is Some);
    if slot_claim(slots, j)->0.sigs.contains(signature) {
        super::claims::law_a_trigger_has_one_owner(
            slots[j].profile.binds,
            taken_before(slots, j),
            signature,
        );
    }
}

proof fn lemma_stop_is_taken(slots: Seq<SlotModel>, k: int, signature: Signature)
    requires
        0 <= k < slots.len(),
        stop_signatures(slots[k].profile.emergency_stop).contains(signature),
    ensures
        owner_in(stops_taken(slots), signature) is Some,
    decreases slots.len(),
{
    let rest = slots.drop_last();
    let last = all_owned(
        stop_signatures(slots.last().profile.emergency_stop),
        EMERGENCY_OWNER@,
    );
    lemma_owner_stays(stops_taken(rest), last, signature);
    if k < rest.len() {
        assert(rest[k] == slots[k]);
        lemma_stop_is_taken(rest, k, signature);
    } else {
        lemma_owned_found(
            stop_signatures(slots.last().profile.emergency_stop),
            EMERGENCY_OWNER@,
            signature,
        );
    }
}

/// No binding ever takes an emergency chord of any applied profile, dormant ones included.
pub proof fn law_emergency_chords_outrank_every_binding(
    slots: Seq<SlotModel>,
    i: int,
    k: int,
    signature: Signature,
)
    requires
        0 <= i < slots.len(),
        0 <= k < slots.len(),
        slot_claim(slots, i) is Some,
        stop_signatures(slots[k].profile.emergency_stop).contains(signature),
    ensures
        !slot_claim(slots, i)->0.sigs.contains(signature),
{
    let stops = stops_taken(slots);
    let n = slots.len() as int;
    lemma_stop_is_taken(slots, k, signature);
    if slots[i].profile.program is Some {
        lemma_taken_grows(slots, true, stops, 0, i, signature);
    } else {
        lemma_taken_grows(slots, true, stops, 0, n, signature);
        lemma_taken_grows(slots, false, taken_in_tier(slots, true, stops, n), 0, i, signature);
    }
    if slot_claim(slots, i)->0.sigs.contains(signature) {
        super::claims::law_a_trigger_has_one_owner(
            slots[i].profile.binds,
            taken_before(slots, i),
            signature,
        );
    }
}

/// A profile that goes dormant keeps nothing: no grab, no trigger yielded, and a release for
/// everything that it held.
pub proof fn law_a_dormant_profile_holds_nothing(slot: SlotModel)
    requires
        slot.live,
    ensures
        ({
            let (after, plan) = planned(slot, None);
            &&& !after.live && after.grabbed.len() == 0 && after.held.len() == 0
            &&& after.yielded.len() == 0
            &&& plan.stop && plan.releases == releases(slot.held.reverse())
        }),
{
}

/// A profile that is bound to a program outranks one that is not, wherever the two stand; of two of
/// the same kind the one that comes first does.
pub proof fn law_a_bound_profile_outranks_a_general_one(slots: Seq<SlotModel>, i: int, j: int)
    requires
        0 <= i < slots.len(),
        0 <= j < slots.len(),
        i != j,
    ensures
        slots[i].profile.program is Some && slots[j].profile.program is None ==> outranks(
            slots,
            i,
            j,
        ) && !outranks(slots, j, i),
        (slots[i].profile.program is Some) == (slots[j].profile.program is Some) && i < j
            ==> outranks(slots, i, j) && !outranks(slots, j, i),
{
}

} // verus!
