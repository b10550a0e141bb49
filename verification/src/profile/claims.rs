//! Who owns which trigger.
//!
//! An event belongs to whoever grabbed it. The triggers are claimed one profile after the other, in
//! order of precedence: a trigger that is taken already is yielded, and the rest of the profile
//! stays live.
use vstd::prelude::*;

use crate::input::{classes, copy_keys, Key, Mods};
use crate::names::{mods_number, number_of_mods};

use super::model::{chord_mods, chords_view, primary, primary_key, BindModel, Profile};
use super::run::{fires, trigger_matches};

verus! {

/// What a grab fires on: an ordinary key with the modifier classes held with it.
pub type Signature = (Key, Mods);

/// A signature with who has it.
#[derive(Debug)]
pub struct Owned {
    pub signature: Signature,
    pub owner: String,
}

impl View for Owned {
    type V = (Signature, Seq<char>);

    open spec fn view(&self) -> (Signature, Seq<char>) {
        (self.signature, self.owner@)
    }
}

/// The mathematical values of a list of owned signatures.
pub open spec fn owned_view(list: Seq<Owned>) -> Seq<(Signature, Seq<char>)> {
    list.map_values(|owned: Owned| owned@)
}

/// Who has a signature, by the first entry for it.
pub open spec fn owner_in(list: Seq<(Signature, Seq<char>)>, signature: Signature) -> Option<
    Seq<char>,
>
    decreases list.len(),
{
    if list.len() == 0 {
        None
    } else if list[0].0 == signature {
        Some(list[0].1)
    } else {
        owner_in(list.skip(1), signature)
    }
}

/// Who has a signature.
pub fn owner_of(list: &Vec<Owned>, signature: Signature) -> (r: Option<&String>)
    ensures
        match r {
            Some(owner) => owner_in(owned_view(list@), signature) == Some(owner@),
            None => owner_in(owned_view(list@), signature) is None,
        },
{
    let mut i: usize = 0;
    let ghost all = owned_view(list@);
    assert(all.skip(0) =~= all);
    while i < list.len()
        invariant
            i <= list@.len(),
            all == owned_view(list@),
            owner_in(all, signature) == owner_in(all.skip(i as int), signature),
        decreases list@.len() - i,
    {
        assert(all.skip(i as int)[0] == list@[i as int]@);
        if list[i].signature.0 == signature.0 && list[i].signature.1 == signature.1 {
            return Some(&list[i].owner);
        }
        i += 1;
        assert(all.skip(i - 1).skip(1) =~= all.skip(i as int));
    }
    None
}

/// Whether a signature is in a list.
pub fn has_signature(list: &Vec<Signature>, signature: Signature) -> (r: bool)
    ensures
        r == list@.contains(signature),
{
    let mut i: usize = 0;
    while i < list.len()
        invariant
            i <= list@.len(),
            forall|k: int| 0 <= k < i ==> list@[k] != signature,
        decreases list@.len() - i,
    {
        if list[i].0 == signature.0 && list[i].1 == signature.1 {
            assert(list@[i as int] == signature);
            return true;
        }
        i += 1;
    }
    false
}

/// The number of a key: those with a name of their own first, then the others by their codes.
pub open spec fn key_number(key: Key) -> int {
    match key {
        Key::LeftShift => 0,
        Key::RightShift => 1,
        Key::LeftCtrl => 2,
        Key::RightCtrl => 3,
        Key::LeftAlt => 4,
        Key::RightAlt => 5,
        Key::LeftMeta => 6,
        Key::RightMeta => 7,
        Key::C => 8,
        Key::F8 => 9,
        Key::F9 => 10,
        Key::CapsLock => 11,
        Key::NumLock => 12,
        Key::Other(code) => 13 + code,
    }
}

/// Whether a signature comes before another, or is it: by the key, then by the classes.
pub open spec fn comes_before(a: Signature, b: Signature) -> bool {
    key_number(a.0) < key_number(b.0) || (key_number(a.0) == key_number(b.0) && mods_number(a.1)
        <= mods_number(b.1))
}

fn number_of_key(key: Key) -> (n: u32)
    ensures
        n == key_number(key),
{
    match key {
        Key::LeftShift => 0,
        Key::RightShift => 1,
        Key::LeftCtrl => 2,
        Key::RightCtrl => 3,
        Key::LeftAlt => 4,
        Key::RightAlt => 5,
        Key::LeftMeta => 6,
        Key::RightMeta => 7,
        Key::C => 8,
        Key::F8 => 9,
        Key::F9 => 10,
        Key::CapsLock => 11,
        Key::NumLock => 12,
        Key::Other(code) => 13 + code as u32,
    }
}

fn is_first(a: Signature, b: Signature) -> (r: bool)
    ensures
        r == comes_before(a, b),
{
    let x = number_of_key(a.0);
    let y = number_of_key(b.0);
    x < y || (x == y && number_of_mods(a.1) <= number_of_mods(b.1))
}

/// Owned signatures in order with one more in its place.
pub open spec fn owned_into(
    list: Seq<(Signature, Seq<char>)>,
    entry: (Signature, Seq<char>),
) -> Seq<(Signature, Seq<char>)>
    decreases list.len(),
{
    if list.len() == 0 || comes_before(list.last().0, entry.0) {
        list.push(entry)
    } else {
        owned_into(list.drop_last(), entry).push(list.last())
    }
}

/// Puts an owned signature in its place.
fn insert_owned(list: &mut Vec<Owned>, entry: Owned)
    ensures
        owned_view(final(list)@) == owned_into(owned_view(old(list)@), entry@),
{
    let ghost whole = owned_view(list@);
    let ghost one = entry@;
    let mut i: usize = list.len();
    proof {
        assert(whole.take(i as int) =~= whole);
        assert(owned_into(whole, one) + whole.skip(i as int) =~= owned_into(whole, one));
    }
    while i > 0 && !is_first(list[i - 1].signature, entry.signature)
        invariant
            i <= list@.len(),
            list@ == old(list)@,
            whole == owned_view(list@),
            one == entry@,
            owned_into(whole, one) == owned_into(whole.take(i as int), one) + whole.skip(i as int),
        decreases i,
    {
        proof {
            let part = whole.take(i as int);
            assert(part.last() == list@[i - 1]@);
            assert(part.drop_last() =~= whole.take(i - 1));
            assert(owned_into(whole.take(i - 1), one).push(part.last()) + whole.skip(i as int)
                =~= owned_into(whole.take(i - 1), one) + whole.skip(i - 1));
        }
        i -= 1;
    }
    proof {
        let part = whole.take(i as int);
        if i > 0 {
            assert(part.last() == list@[i - 1]@);
        }
        assert(owned_into(part, one) =~= part.push(one));
    }
    list.insert(i, entry);
    proof {
        assert(owned_view(list@) =~= whole.take(i as int).push(one) + whole.skip(i as int));
    }
}

/// One profile's share of the triggers.
#[derive(Debug)]
pub struct Claim {
    /// The chords to grab, one for each signature.
    pub chords: Vec<Vec<Key>>,
    /// The signatures of those chords.
    pub sigs: Vec<Signature>,
    /// The signatures that somebody else has, and who, in the order of the signatures.
    pub yielded: Vec<Owned>,
}

/// One profile's share of the triggers as a mathematical value.
#[verifier::ext_equal]
pub struct ClaimModel {
    pub chords: Seq<Seq<Key>>,
    pub sigs: Seq<Signature>,
    pub yielded: Seq<(Signature, Seq<char>)>,
}

impl View for Claim {
    type V = ClaimModel;

    open spec fn view(&self) -> ClaimModel {
        ClaimModel {
            chords: chords_view(self.chords@),
            sigs: self.sigs@,
            yielded: owned_view(self.yielded@),
        }
    }
}

/// A share of nothing.
pub open spec fn no_claim() -> ClaimModel {
    ClaimModel { chords: seq![], sigs: seq![], yielded: seq![] }
}

/// A share with one more binding looked at: a signature that this profile has already is shared,
/// one that somebody else has is yielded, in its place among those, and a free one is taken.
pub open spec fn with_bind(
    claim: ClaimModel,
    trigger: Seq<Key>,
    taken: Seq<(Signature, Seq<char>)>,
) -> ClaimModel {
    match primary(trigger) {
        None => claim,
        Some(key) => {
            let signature = (key, classes(trigger));
            if claim.sigs.contains(signature) {
                claim
            } else {
                match owner_in(taken, signature) {
                    Some(owner) => if owner_in(claim.yielded, signature) is Some {
                        claim
                    } else {
                        ClaimModel {
                            yielded: owned_into(claim.yielded, (signature, owner)),
                            ..claim
                        }
                    },
                    None => ClaimModel {
                        chords: claim.chords.push(trigger),
                        sigs: claim.sigs.push(signature),
                        ..claim
                    },
                }
            }
        },
    }
}

/// The share of a profile, given what was taken before it.
pub open spec fn claim_of(binds: Seq<BindModel>, taken: Seq<(Signature, Seq<char>)>) -> ClaimModel
    decreases binds.len(),
{
    if binds.len() == 0 {
        no_claim()
    } else {
        with_bind(claim_of(binds.drop_last(), taken), binds.last().trigger, taken)
    }
}

/// A list of signatures, all with one owner.
pub open spec fn all_owned(sigs: Seq<Signature>, owner: Seq<char>) -> Seq<(Signature, Seq<char>)> {
    sigs.map_values(|signature: Signature| (signature, owner))
}

/// Claims every trigger of a profile that is still free, and records who has each that is not.
/// Callers go through the profiles in order of precedence.
pub fn claim_triggers(profile: &Profile, claimant: &str, claimed: &mut Vec<Owned>) -> (claim: Claim)
    ensures
        claim@ == claim_of(profile@.binds, owned_view(old(claimed)@)),
        owned_view(final(claimed)@) == owned_view(old(claimed)@) + all_owned(
            claim.sigs@,
            claimant@,
        ),
{
    let mut claim = Claim { chords: Vec::new(), sigs: Vec::new(), yielded: Vec::new() };
    let ghost taken = owned_view(claimed@);
    let ghost binds = profile@.binds;
    let mut i: usize = 0;
    proof {
        assert(claim@ =~= no_claim());
        assert(binds.take(0) =~= seq![]);
    }
    while i < profile.binds.len()
        invariant
            i <= profile.binds@.len(),
            binds == profile@.binds,
            taken == owned_view(old(claimed)@),
            claimed@ == old(claimed)@,
            claim@ == claim_of(binds.take(i as int), taken),
        decreases profile.binds@.len() - i,
    {
        let trigger = &profile.binds[i].trigger;
        proof {
            assert(binds[i as int] == profile.binds@[i as int]@);
            assert(binds.take(i + 1).drop_last() =~= binds.take(i as int));
            assert(binds.take(i + 1).last().trigger == trigger@);
        }
        i += 1;
        let ghost before = claim@;
        if let Some(key) = primary_key(trigger) {
            let signature = (key, chord_mods(trigger));
            if !has_signature(&claim.sigs, signature) {
                match owner_of(claimed, signature) {
                    Some(owner) => {
                        if owner_of(&claim.yielded, signature).is_none() {
                            let owned = Owned { signature, owner: owner.clone() };
                            insert_owned(&mut claim.yielded, owned);
                        }
                    },
                    None => {
                        let chord = copy_keys(trigger);
                        let ghost keys = chord@;
                        claim.chords.push(chord);
                        claim.sigs.push(signature);
                        assert(chords_view(claim.chords@) =~= before.chords.push(keys));
                    },
                }
            }
        }
        assert(claim@ =~= with_bind(before, trigger@, taken));
    }
    assert(binds.take(binds.len() as int) =~= binds);
    let mut j: usize = 0;
    assert(owned_view(claimed@) =~= taken + all_owned(claim.sigs@.take(0), claimant@));
    while j < claim.sigs.len()
        invariant
            j <= claim.sigs@.len(),
            owned_view(claimed@) == taken + all_owned(claim.sigs@.take(j as int), claimant@),
        decreases claim.sigs@.len() - j,
    {
        let owned = Owned { signature: claim.sigs[j], owner: claimant.to_owned() };
        let ghost entry = owned@;
        let ghost before = owned_view(claimed@);
        claimed.push(owned);
        j += 1;
        assert(owned_view(claimed@) =~= before.push(entry));
        assert(owned_view(claimed@) =~= taken + all_owned(claim.sigs@.take(j as int), claimant@));
    }
    assert(claim.sigs@.take(claim.sigs@.len() as int) =~= claim.sigs@);
    claim
}

/// The bracketed spelling of a trigger.
pub open spec fn bracketed(trigger_text: Seq<char>) -> Seq<char> {
    "[binds.\""@ + trigger_text + "\"]"@
}

/// The bracketed spelling of a trigger.
pub fn bracket(trigger_text: &str) -> (out: String)
    ensures
        out@ == bracketed(trigger_text@),
{
    let mut out: String = "[binds.\"".to_owned();
    out.append(trigger_text);
    out.append("\"]");
    out
}

/// The spelling of the first binding with a signature; nothing where there is none.
pub open spec fn label(binds: Seq<BindModel>, signature: Signature) -> Seq<char>
    decreases binds.len(),
{
    if binds.len() == 0 {
        Seq::empty()
    } else if fires(binds[0], signature.0, signature.1) {
        bracketed(binds[0].trigger_text)
    } else {
        label(binds.skip(1), signature)
    }
}

/// The bracketed spelling of the binding that owns a signature: the first, where several share it.
pub fn label_of(profile: &Profile, signature: Signature) -> (out: String)
    ensures
        out@ == label(profile@.binds, signature),
{
    let ghost binds = profile@.binds;
    let mut i: usize = 0;
    assert(binds.skip(0) =~= binds);
    while i < profile.binds.len()
        invariant
            i <= profile.binds@.len(),
            binds == profile@.binds,
            label(binds, signature) == label(binds.skip(i as int), signature),
        decreases profile.binds@.len() - i,
    {
        assert(binds.skip(i as int)[0] == profile.binds@[i as int]@);
        if trigger_matches(&profile.binds[i].trigger, signature.0, signature.1) {
            return bracket(profile.binds[i].trigger_text.as_str());
        }
        i += 1;
        assert(binds.skip(i - 1).skip(1) =~= binds.skip(i as int));
    }
    String::new()
}

// -------------------------------------------------------------------------------- laws

/// Whether a trigger is live or yielded.
pub open spec fn is_settled(claim: ClaimModel, trigger: Seq<Key>) -> bool {
    match primary(trigger) {
        None => true,
        Some(key) => {
            let signature = (key, classes(trigger));
            claim.sigs.contains(signature) || owner_in(claim.yielded, signature) is Some
        },
    }
}

proof fn lemma_claim(binds: Seq<BindModel>, taken: Seq<(Signature, Seq<char>)>)
    ensures
        ({
            let claim = claim_of(binds, taken);
            &&& claim.chords.len() == claim.sigs.len()
            &&& forall|i: int|
                0 <= i < claim.sigs.len() ==> owner_in(taken, #[trigger] claim.sigs[i]) is None
                    && primary(claim.chords[i]) == Some(claim.sigs[i].0) && classes(claim.chords[i])
                    == claim.sigs[i].1
            &&& claim.sigs.no_duplicates()
            &&& are_in_order(claim.yielded)
            &&& forall|i: int|
                0 <= i < claim.yielded.len() ==> owner_in(taken, (#[trigger] claim.yielded[i]).0)
                    == Some(claim.yielded[i].1)
            &&& forall|b: int| 0 <= b < binds.len() ==> #[trigger] is_settled(claim, binds[b].trigger)
        }),
    decreases binds.len(),
{
    if binds.len() > 0 {
        let rest = binds.drop_last();
        lemma_claim(rest, taken);
        let before = claim_of(rest, taken);
        let after = claim_of(binds, taken);
        let trigger = binds.last().trigger;
        if let Some(key) = primary(trigger) {
            if let Some(owner) = owner_in(taken, (key, classes(trigger))) {
                lemma_owned_into(before.yielded, ((key, classes(trigger)), owner));
            }
        }
        assert forall|signature: Signature| #[trigger] before.sigs.contains(signature) implies
            after.sigs.contains(signature) by {
            let i = choose|i: int| 0 <= i < before.sigs.len() && before.sigs[i] == signature;
            assert(after.sigs[i] == signature);
        }
        if let Some(key) = primary(trigger) {
            let signature = (key, classes(trigger));
            if !before.sigs.contains(signature) {
                match owner_in(taken, signature) {
                    Some(_) => {},
                    None => {
                        assert(after.sigs[after.sigs.len() - 1] == signature);
                        assert(after.sigs.contains(signature));
                    },
                }
            }
        }
        assert forall|b: int| 0 <= b < binds.len() implies #[trigger] is_settled(
            after,
            binds[b].trigger,
        ) by {
            if b < rest.len() {
                assert(rest[b] == binds[b]);
                assert(is_settled(before, rest[b].trigger));
            }
        }
    }
}

proof fn lemma_owner_push(
    list: Seq<(Signature, Seq<char>)>,
    entry: (Signature, Seq<char>),
    signature: Signature,
)
    ensures
        owner_in(list.push(entry), signature) == (if owner_in(list, signature) is Some {
            owner_in(list, signature)
        } else if entry.0 == signature {
            Some(entry.1)
        } else {
            None
        }),
    decreases list.len(),
{
    let longer = list.push(entry);
    if list.len() > 0 {
        assert(longer[0] == list[0]);
        assert(longer.skip(1) =~= list.skip(1).push(entry));
        lemma_owner_push(list.skip(1), entry, signature);
    } else {
        reveal_with_fuel(owner_in, 2);
        assert(longer[0] == entry);
        assert(longer.skip(1) =~= seq![]);
    }
}

/// Whether owned signatures are in order.
pub open spec fn are_in_order(list: Seq<(Signature, Seq<char>)>) -> bool {
    forall|i: int, j: int|
        0 <= i <= j < list.len() ==> comes_before((#[trigger] list[i]).0, (#[trigger] list[j]).0)
}

proof fn lemma_owned_into(list: Seq<(Signature, Seq<char>)>, entry: (Signature, Seq<char>))
    requires
        are_in_order(list),
    ensures
        are_in_order(owned_into(list, entry)),
        forall|i: int|
            0 <= i < owned_into(list, entry).len() ==> (#[trigger] owned_into(list, entry)[i]
                == entry || list.contains(owned_into(list, entry)[i])),
        forall|signature: Signature|
            owner_in(list, signature) is Some ==> #[trigger] owner_in(
                owned_into(list, entry),
                signature,
            ) is Some,
        owner_in(owned_into(list, entry), entry.0) is Some,
    decreases list.len(),
{
    let out = owned_into(list, entry);
    if list.len() == 0 || comes_before(list.last().0, entry.0) {
        lemma_owner_push(list, entry, entry.0);
        assert forall|signature: Signature|
            owner_in(list, signature) is Some implies #[trigger] owner_in(out, signature) is Some by {
            lemma_owner_push(list, entry, signature);
        }
        assert forall|i: int, j: int| 0 <= i <= j < out.len() implies comes_before(
            (#[trigger] out[i]).0,
            (#[trigger] out[j]).0,
        ) by {
            if j == list.len() && i < list.len() {
                assert(comes_before(list[i].0, list[list.len() - 1].0));
            }
        }
        assert forall|i: int| 0 <= i < out.len() implies (#[trigger] out[i] == entry
            || list.contains(out[i])) by {
            if i < list.len() {
                assert(list[i] == out[i]);
            }
        }
    } else {
        let rest = list.drop_last();
        let last = list.last();
        let inner = owned_into(rest, entry);
        assert forall|i: int, j: int| 0 <= i <= j < rest.len() implies comes_before(
            (#[trigger] rest[i]).0,
            (#[trigger] rest[j]).0,
        ) by {
            assert(comes_before(list[i].0, list[j].0));
        }
        lemma_owned_into(rest, entry);
        assert(list =~= rest.push(last));
        lemma_owner_push(inner, last, entry.0);
        assert forall|signature: Signature|
            owner_in(list, signature) is Some implies #[trigger] owner_in(out, signature) is Some by {
            lemma_owner_push(rest, last, signature);
            lemma_owner_push(inner, last, signature);
            if owner_in(rest, signature) is Some {
                assert(owner_in(inner, signature) is Some);
            }
        }
        assert forall|i: int| 0 <= i < out.len() implies (#[trigger] out[i] == entry
            || list.contains(out[i])) by {
            if i < inner.len() {
                assert(inner[i] == out[i]);
                if inner[i] != entry {
                    let k = choose|k: int| 0 <= k < rest.len() && rest[k] == inner[i];
                    assert(list[k] == out[i]);
                }
            } else {
                assert(list[list.len() - 1] == out[i]);
            }
        }
        assert forall|i: int, j: int| 0 <= i <= j < out.len() implies comes_before(
            (#[trigger] out[i]).0,
            (#[trigger] out[j]).0,
        ) by {
            if j < inner.len() {
                assert(comes_before(inner[i].0, inner[j].0));
            } else if i < inner.len() {
                if inner[i] != entry {
                    let k = choose|k: int| 0 <= k < rest.len() && rest[k] == inner[i];
                    assert(comes_before(list[k].0, list[list.len() - 1].0));
                }
            }
        }
    }
}

/// No trigger has two owners: whatever a profile claims was free before, so it is neither one of
/// the emergency chords nor a trigger of a profile that comes first, and each is claimed once.
pub proof fn law_a_trigger_has_one_owner(
    binds: Seq<BindModel>,
    taken: Seq<(Signature, Seq<char>)>,
    signature: Signature,
)
    requires
        claim_of(binds, taken).sigs.contains(signature),
    ensures
        owner_in(taken, signature) is None,
        claim_of(binds, taken).sigs.no_duplicates(),
{
    lemma_claim(binds, taken);
    let claim = claim_of(binds, taken);
    let i = choose|i: int| 0 <= i < claim.sigs.len() && claim.sigs[i] == signature;
    assert(owner_in(taken, claim.sigs[i]) is None);
}

/// No trigger is lost: each binding of a profile is either live or yielded to the one who has its
/// trigger, and nothing else is yielded. What is yielded comes in the order of the signatures.
pub proof fn law_every_binding_is_live_or_yielded(
    binds: Seq<BindModel>,
    taken: Seq<(Signature, Seq<char>)>,
)
    ensures
        forall|b: int|
            0 <= b < binds.len() ==> #[trigger] is_settled(
                claim_of(binds, taken),
                binds[b].trigger,
            ),
        forall|i: int|
            0 <= i < claim_of(binds, taken).yielded.len() ==> owner_in(
                taken,
                (#[trigger] claim_of(binds, taken).yielded[i]).0,
            ) == Some(claim_of(binds, taken).yielded[i].1),
        are_in_order(claim_of(binds, taken).yielded),
{
    lemma_claim(binds, taken);
}

/// Each chord that is to be grabbed stands for its signature.
pub proof fn law_each_grab_has_its_signature(
    binds: Seq<BindModel>,
    taken: Seq<(Signature, Seq<char>)>,
)
    ensures
        claim_of(binds, taken).chords.len() == claim_of(binds, taken).sigs.len(),
        forall|i: int|
            0 <= i < claim_of(binds, taken).sigs.len() ==> primary(
                claim_of(binds, taken).chords[i],
            ) == Some((#[trigger] claim_of(binds, taken).sigs[i]).0) && classes(
                claim_of(binds, taken).chords[i],
            ) == claim_of(binds, taken).sigs[i].1,
{
    lemma_claim(binds, taken);
}

} // verus!
