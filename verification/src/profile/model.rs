//! What a profile is: bindings, the program it applies to, and its emergency stops.
use vstd::prelude::*;

use crate::input::{classes, decorates, is_modifier, Button, Holdable, Key, Mods};

verus! {

/// A validated profile.
#[derive(Debug, Clone, PartialEq, Eq)]
pub struct Profile {
    /// Every binding, in trigger-name order.
    pub binds: Vec<Bind>,
    /// The pattern of the programs that the profile applies to. `None` means that it always
    /// applies.
    pub program: Option<String>,
    /// Keys or chords, each of which stops the whole run.
    pub emergency_stop: Vec<Vec<Key>>,
}

/// One binding.
#[derive(Debug, Clone, PartialEq, Eq)]
pub struct Bind {
    /// The trigger, as written.
    pub trigger_text: String,
    /// The trigger keys: one for a plain key, several for a chord.
    pub trigger: Vec<Key>,
    /// What the binding does.
    pub action: Action,
    /// How many nanoseconds a tap holds its keys down.
    pub tap: u64,
    /// The pause in nanoseconds between consecutive steps, where no WAIT replaces it.
    pub gap: u64,
    /// How many times a press runs the sequence.
    pub loops: Loops,
}

/// How often one press repeats a sequence.
#[derive(Debug, Clone, Copy, PartialEq, Eq, Structural)]
pub enum Loops {
    /// Once.
    Once,
    /// A fixed number of runs.
    Times(u32),
    /// Until the trigger is pressed again.
    Infinite,
}

/// What a binding does.
#[derive(Debug, Clone, PartialEq, Eq)]
pub enum Action {
    /// Each press of the trigger taps the target: down in listed order, up in reverse.
    Mirror(Vec<Holdable>),
    /// A sequence, fired once per press of the trigger.
    Sequence(Vec<Step>),
}

/// One entry of a sequence.
#[derive(Debug, Clone, PartialEq, Eq)]
pub enum Step {
    /// Down, wait, up in reverse order.
    Tap(Vec<Holdable>),
    /// Press and keep down until a later release.
    Hold(Vec<Holdable>),
    /// Release what an earlier step pressed.
    Release(Vec<Holdable>),
    /// Pause for nanoseconds, replacing the gap at this seam.
    Wait(u64),
    /// Run the block up to the matching end with this chance, otherwise skip it. The chance is
    /// held as the bits of the number from zero to one that it is; among such numbers, positive
    /// zero included and negative zero not, the order of the bits is the order of the numbers.
    Rng(u64),
    /// Closes a chance block.
    RngEnd,
    /// Run the block up to the matching end this many times.
    Loop(u32),
    /// Closes a repeated block.
    LoopEnd,
}

/// A profile as a mathematical value.
#[verifier::ext_equal]
pub struct ProfileModel {
    pub binds: Seq<BindModel>,
    pub program: Option<Seq<char>>,
    pub emergency_stop: Seq<Seq<Key>>,
}

/// A binding as a mathematical value.
#[verifier::ext_equal]
pub struct BindModel {
    pub trigger_text: Seq<char>,
    pub trigger: Seq<Key>,
    pub action: ActionModel,
    pub tap: u64,
    pub gap: u64,
    pub loops: Loops,
}

/// An action as a mathematical value.
#[verifier::ext_equal]
pub enum ActionModel {
    Mirror(Seq<Holdable>),
    Sequence(Seq<StepModel>),
}

/// A step as a mathematical value.
#[verifier::ext_equal]
pub enum StepModel {
    Tap(Seq<Holdable>),
    Hold(Seq<Holdable>),
    Release(Seq<Holdable>),
    Wait(u64),
    Rng(u64),
    RngEnd,
    Loop(u32),
    LoopEnd,
}

impl View for Step {
    type V = StepModel;

    open spec fn view(&self) -> StepModel {
        match self {
            Step::Tap(keys) => StepModel::Tap(keys@),
            Step::Hold(keys) => StepModel::Hold(keys@),
            Step::Release(keys) => StepModel::Release(keys@),
            Step::Wait(pause) => StepModel::Wait(*pause),
            Step::Rng(chance) => StepModel::Rng(*chance),
            Step::RngEnd => StepModel::RngEnd,
            Step::Loop(times) => StepModel::Loop(*times),
            Step::LoopEnd => StepModel::LoopEnd,
        }
    }
}

/// The mathematical values of a list of steps.
pub open spec fn steps_view(steps: Seq<Step>) -> Seq<StepModel> {
    steps.map_values(|step: Step| step@)
}

impl View for Action {
    type V = ActionModel;

    open spec fn view(&self) -> ActionModel {
        match self {
            Action::Mirror(targets) => ActionModel::Mirror(targets@),
            Action::Sequence(steps) => ActionModel::Sequence(steps_view(steps@)),
        }
    }
}

impl View for Bind {
    type V = BindModel;

    open spec fn view(&self) -> BindModel {
        BindModel {
            trigger_text: self.trigger_text@,
            trigger: self.trigger@,
            action: self.action@,
            tap: self.tap,
            gap: self.gap,
            loops: self.loops,
        }
    }
}

/// The mathematical values of a list of bindings.
pub open spec fn binds_view(binds: Seq<Bind>) -> Seq<BindModel> {
    binds.map_values(|bind: Bind| bind@)
}

/// The key lists of a list of chords.
pub open spec fn chords_view(chords: Seq<Vec<Key>>) -> Seq<Seq<Key>> {
    chords.map_values(|chord: Vec<Key>| chord@)
}

impl View for Profile {
    type V = ProfileModel;

    open spec fn view(&self) -> ProfileModel {
        ProfileModel {
            binds: binds_view(self.binds@),
            program: match self.program {
                Some(pattern) => Some(pattern@),
                None => None,
            },
            emergency_stop: chords_view(self.emergency_stop@),
        }
    }
}

/// The first key of a chord that is no modifier.
pub open spec fn primary(chord: Seq<Key>) -> Option<Key>
    decreases chord.len(),
{
    if chord.len() == 0 {
        None
    } else if !decorates(chord[0]) {
        Some(chord[0])
    } else {
        primary(chord.skip(1))
    }
}

/// The key that a grab of the chord fires on: its first key that is no modifier.
pub fn primary_key(chord: &Vec<Key>) -> (r: Option<Key>)
    ensures
        r == primary(chord@),
{
    let mut i: usize = 0;
    assert(chord@.skip(0) =~= chord@);
    while i < chord.len()
        invariant
            i <= chord@.len(),
            primary(chord@) == primary(chord@.skip(i as int)),
        decreases chord@.len() - i,
    {
        if !is_modifier(chord[i]) {
            return Some(chord[i]);
        }
        i += 1;
        assert(chord@.skip(i - 1).skip(1) =~= chord@.skip(i as int));
    }
    None
}

/// The modifier classes that a chord names.
pub fn chord_mods(chord: &Vec<Key>) -> (r: Mods)
    ensures
        r == classes(chord@),
{
    Mods::of_chord(chord)
}

/// The modifier classes that a target names: those of its keys.
pub open spec fn wanted(targets: Seq<Holdable>) -> Mods {
    Mods {
        shift: targets.contains(Holdable::Key(Key::LeftShift)) || targets.contains(
            Holdable::Key(Key::RightShift),
        ),
        ctrl: targets.contains(Holdable::Key(Key::LeftCtrl)) || targets.contains(
            Holdable::Key(Key::RightCtrl),
        ),
        alt: targets.contains(Holdable::Key(Key::LeftAlt)),
        ralt: targets.contains(Holdable::Key(Key::RightAlt)),
        meta: targets.contains(Holdable::Key(Key::LeftMeta)) || targets.contains(
            Holdable::Key(Key::RightMeta),
        ),
    }
}

/// The modifier classes of the keys that a target will press.
pub fn target_mods(targets: &Vec<Holdable>) -> (r: Mods)
    ensures
        r == wanted(targets@),
{
    let mut keys: Vec<Key> = Vec::new();
    let mut i: usize = 0;
    while i < targets.len()
        invariant
            i <= targets@.len(),
            forall|k: Key| #[trigger]
                keys@.contains(k) <==> targets@.take(i as int).contains(Holdable::Key(k)),
        decreases targets@.len() - i,
    {
        let ghost before = keys@;
        let ghost seen = targets@.take(i as int);
        match targets[i] {
            Holdable::Key(key) => {
                keys.push(key);
            },
            Holdable::Button(_) => {},
        }
        i += 1;
        proof {
            let target = targets@[i - 1];
            assert(targets@.take(i as int) =~= seen.push(target));
            assert forall|k: Key| #[trigger]
                keys@.contains(k) <==> targets@.take(i as int).contains(Holdable::Key(k)) by {
                lemma_push_contains(seen, target, Holdable::Key(k));
                assert(before.contains(k) <==> seen.contains(Holdable::Key(k)));
                if target is Key {
                    lemma_push_contains(before, target->Key_0, k);
                }
            }
        }
    }
    assert(targets@.take(targets@.len() as int) =~= targets@);
    Mods::of_chord(&keys)
}

/// What a sequence holds after one more element.
pub proof fn lemma_push_contains<T>(s: Seq<T>, x: T, y: T)
    ensures
        s.push(x).contains(y) <==> s.contains(y) || x == y,
{
    if s.contains(y) {
        let i = choose|i: int| 0 <= i < s.len() && s[i] == y;
        assert(s.push(x)[i] == y);
    }
    assert(s.push(x)[s.len() as int] == x);
    if s.push(x).contains(y) {
        let i = choose|i: int| 0 <= i < s.push(x).len() && s.push(x)[i] == y;
        if i < s.len() {
            assert(s[i] == y);
        }
    }
}

/// The key that a grab fires on is the first ordinary one of the chord: every key before it is a
/// modifier. A chord without one has none.
pub proof fn law_the_primary_key_is_the_first_ordinary_one(chord: Seq<Key>, at: int)
    requires
        0 <= at <= chord.len(),
        forall|i: int| 0 <= i < at ==> decorates(#[trigger] chord[i]),
        at < chord.len() ==> !decorates(chord[at]),
    ensures
        at < chord.len() ==> primary(chord) == Some(chord[at]),
        at == chord.len() ==> primary(chord) is None,
    decreases chord.len(),
{
    if at > 0 {
        assert(decorates(chord[0]));
        let rest = chord.skip(1);
        assert forall|i: int| 0 <= i < at - 1 implies decorates(#[trigger] rest[i]) by {
            assert(rest[i] == chord[i + 1]);
        }
        law_the_primary_key_is_the_first_ordinary_one(rest, at - 1);
    }
}

/// What a target wants is the classes of its keys, as a chord of the same keys has them, and a
/// button wants nothing.
pub proof fn law_a_target_wants_the_classes_of_its_keys(
    targets: Seq<Holdable>,
    keys: Seq<Key>,
    button: Button,
)
    requires
        targets == keys.map_values(|key: Key| Holdable::Key(key)),
    ensures
        wanted(targets) == classes(keys),
        wanted(targets.push(Holdable::Button(button))) == classes(keys),
{
    assert forall|key: Key| targets.contains(Holdable::Key(key)) <==> keys.contains(key) by {
        if keys.contains(key) {
            let i = choose|i: int| 0 <= i < keys.len() && keys[i] == key;
            assert(targets[i] == Holdable::Key(key));
        }
        if targets.contains(Holdable::Key(key)) {
            let i = choose|i: int| 0 <= i < targets.len() && targets[i] == Holdable::Key(key);
            assert(keys[i] == key);
        }
    }
    assert forall|key: Key| targets.push(Holdable::Button(button)).contains(Holdable::Key(key))
        <==> targets.contains(Holdable::Key(key)) by {
        lemma_push_contains(targets, Holdable::Button(button), Holdable::Key(key));
    }
}

} // verus!
