//! The executor: trigger events in, synthetic presses out.
use std::collections::VecDeque;

use sequencer::input::{Button, EmitAction, EventKind, Holdable, InputEvent, Key, Mods};
use sequencer::names::{Lexicon, Meaning, Name, Word};
use sequencer::profile::format::{RawBind, RawDefaults, RawFile, RawLoops, RawSection};
use sequencer::profile::model::Profile;
use sequencer::profile::readings::{
    chance_numbers, Amount, AmountReading, Chance, ChanceReading, Readings,
};
use sequencer::profile::run::{
    drain_held, is_stop, stop_chords, trigger_matches, Executor, Outcome, Reply, Request, Seams,
};
use sequencer::profile::session::Session;
use sequencer::runtime::Wake;

/// The keys that these tests name, with their codes.
const CODES: [(&str, u16); 67] = [
    ("esc", 1), ("1", 2), ("2", 3), ("3", 4), ("4", 5), ("5", 6), ("6", 7), ("7", 8), ("8", 9),
    ("9", 10), ("0", 11), ("-", 12), ("=", 13), ("backspace", 14), ("tab", 15), ("q", 16),
    ("w", 17), ("e", 18), ("r", 19), ("t", 20), ("y", 21), ("u", 22), ("i", 23), ("o", 24),
    ("p", 25), ("[", 26), ("]", 27), ("enter", 28), ("a", 30), ("s", 31), ("d", 32), ("f", 33),
    ("g", 34), ("h", 35), ("j", 36), ("k", 37), ("l", 38), (";", 39), ("'", 40), ("z", 44),
    ("x", 45), ("v", 47), ("b", 48), ("n", 49), ("m", 50), (",", 51), (".", 52), ("/", 53),
    ("space", 57), ("F1", 59), ("F2", 60), ("F3", 61), ("F4", 62), ("F5", 63), ("F6", 64),
    ("F7", 65), ("F10", 68), ("home", 102), ("pgup", 104), ("end", 107), ("pgdn", 109),
    ("insert", 110), ("delete", 111), ("mute", 113), ("volume-down", 114), ("volume-up", 115),
    ("pause", 119),
];

/// The keys that have a variant of their own.
const OWN: [(&str, Key); 13] = [
    ("shift", Key::LeftShift),
    ("rshift", Key::RightShift),
    ("ctrl", Key::LeftCtrl),
    ("rctrl", Key::RightCtrl),
    ("alt", Key::LeftAlt),
    ("ralt", Key::RightAlt),
    ("meta", Key::LeftMeta),
    ("rmeta", Key::RightMeta),
    ("c", Key::C),
    ("F8", Key::F8),
    ("F9", Key::F9),
    ("capslock", Key::CapsLock),
    ("numlock", Key::NumLock),
];

/// Spellings beside the names.
const ALIASES: [(&str, &str); 9] = [
    ("PgUp", "pgup"),
    ("PgDn", "pgdn"),
    ("{", "["),
    ("}", "]"),
    ("!", "1"),
    ("?", "/"),
    ("<", ","),
    (">", "."),
    ("escape", "esc"),
];

fn key(name: &str) -> Key {
    if let Some((_, key)) = OWN.iter().find(|(own, _)| *own == name) {
        return *key;
    }
    let (_, code) = CODES.iter().find(|(code, _)| *code == name).expect("a key of the table");
    Key::Other(*code)
}

/// A backend's names: every key in both cases, the mouse buttons, and the wheel as reserved.
fn lexicon() -> Lexicon {
    let names = CODES.iter().map(|(name, _)| *name).chain(OWN.iter().map(|(name, _)| *name));
    let mut lexicon = Lexicon { words: Vec::new(), names: Vec::new(), mods: Vec::new() };
    for name in names {
        let input = Holdable::Key(key(name));
        lexicon.names.push(Name { input, text: name.to_owned() });
        for text in [name.to_owned(), name.to_lowercase(), name.to_uppercase()] {
            lexicon.words.push(Word { text, meaning: Meaning::Input(input) });
        }
    }
    for (alias, name) in ALIASES {
        let meaning = Meaning::Input(Holdable::Key(key(name)));
        lexicon.words.push(Word { text: alias.to_owned(), meaning });
    }
    for (text, button) in [("mouse1", Button::Left), ("mouse2", Button::Right)] {
        let input = Holdable::Button(button);
        lexicon.names.push(Name { input, text: text.to_owned() });
        lexicon.words.push(Word { text: text.to_owned(), meaning: Meaning::Input(input) });
    }
    lexicon.words.push(Word { text: "wheel-up".to_owned(), meaning: Meaning::Reserved });
    for number in 0..32 {
        let classes = ["shift", "ctrl", "alt", "ralt", "meta"];
        let held: Vec<&str> =
            (0..5).filter(|bit| number & (1 << bit) != 0).map(|bit| classes[bit]).collect();
        lexicon.mods.push(held.join("+"));
    }
    lexicon
}

/// What a number of some unit of time comes to.
fn amount(number: &str) -> Amount {
    let Ok(number) = number.parse::<f64>() else {
        return Amount::NotANumber;
    };
    if !number.is_finite() || number < 0.0 {
        return Amount::Unusable;
    }
    let nanos = |scale: f64| (number * scale <= u64::MAX as f64).then_some((number * scale) as u64);
    Amount::Usable { ms: nanos(1e6), s: nanos(1e9), m: nanos(60e9), h: nanos(3600e9) }
}

/// What the numbers of a chance come to.
fn chance(text: &str) -> Chance {
    let (above, below, hundredths) = chance_numbers(text);
    let Ok(above) = above.parse::<f64>() else {
        return Chance::NotANumber;
    };
    let value = match below {
        None => above / if hundredths { 100.0 } else { 1.0 },
        Some(below) => match below.parse::<f64>() {
            Err(_) => return Chance::NoDivisor,
            Ok(below) if below <= 0.0 => return Chance::DividesBy(below.to_string()),
            Ok(below) => above / below,
        },
    };
    if (0.0..=1.0).contains(&value) {
        Chance::Bits((value + 0.0).to_bits())
    } else {
        Chance::OutOfRange
    }
}

/// What every number of a text comes to, whether it is meant as a time or as a chance.
fn readings(texts: &[String]) -> Readings {
    let mut readings = Readings { amounts: Vec::new(), chances: Vec::new() };
    for word in texts.iter().flat_map(|text| text.split_whitespace()) {
        let end = word.find(|c: char| c.is_ascii_alphabetic()).unwrap_or(word.len());
        let text = word[..end].to_owned();
        readings.amounts.push(AmountReading { amount: amount(&text), text });
        readings.chances.push(ChanceReading { chance: chance(word), text: word.to_owned() });
    }
    readings
}

/// The text of a field, or the texts of a list.
fn listed(value: Option<&toml::Value>) -> Vec<String> {
    match value {
        Some(toml::Value::Array(list)) => {
            list.iter().filter_map(|one| one.as_str()).map(str::to_owned).collect()
        }
        Some(one) => one.as_str().map(str::to_owned).into_iter().collect(),
        None => Vec::new(),
    }
}

/// A file as its text spells it.
fn raw(text: &str) -> RawFile {
    let table: toml::Table = text.parse().expect("TOML");
    let field = |table: &toml::Table, name: &str| {
        table.get(name).and_then(|value| value.as_str()).map(str::to_owned)
    };
    let defaults = table.get("defaults").and_then(|value| value.as_table()).map(|table| {
        RawDefaults {
            tap: field(table, "tap"),
            gap: field(table, "gap"),
            suppress: table.get("suppress").and_then(|value| value.as_bool()),
            program: field(table, "program"),
            emergency_stop: listed(table.get("emergency_stop")),
        }
    });
    let sections = table["binds"].as_table().expect("a table of binds");
    let binds = sections.iter().map(|(trigger, section)| {
        let table = section.as_table().expect("a section");
        let bind = RawBind {
            bind: field(table, "bind"),
            seq: table.get("seq").map(|seq| listed(Some(seq))),
            also: listed(table.get("also")),
            tap: field(table, "tap"),
            gap: field(table, "gap"),
            loops: table.get("loop").map(|loops| match loops.as_integer() {
                Some(times) => RawLoops::Times(times as u32),
                None => RawLoops::Word(loops.as_str().expect("a word").to_owned()),
            }),
        };
        RawSection { trigger: trigger.clone(), bind }
    });
    RawFile { defaults, binds: binds.collect() }
}

/// Every text of a file that may hold a number.
fn numbers(file: &RawFile) -> Vec<String> {
    let mut texts: Vec<String> = Vec::new();
    if let Some(defaults) = &file.defaults {
        texts.extend(defaults.tap.iter().chain(&defaults.gap).cloned());
    }
    for section in &file.binds {
        texts.extend(section.bind.tap.iter().chain(&section.bind.gap).cloned());
        texts.extend(section.bind.seq.iter().flatten().cloned());
    }
    texts
}

fn parse(text: &str) -> Result<Profile, String> {
    let file = raw(text);
    sequencer::profile::format::parse(&lexicon(), &readings(&numbers(&file)), &file)
}

const MILLI: u64 = 1_000_000;

const NO_SEAMS: Seams = Seams { gate: false, mods_down: false, key_down: false, lift: false };

const SHIFT: Mods = Mods { shift: true, ctrl: false, alt: false, ralt: false, meta: false };

fn down(name: &str) -> EmitAction {
    EmitAction::KeyDown(key(name))
}

fn up(name: &str) -> EmitAction {
    EmitAction::KeyUp(key(name))
}

fn classes(names: &[&str]) -> Mods {
    Mods::of_chord(&names.iter().map(|name| key(name)).collect())
}

fn press(name: &str) -> InputEvent {
    press_with(name, Mods::none())
}

/// A press the way a chord's grab delivers it: primary key + held modifier
/// classes as event state.
fn press_with(name: &str, mods: Mods) -> InputEvent {
    InputEvent { kind: EventKind::KeyDown(key(name)), mods }
}

fn release(name: &str) -> InputEvent {
    InputEvent { kind: EventKind::KeyUp(key(name)), mods: Mods::none() }
}

/// The surroundings of a run: a clock that only sleeping moves, a script of events, a record of
/// what was sent, and the answers that the hand would give.
#[derive(Default)]
struct World {
    now: u64,
    script: VecDeque<InputEvent>,
    sent: Vec<(u64, EmitAction)>,
    lifted: Vec<(Vec<Holdable>, Mods, Option<Key>)>,
    released: u32,
    /// The keys that are down, each for so many more questions.
    down: Vec<(Key, u32)>,
    asked: u32,
    /// Whether held modifiers are still held.
    mods_stay: bool,
    lift_works: bool,
    closed: bool,
    sink_fails: bool,
    roll: f64,
}

impl World {
    fn playing(events: &[InputEvent]) -> World {
        World { script: events.iter().copied().collect(), ..World::default() }
    }

    fn actions(&self) -> Vec<EmitAction> {
        self.sent.iter().map(|(_, action)| *action).collect()
    }

    /// When each press was sent.
    fn presses(&self) -> Vec<u64> {
        let presses = self.sent.iter().filter(|(_, it)| matches!(it, EmitAction::KeyDown(_)));
        presses.map(|(at, _)| *at).collect()
    }

    fn is_down(&mut self, key: Key) -> bool {
        self.asked += 1;
        match self.down.iter_mut().find(|(down, _)| *down == key) {
            Some((_, 0)) | None => false,
            Some((_, left)) => {
                *left -= 1;
                true
            }
        }
    }

    fn perform(&mut self, request: Request, targets: &[Holdable]) -> Reply {
        match request {
            Request::Continue | Request::FlushQuiet => Reply::Done,
            Request::Wait(_) => {
                Reply::Woke(self.script.pop_front().map_or(Wake::Interrupted, Wake::Event))
            }
            Request::Now => Reply::Time(self.now),
            Request::SleepUntil(until) => {
                self.now = self.now.max(until);
                Reply::Done
            }
            Request::Gate => Reply::Answer(!self.closed),
            Request::KeyDown(key) => Reply::Answer(self.is_down(key)),
            Request::ModsDown(_) => Reply::Answer(self.mods_stay),
            Request::Lift { held, primary, .. } => {
                if self.lift_works {
                    self.lifted.push((targets.to_vec(), held, primary));
                }
                Reply::Answer(self.lift_works)
            }
            Request::Roll => Reply::Rolled(self.roll.to_bits()),
            Request::Emit(_) if self.sink_fails => Reply::Sent(false),
            Request::Emit(action) => {
                self.sent.push((self.now, action));
                Reply::Sent(true)
            }
            Request::EmitQuiet(action) => {
                self.sent.push((self.now, action));
                Reply::Done
            }
            Request::Flush => Reply::Sent(true),
            Request::ReleaseAll => {
                self.released += 1;
                Reply::Done
            }
            Request::Handled(_) | Request::Failed => unreachable!("the end asks for nothing"),
        }
    }
}

/// Runs a profile until its events end.
fn run(profile: &Profile, world: &mut World) -> Option<Outcome> {
    let mut session = Session::new(profile, NO_SEAMS);
    loop {
        match session.request() {
            Request::Handled(outcome) => return outcome,
            Request::Failed => return None,
            request => {
                let reply = world.perform(request, session.targets());
                session.advance(reply);
            }
        }
    }
}

fn run_events(text: &str, events: &[InputEvent]) -> Vec<EmitAction> {
    let mut world = World::playing(events);
    run(&parse(text).expect("profile should parse"), &mut world).expect("run should succeed");
    assert_eq!(world.released, 1);
    world.actions()
}

/// Has one event dealt with, and hands the ledger on.
fn handle(
    profile: &Profile,
    seams: Seams,
    event: InputEvent,
    held: Vec<Holdable>,
    world: &mut World,
) -> (Option<Outcome>, Vec<Holdable>) {
    let mut executor = Executor::new(profile, seams, held);
    executor.handle(event);
    loop {
        match executor.request() {
            Request::Handled(outcome) => return (outcome, executor.into_held()),
            Request::Failed => panic!("the sink works"),
            request => {
                let reply = world.perform(request, executor.targets());
                executor.advance(reply);
            }
        }
    }
}

/// A chord target taps as one gesture: members down in listed order, up in
/// reverse, nothing outliving the press.
#[test]
fn a_chord_bind_taps_in_order_and_releases_in_reverse() {
    let actions = run_events(
        "[binds.\"rshift >\"]\nbind = \"shift ]\"",
        // The grab delivers the chord as its primary key + the held classes.
        // The user's own shift supplies the target's shift: re-injecting it
        // would end with a synthetic release that wipes the held state.
        &[press_with(".", classes(&["rshift"]))],
    );
    assert_eq!(actions, vec![down("]"), up("]")]);
}

/// A press taps the target: down then up, with nothing outliving the press.
#[test]
fn a_mirror_taps_its_target() {
    let actions = run_events(
        "[binds.PgUp]\nbind = \"volume-up\"",
        &[press("pgup"), release("pgup")],
    );
    assert_eq!(actions, vec![down("volume-up"), up("volume-up")]);
}

/// Each trigger press is one complete tap, so X auto-repeat (which arrives as
/// extra downs) repeats the effect — holding PgUp keeps stepping the volume.
#[test]
fn every_trigger_press_is_a_complete_tap() {
    let actions = run_events(
        "[binds.PgUp]\nbind = \"volume-up\"",
        &[press("pgup"), press("pgup"), release("pgup")],
    );
    assert_eq!(
        actions,
        vec![down("volume-up"), up("volume-up"), down("volume-up"), up("volume-up")],
        "two presses, two taps, nothing left held"
    );
}

/// Chord order down, reverse order up, holds bracket.
#[test]
fn a_sequence_fires_in_order_with_reverse_chord_release() {
    let actions = run_events(
        "[binds.F6]\nseq = [\"PRESS ctrl\", \"space d\", \"RELEASE ctrl\"]",
        &[press("F6")],
    );
    assert_eq!(
        actions,
        vec![down("ctrl"), down("space"), down("d"), up("d"), up("space"), up("ctrl")]
    );
}

/// A trigger whose release never arrives — exactly what the ungrab causes — still
/// leaves nothing pressed, because the tap released it on its own.
#[test]
fn a_trigger_release_that_never_comes_leaves_nothing_held() {
    let actions = run_events(
        "[binds.PgUp]\nbind = \"volume-up\"",
        &[press("pgup")], // never released; the pump just ends
    );
    assert_eq!(actions, vec![down("volume-up"), up("volume-up")]);
}

/// An unbound key does nothing — the loop must not panic or emit.
#[test]
fn unbound_keys_are_ignored() {
    let actions = run_events("[binds.F6]\nseq = [\"a\"]", &[press("q")]);
    assert!(actions.is_empty(), "{actions:?}");
}

fn count(actions: &[EmitAction], name: &str) -> usize {
    actions.iter().filter(|action| **action == down(name)).count()
}

/// `loop = 3` runs the sequence three times; the gap sits between iterations.
#[test]
fn a_finite_loop_repeats_the_sequence() {
    let actions = run_events(
        "[binds.F6]\ntap = \"0\"\ngap = \"0\"\nloop = 3\nseq = [\"a\"]",
        &[press("F6")],
    );
    assert_eq!(count(&actions, "a"), 3, "{actions:?}");
}

/// Pressing the trigger again stops a loop and releases what it still pressed.
#[test]
fn a_repress_stops_a_loop_and_releases() {
    // The re-press arrives during the first iteration's WAIT; the loop must stop
    // and ctrl must come back up even though its RELEASE step was never reached.
    let actions = run_events(
        "[binds.F6]\nloop = \"inf\"\nseq = [\"PRESS ctrl\", \"WAIT 10s\", \"RELEASE ctrl\"]",
        &[press("F6"), press("F6")],
    );
    assert_eq!(
        actions,
        vec![down("ctrl"), up("ctrl")],
        "stop mid-wait, then release the pressed key"
    );
}

/// A chord-triggered loop is stopped the same way: the grab fires the chord as
/// its primary key with the modifiers as event state, and the full chord must
/// match.
#[test]
fn a_repress_stops_a_chord_triggered_loop_too() {
    let chord = classes(&["ctrl", "shift"]);
    let actions = run_events(
        "[binds.\"ctrl shift F6\"]\nloop = \"inf\"\nseq = [\"PRESS a\", \"WAIT 10s\", \"RELEASE a\"]",
        &[press_with("F6", chord), press_with("F6", chord)],
    );
    assert_eq!(
        actions,
        vec![down("a"), up("a")],
        "the primary + its modifier classes stop the chord's loop"
    );
}

/// The inverse of contamination: the target names MORE modifiers than the trigger
/// holds. The extra one (shift) is synthesized; the held one (ctrl) is the hand's
/// own and must NOT be — a synthetic ctrl-release would strand the user's held
/// ctrl logically-up, and the next press of the chord would miss the grab.
#[test]
fn a_held_modifier_is_supplied_by_the_hand_not_reinjected() {
    let actions = run_events(
        "[binds.\"ctrl w\"]\nbind = \"ctrl shift w\"",
        &[press_with("w", classes(&["ctrl"]))],
    );
    assert_eq!(
        actions,
        vec![down("shift"), down("w"), up("w"), up("shift")],
        "shift is the delta and gets synthesized; ctrl is held and must not be: {actions:?}"
    );
}

/// The grab fires while the hand's W is still physically down, and a synthesized down for an
/// already-down key is swallowed by the server, so a tap fired immediately delivers shift with no
/// W edge inside it. The tap must wait for the hand's W to lift.
#[test]
fn a_mirror_that_represses_its_own_trigger_key_waits_for_the_key_to_lift() {
    let profile = parse("[binds.\"ctrl w\"]\nbind = \"ctrl shift w\"").expect("parses");
    // The hand holds W for three polls, then lifts it; ctrl stays down throughout
    // (covered by the target, so it is the hand's to supply either way).
    // Inert releases keep the pump alive between polls — an exhausted pump reads
    // as "no more input can come" and would rightly fire the tap at once.
    let mut world = World::playing(&[release("a"), release("a"), release("a"), release("a")]);
    world.down = vec![(key("w"), 3)];
    world.mods_stay = true;
    let seams = Seams { mods_down: true, key_down: true, ..NO_SEAMS };
    handle(&profile, seams, press_with("w", classes(&["ctrl"])), Vec::new(), &mut world);

    assert!(
        world.asked > 3,
        "the tap must wait out the held W: fired while the key was still down, \
         its W edge is swallowed and the bind does nothing"
    );
    assert_eq!(
        world.actions(),
        vec![down("shift"), down("w"), up("w"), up("shift")],
        "once W lifts: the delta (shift) plus a fresh W edge, ctrl still the hand's"
    );
}

/// Under the hand, only the primary needs a fresh edge: when the target's
/// ordinary key differs from the trigger's, the delta fires immediately — shift
/// and t are both up, so their injected edges are real edges.
#[test]
fn a_delta_with_a_different_primary_fires_immediately() {
    let actions = run_events(
        "[binds.\"ctrl w\"]\nbind = \"ctrl shift t\"",
        &[press_with("w", classes(&["ctrl"]))],
    );
    assert_eq!(actions, vec![down("shift"), down("t"), up("t"), up("shift")]);
}

/// A button target rides the held modifiers: the trigger's ctrl is the hand's and
/// is not re-injected, and a button has no modifier class to strip — ctrl+click.
#[test]
fn a_button_target_rides_the_held_modifiers() {
    let actions = run_events(
        "[binds.\"ctrl w\"]\nbind = \"ctrl mouse1\"",
        &[press_with("w", classes(&["ctrl"]))],
    );
    assert_eq!(
        actions,
        vec![EmitAction::ButtonDown(Button::Left), EmitAction::ButtonUp(Button::Left)]
    );
}

/// Without a lifter a contaminated mirror fires at once through the plain sink — recoloured beats
/// never.
#[test]
fn without_a_lifter_a_contaminated_mirror_fires_at_once() {
    let actions = run_events(
        "[binds.\"shift b\"]\nbind = \"p\"",
        &[press_with("b", classes(&["shift"]))],
    );
    assert_eq!(actions, vec![down("p"), up("p")]);
}

/// A press carrying a subset of the stop chord's classes is not the stop:
/// `ctrl e` must not end a run whose emergency is `ctrl shift e` — the stop's
/// twin of full-chord trigger matching, exact in both directions.
#[test]
fn a_subset_of_the_stop_chord_does_not_stop_the_run() {
    let profile =
        parse("[defaults]\nemergency_stop = \"ctrl shift e\"\n[binds.F6]\nbind = \"p\"")
            .expect("parses");
    let mut world = World::playing(&[press_with("e", classes(&["ctrl"])), press("F6")]);
    let outcome = run(&profile, &mut world).expect("runs");
    assert_eq!(outcome, Outcome::SourceClosed, "ctrl e is not ctrl shift e");
    assert_eq!(
        world.actions(),
        vec![down("p"), up("p")],
        "the run went on to serve the bind after the near-miss"
    );
}

const LIFTER: Seams = Seams { lift: true, ..NO_SEAMS };

/// A contaminated mirror — held classes the target does not name — goes through
/// the lifted-tap backend: immediately, once per press, with the trigger's held
/// classes handed over so the backend knows what to lift. No parking, no delay.
#[test]
fn a_contaminated_mirror_taps_between_lifted_modifiers() {
    let profile = parse("[binds.\"shift b\"]\nbind = \"p\"").expect("parses");
    let mut world = World { lift_works: true, ..World::default() };
    let mut held = Vec::new();
    for _ in 0..3 {
        let event = press_with("b", classes(&["shift"]));
        (_, held) = handle(&profile, LIFTER, event, held, &mut world);
    }
    let tap = (vec![Holdable::Key(key("p"))], SHIFT, None);
    assert_eq!(
        world.lifted,
        vec![tap.clone(), tap.clone(), tap],
        "three presses, three lifted taps, no parking"
    );
    assert!(world.sent.is_empty(), "a lifted tap must not touch the plain sink");
}

/// The backend receives the trigger's full held classes, and — when the target
/// re-presses the trigger's own key — that key too, so it can lift it for a
/// fresh edge. Modifiers go back down afterwards; the primary never does.
#[test]
fn lifted_taps_name_the_held_classes_and_the_self_pressed_primary() {
    let mut world = World { lift_works: true, ..World::default() };
    for (text, trigger, mods) in [
        ("[binds.\"ctrl shift b\"]\nbind = \"ctrl p\"", "b", classes(&["ctrl", "shift"])),
        ("[binds.\"shift w\"]\nbind = \"w\"", "w", classes(&["shift"])),
    ] {
        let profile = parse(text).expect("parses");
        handle(&profile, LIFTER, press_with(trigger, mods), Vec::new(), &mut world);
    }
    assert_eq!(
        world.lifted,
        vec![
            (
                vec![Holdable::Key(Key::LeftCtrl), Holdable::Key(key("p"))],
                classes(&["ctrl", "shift"]),
                None,
            ),
            (vec![Holdable::Key(key("w"))], SHIFT, Some(key("w"))),
        ],
        "held classes ride along whole; the primary only when the target re-presses it"
    );
}

/// A lifter that cannot fire reports false, and the tap falls back to the plain
/// sink — recoloured beats never.
#[test]
fn a_failed_lift_falls_back_to_the_real_sink() {
    let profile = parse("[binds.\"shift b\"]\nbind = \"p\"").expect("parses");
    let mut world = World::default();
    handle(&profile, LIFTER, press_with("b", SHIFT), Vec::new(), &mut world);
    assert_eq!(
        world.actions(),
        vec![down("p"), up("p")],
        "no backend to lift with, so the plain sink fires recoloured"
    );
}

/// Side-variant spellings share one grab and the probe routes each press to the
/// side the hand is on: the same folded event runs different binds — different
/// mechanisms, even — depending on which shift is physically down.
#[test]
fn side_variant_triggers_route_by_the_held_side() {
    let mut profile = parse("[binds.\"shift >\"]\nbind = \"shift ]\"").expect("parses");
    profile.binds.extend(parse("[binds.\"rshift >\"]\nbind = \"q\"").expect("parses").binds);
    let seams = Seams { key_down: true, lift: true, ..NO_SEAMS };

    // Right shift down: the rshift spelling wins — contaminated, so the lift
    // seam fires its clean `q` and the plain sink stays silent.
    let mut world = World { lift_works: true, ..World::default() };
    world.down = vec![(Key::RightShift, u32::MAX)];
    handle(&profile, seams, press_with(".", SHIFT), Vec::new(), &mut world);
    assert_eq!(
        world.lifted,
        vec![(vec![Holdable::Key(key("q"))], SHIFT, None)],
        "the right-hand spelling ran, through the lift"
    );
    assert!(world.sent.is_empty(), "and only through the lift");

    // Left shift down: the generic spelling wins — covered, so the plain sink
    // taps the delta `]` under the hand's shift and the lift stays unused.
    let mut world = World { lift_works: true, ..World::default() };
    world.down = vec![(Key::LeftShift, u32::MAX)];
    handle(&profile, seams, press_with(".", SHIFT), Vec::new(), &mut world);
    assert_eq!(
        world.actions(),
        vec![down("]"), up("]")],
        "the left-hand spelling ran: the hand's shift recolours `]` into the \
         wanted `}}`, only the delta is injected"
    );
    assert!(world.lifted.is_empty(), "nothing needed lifting");
}

/// A lone spelling keeps catching both sides — the probe is only consulted to
/// break ties between side twins.
#[test]
fn a_lone_spelling_catches_either_shift() {
    let profile = parse("[binds.\"shift b\"]\nbind = \"p\"").expect("parses");
    let mut world = World { lift_works: true, ..World::default() };
    // The spelling parses as the LEFT shift; the hand is on the RIGHT one.
    world.down = vec![(Key::RightShift, u32::MAX)];
    let seams = Seams { key_down: true, lift: true, ..NO_SEAMS };
    handle(&profile, seams, press_with("b", SHIFT), Vec::new(), &mut world);
    assert_eq!(
        world.lifted.len(),
        1,
        "no twin, no side check: the lone spelling fires whichever shift is down"
    );
}

/// If the hand lets go of the whole chord during the wait, the tap synthesizes
/// what the hand no longer supplies — the full target, ctrl included.
#[test]
fn a_chord_released_during_the_wait_is_synthesized_whole() {
    let profile = parse("[binds.\"ctrl w\"]\nbind = \"ctrl shift w\"").expect("parses");
    // One poll finds W still down; by the next, everything is up — ctrl included.
    let mut world = World::playing(&[release("a"), release("a")]);
    world.down = vec![(key("w"), 1)];
    let seams = Seams { mods_down: true, key_down: true, ..NO_SEAMS };
    handle(&profile, seams, press_with("w", classes(&["ctrl"])), Vec::new(), &mut world);
    assert_eq!(
        world.actions(),
        vec![down("ctrl"), down("shift"), down("w"), up("w"), up("shift"), up("ctrl")],
        "the hand supplies nothing anymore, so everything is injected"
    );
}

/// `also` spellings are full binds: each trigger fires the same action.
#[test]
fn an_also_spelling_fires_the_same_action() {
    let actions = run_events(
        "[binds.F6]\nalso = [\"F7\"]\nbind = \"p\"",
        &[press("F6"), press("F7")],
    );
    assert_eq!(actions, vec![down("p"), up("p"), down("p"), up("p")]);
}

/// Any spelling in an emergency_stop list ends the run.
#[test]
fn any_stop_alternative_ends_the_run() {
    let profile = parse(
        "[defaults]\nemergency_stop = [\"F8\", \"ctrl shift e\"]\n[binds.F6]\nbind = \"p\"",
    )
    .expect("parses");
    let mut world = World::playing(&[press_with("e", classes(&["ctrl", "shift"]))]);
    let outcome = run(&profile, &mut world).expect("runs");
    assert_eq!(outcome, Outcome::EmergencyStop);
}

/// LOOP/POOL repeat their block, then life continues — five passes over the block, one `b` after.
#[test]
fn loop_blocks_repeat_their_steps() {
    let actions = run_events(
        "[binds.F6]\ntap = \"0\"\ngap = \"0\"\nseq = [\"LOOP 5\", \"a\", \"POOL\", \"b\"]",
        &[press("F6")],
    );
    assert_eq!(count(&actions, "a"), 5, "{actions:?}");
    assert_eq!(
        actions.last(),
        Some(&up("b")),
        "the step after POOL runs once, after the block: {actions:?}"
    );
}

/// Blocks nest: an inner LOOP multiplies the outer one, and an RNG inside rolls
/// once per pass — its exact endpoints stay exact.
#[test]
fn loop_blocks_nest_with_each_other_and_with_rng() {
    let actions = run_events(
        "[binds.F6]\ntap = \"0\"\ngap = \"0\"\nseq = [\"LOOP 2\", \"LOOP 3\", \"a\", \"POOL\", \"RNG 0%\", \"b\", \"GNR\", \"POOL\", \"c\"]",
        &[press("F6")],
    );
    assert_eq!(count(&actions, "a"), 6, "2 outer x 3 inner: {actions:?}");
    assert_eq!(count(&actions, "b"), 0, "chance 0 skips in every pass: {actions:?}");
    assert_eq!(count(&actions, "c"), 1, "{actions:?}");
}

/// LOOP iterations are seams like any other: the gap sits between them, and the
/// markers themselves claim none.
#[test]
fn the_gap_sits_between_loop_iterations() {
    let profile = parse(
        "[binds.F6]\ntap = \"0\"\ngap = \"30ms\"\nseq = [\"LOOP 2\", \"a\", \"POOL\", \"b\"]",
    )
    .expect("parses");
    let mut world = World::playing(&[press("F6")]);
    run(&profile, &mut world).expect("runs");
    // a at 0; gap between iterations -> 30ms; gap before b -> 60ms.
    assert_eq!(world.presses(), vec![0, 30 * MILLI, 60 * MILLI]);
}

/// A re-press stops the bind from inside a LOOP block like anywhere else,
/// releasing what the iteration still held.
#[test]
fn a_repress_stops_inside_a_loop_block_and_releases() {
    let actions = run_events(
        "[binds.F6]\nseq = [\"LOOP 3\", \"PRESS ctrl\", \"WAIT 10s\", \"RELEASE ctrl\", \"POOL\"]",
        &[press("F6"), press("F6")],
    );
    assert_eq!(
        actions,
        vec![down("ctrl"), up("ctrl")],
        "stop mid-wait inside the block, then release: {actions:?}"
    );
}

/// The other half of full-chord matching: the primary alone, or with the wrong
/// modifiers, is NOT the trigger — `ctrl w` must never pass for `ctrl shift w`.
#[test]
fn the_wrong_modifiers_do_not_fire_a_chord_bind() {
    let actions = run_events(
        "[binds.\"ctrl shift F6\"]\nbind = \"p\"",
        &[press("F6"), press_with("F6", classes(&["ctrl"]))],
    );
    assert!(
        actions.is_empty(),
        "bare F6 and ctrl+F6 are other chords entirely: {actions:?}"
    );
}

/// An infinite loop with no further input winds down after the iteration it owes:
/// the pump is gone, so no re-press can ever arrive to stop it.
#[test]
fn an_infinite_loop_ends_when_the_source_closes() {
    let actions = run_events(
        "[binds.F6]\ntap = \"0\"\ngap = \"0\"\nloop = \"inf\"\nseq = [\"a\"]",
        &[press("F6")],
    );
    assert_eq!(count(&actions, "a"), 1, "one owed iteration, then wind-down: {actions:?}");
}

/// Chance 1 always runs its block, chance 0 never does — the interval is half-open
/// so the endpoints are exact, whatever the seed.
#[test]
fn rng_blocks_run_or_skip_at_the_exact_endpoints() {
    let text = "[binds.F6]\ntap = \"0\"\ngap = \"0\"\nseq = [\"RNG 1.0\", \"a\", \"GNR\", \"RNG 0%\", \"b\", \"GNR\", \"c\"]";
    let actions = run_events(text, &[press("F6")]);
    assert!(actions.contains(&down("a")), "chance 1.0 must run: {actions:?}");
    assert!(!actions.contains(&down("b")), "chance 0 must skip: {actions:?}");
    assert!(
        actions.contains(&down("c")),
        "life continues after a skipped block: {actions:?}"
    );
}

/// A roll under the chance runs the block, one over it skips to the end of it.
#[test]
fn a_roll_decides_its_block() {
    let profile = parse(
        "[binds.F6]\ntap = \"0\"\ngap = \"0\"\nseq = [\"RNG 50%\", \"a\", \"RNG 1\", \"b\", \"GNR\", \"GNR\", \"c\"]",
    )
    .expect("parses");
    for (roll, expected) in [(0.499, vec!["a", "b", "c"]), (0.5, vec!["c"]), (0.999, vec!["c"])] {
        let mut world = World::playing(&[press("F6")]);
        world.roll = roll;
        run(&profile, &mut world).expect("runs");
        let pressed: Vec<EmitAction> = expected.iter().map(|name| down(name)).collect();
        let downs: Vec<EmitAction> = world
            .actions()
            .into_iter()
            .filter(|action| matches!(action, EmitAction::KeyDown(_)))
            .collect();
        assert_eq!(downs, pressed, "rolled {roll}");
    }
}

/// A profile with a gate keeps running while that gate holds, and stops the moment
/// it closes mid-sequence — releasing what it pressed, so keys never leak into
/// whatever has focus once the program lost it.
#[test]
fn a_closed_gate_stops_a_running_sequence_and_releases() {
    let profile = parse(
        "[binds.F6]\nloop = \"inf\"\nseq = [\"PRESS ctrl\", \"WAIT 10s\", \"RELEASE ctrl\"]",
    )
    .expect("profile should parse");
    let mut world = World::playing(&[press("F6")]);
    // The event starts the loop; it presses ctrl and parks on the 10s WAIT, where
    // the closed gate ends it.
    world.closed = true;
    let seams = Seams { gate: true, ..NO_SEAMS };
    let (outcome, mut held) = handle(&profile, seams, press("F6"), Vec::new(), &mut world);
    assert_eq!(outcome, None);
    let mut actions = world.actions();
    actions.extend(drain_held(&mut held));
    assert_eq!(
        actions,
        vec![down("ctrl"), up("ctrl")],
        "gate loss releases the pressed key: {actions:?}"
    );
}

/// The emergency key ends the run immediately, even from inside a loop's WAIT, and
/// everything pressed comes back up.
#[test]
fn the_emergency_key_stops_the_run_and_releases() {
    let profile = parse(
        "[defaults]\nemergency_stop = \"F8\"\n[binds.F6]\nloop = \"inf\"\nseq = [\"PRESS ctrl\", \"WAIT 10s\", \"RELEASE ctrl\"]",
    )
    .expect("profile should parse");
    let mut world = World::playing(&[press("F6"), press("F8")]);
    let outcome = run(&profile, &mut world).expect("run should succeed");
    assert_eq!(outcome, Outcome::EmergencyStop);
    assert_eq!(
        world.actions(),
        vec![down("ctrl"), up("ctrl")],
        "emergency releases the pressed key on the way out"
    );
}

/// WAIT replaces the gap at its seam; elsewhere the gap applies. On a virtual
/// clock the sleeps are visible as the timestamps of the surrounding emits.
#[test]
fn wait_replaces_the_gap_at_its_seam_only() {
    let profile = parse(
        "[binds.F6]\ntap = \"0\"\ngap = \"30ms\"\nseq = [\"a\", \"b\", \"WAIT 200ms\", \"c\"]",
    )
    .expect("profile should parse");
    let mut world = World::playing(&[press("F6")]);
    run(&profile, &mut world).expect("run should succeed");
    // a at 0; gap before b -> 30ms; WAIT replaces the gap before c -> 230ms.
    assert_eq!(world.presses(), vec![0, 30 * MILLI, 230 * MILLI]);
}

/// A sink that fails ends the run, and what was pressed is released all the same.
#[test]
fn a_sink_that_fails_ends_the_run() {
    let profile = parse("[binds.F6]\nbind = \"p\"").expect("parses");
    let mut world = World::playing(&[press("F6"), press("F6")]);
    world.sink_fails = true;
    assert_eq!(run(&profile, &mut world), None);
    assert_eq!(world.released, 1);
    assert_eq!(world.script.len(), 1, "the second press was not read any more");
}

#[test]
fn a_ledger_drains_in_reverse() {
    let mut held = vec![Holdable::Key(key("a")), Holdable::Button(Button::Right)];
    assert_eq!(
        drain_held(&mut held),
        vec![EmitAction::ButtonUp(Button::Right), up("a")]
    );
    assert!(held.is_empty());
}

#[test]
fn a_stop_is_a_primary_key_and_its_classes() {
    let profile = parse(
        "[defaults]\nemergency_stop = [\"F8\", \"ctrl shift e\"]\n[binds.F6]\nbind = \"p\"",
    )
    .expect("parses");
    let stops = stop_chords(&profile);
    assert_eq!(stops, vec![(Key::F8, Mods::none()), (key("e"), classes(&["ctrl", "shift"]))]);
    assert!(is_stop(&stops, Key::F8, Mods::none()));
    assert!(!is_stop(&stops, Key::F8, SHIFT));
    assert!(trigger_matches(&vec![Key::RightShift, key("a")], key("a"), SHIFT));
    assert!(!trigger_matches(&vec![Key::RightShift, key("a")], key("a"), Mods::none()));
}
