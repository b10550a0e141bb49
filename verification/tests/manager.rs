//! The manager: whose triggers are grabbed, where events go, and when it ends.
use sequencer::doctor::{KeyboardAnswer, KeyboardState};
use sequencer::input::{Button, EmitAction, EventKind, Holdable, InputEvent, Key, Mods};
use sequencer::names::{Lexicon, Meaning, Name, Word};
use sequencer::profile::claims::{
    claim_triggers, has_signature, label_of, owner_of, Owned,
};
use sequencer::profile::format::{RawBind, RawDefaults, RawFile, RawLoops, RawSection};
use sequencer::profile::manager::{
    announce, attached_line, caught_interrupt, chord_text, departure_line, ends_slot, farewell,
    greeting, lost_terminal, needs_focus, needs_loading, part_slots, parting_lines, plan_emergency,
    reattached_line, retain_refused, route, seams_for, stop_hint, stop_slot, take_in, teardown,
    wanted_stops, was_replaced, Admission, Applied, EmergencyPlan, Entry, Leaving, LoopReply, LoopRequest, ManagerLoop, Route,
    StopReason, MAINTENANCE_NANOS,
};
use sequencer::profile::model::Profile;
use sequencer::profile::readings::{
    chance_numbers, Amount, AmountReading, Chance, ChanceReading, Readings,
};
use sequencer::profile::run::Outcome;
use sequencer::profile::slots::{
    claim_all, decide_wants, licensed, may_run, Slot, EMERGENCY_OWNER,
};
use sequencer::runtime::Wake;

/// The keys that these tests name, with their codes.
const CODES: [(&str, u16); 67] = [
    ("esc", 1), ("1", 2), ("2", 3), ("3", 4), ("4", 5), ("5", 6), ("6", 7), ("7", 8), ("8", 9),
    ("9", 10), ("0", 11), ("-", 12), ("=", 13), ("backspace", 14), ("tab", 15), ("q", 16),
    ("w", 17), ("e", 18), ("r", 19), ("t", 20), ("y", 21), ("u", 22), ("i", 23), ("o", 24),
    ("p", 25), ("[", 26), ("]", 27), ("enter", 28), ("a", 30), ("s", 31), ("d", 32), ("f", 33),
    ("g", 34), ("h", 35), ("j", 36), ("k", 37), ("l", 38), (";", 39), ("'", 40), ("z", 44),
    ("x", 45), ("v", 47), ("b", 48), ("n", 49), ("m", 50), (",", 51), (".", 52), ("/", 53),
    ("space", 57), ("F1", 59), ("F2", 60), ("F3", 61), ("F4", 62), ("F5", 63), ("F6", 64),
    ("F7", 65), ("F10", 68), ("home", 102), ("pgup", 104), ("end", 107), ("pgdn", 109),
    ("insert", 110), ("delete", 111), ("mute", 113), ("volume-down", 114), ("volume-up", 115),
    ("pause", 119),
];

/// The keys that have a variant of their own.
const OWN: [(&str, Key); 13] = [
    ("shift", Key::LeftShift),
    ("rshift", Key::RightShift),
    ("ctrl", Key::LeftCtrl),
    ("rctrl", Key::RightCtrl),
    ("alt", Key::LeftAlt),
    ("ralt", Key::RightAlt),
    ("meta", Key::LeftMeta),
    ("rmeta", Key::RightMeta),
    ("c", Key::C),
    ("F8", Key::F8),
    ("F9", Key::F9),
    ("capslock", Key::CapsLock),
    ("numlock", Key::NumLock),
];

/// Spellings beside the names.
const ALIASES: [(&str, &str); 9] = [
    ("PgUp", "pgup"),
    ("PgDn", "pgdn"),
    ("{", "["),
    ("}", "]"),
    ("!", "1"),
    ("?", "/"),
    ("<", ","),
    (">", "."),
    ("escape", "esc"),
];

fn key(name: &str) -> Key {
    if let Some((_, key)) = OWN.iter().find(|(own, _)| *own == name) {
        return *key;
    }
    let (_, code) = CODES.iter().find(|(code, _)| *code == name).expect("a key of the table");
    Key::Other(*code)
}

/// A backend's names: every key in both cases, the mouse buttons, and the wheel as reserved.
fn lexicon() -> Lexicon {
    let names = CODES.iter().map(|(name, _)| *name).chain(OWN.iter().map(|(name, _)| *name));
    let mut lexicon = Lexicon { words: Vec::new(), names: Vec::new(), mods: Vec::new() };
    for name in names {
        let input = Holdable::Key(key(name));
        lexicon.names.push(Name { input, text: name.to_owned() });
        for text in [name.to_owned(), name.to_lowercase(), name.to_uppercase()] {
            lexicon.words.push(Word { text, meaning: Meaning::Input(input) });
        }
    }
    for (alias, name) in ALIASES {
        let meaning = Meaning::Input(Holdable::Key(key(name)));
        lexicon.words.push(Word { text: alias.to_owned(), meaning });
    }
    for (text, button) in [("mouse1", Button::Left), ("mouse2", Button::Right)] {
        let input = Holdable::Button(button);
        lexicon.names.push(Name { input, text: text.to_owned() });
        lexicon.words.push(Word { text: text.to_owned(), meaning: Meaning::Input(input) });
    }
    lexicon.words.push(Word { text: "wheel-up".to_owned(), meaning: Meaning::Reserved });
    for number in 0..32 {
        let classes = ["shift", "ctrl", "alt", "ralt", "meta"];
        let held: Vec<&str> =
            (0..5).filter(|bit| number & (1 << bit) != 0).map(|bit| classes[bit]).collect();
        lexicon.mods.push(held.join("+"));
    }
    lexicon
}

/// What a number of some unit of time comes to.
fn amount(number: &str) -> Amount {
    let Ok(number) = number.parse::<f64>() else {
        return Amount::NotANumber;
    };
    if !number.is_finite() || number < 0.0 {
        return Amount::Unusable;
    }
    let nanos = |scale: f64| (number * scale <= u64::MAX as f64).then_some((number * scale) as u64);
    Amount::Usable { ms: nanos(1e6), s: nanos(1e9), m: nanos(60e9), h: nanos(3600e9) }
}

/// What the numbers of a chance come to.
fn chance(text: &str) -> Chance {
    let (above, below, hundredths) = chance_numbers(text);
    let Ok(above) = above.parse::<f64>() else {
        return Chance::NotANumber;
    };
    let value = match below {
        None => above / if hundredths { 100.0 } else { 1.0 },
        Some(below) => match below.parse::<f64>() {
            Err(_) => return Chance::NoDivisor,
            Ok(below) if below <= 0.0 => return Chance::DividesBy(below.to_string()),
            Ok(below) => above / below,
        },
    };
    if (0.0..=1.0).contains(&value) {
        Chance::Bits((value + 0.0).to_bits())
    } else {
        Chance::OutOfRange
    }
}

/// What every number of a text comes to, whether it is meant as a time or as a chance.
fn readings(texts: &[String]) -> Readings {
    let mut readings = Readings { amounts: Vec::new(), chances: Vec::new() };
    for word in texts.iter().flat_map(|text| text.split_whitespace()) {
        let end = word.find(|c: char| c.is_ascii_alphabetic()).unwrap_or(word.len());
        let text = word[..end].to_owned();
        readings.amounts.push(AmountReading { amount: amount(&text), text });
        readings.chances.push(ChanceReading { chance: chance(word), text: word.to_owned() });
    }
    readings
}

/// The text of a field, or the texts of a list.
fn listed(value: Option<&toml::Value>) -> Vec<String> {
    match value {
        Some(toml::Value::Array(list)) => {
            list.iter().filter_map(|one| one.as_str()).map(str::to_owned).collect()
        }
        Some(one) => one.as_str().map(str::to_owned).into_iter().collect(),
        None => Vec::new(),
    }
}

/// A file as its text spells it.
fn raw(text: &str) -> RawFile {
    let table: toml::Table = text.parse().expect("TOML");
    let field = |table: &toml::Table, name: &str| {
        table.get(name).and_then(|value| value.as_str()).map(str::to_owned)
    };
    let defaults = table.get("defaults").and_then(|value| value.as_table()).map(|table| {
        RawDefaults {
            tap: field(table, "tap"),
            gap: field(table, "gap"),
            suppress: table.get("suppress").and_then(|value| value.as_bool()),
            program: field(table, "program"),
            emergency_stop: listed(table.get("emergency_stop")),
        }
    });
    let sections = table["binds"].as_table().expect("a table of binds");
    let binds = sections.iter().map(|(trigger, section)| {
        let table = section.as_table().expect("a section");
        let bind = RawBind {
            bind: field(table, "bind"),
            seq: table.get("seq").map(|seq| listed(Some(seq))),
            also: listed(table.get("also")),
            tap: field(table, "tap"),
            gap: field(table, "gap"),
            loops: table.get("loop").map(|loops| match loops.as_integer() {
                Some(times) => RawLoops::Times(times as u32),
                None => RawLoops::Word(loops.as_str().expect("a word").to_owned()),
            }),
        };
        RawSection { trigger: trigger.clone(), bind }
    });
    RawFile { defaults, binds: binds.collect() }
}

/// Every text of a file that may hold a number.
fn numbers(file: &RawFile) -> Vec<String> {
    let mut texts: Vec<String> = Vec::new();
    if let Some(defaults) = &file.defaults {
        texts.extend(defaults.tap.iter().chain(&defaults.gap).cloned());
    }
    for section in &file.binds {
        texts.extend(section.bind.tap.iter().chain(&section.bind.gap).cloned());
        texts.extend(section.bind.seq.iter().flatten().cloned());
    }
    texts
}

fn parse(text: &str) -> Result<Profile, String> {
    let file = raw(text);
    sequencer::profile::format::parse(&lexicon(), &readings(&numbers(&file)), &file)
}

const CTRL: Mods = Mods { shift: false, ctrl: true, alt: false, ralt: false, meta: false };

const CTRL_SHIFT: Mods = Mods { shift: true, ctrl: true, alt: false, ralt: false, meta: false };

fn profile(text: &str) -> Profile {
    parse(text).expect("test profile parses")
}

/// The precedence system in one pass: stops are claimed first, then the
/// program-gated slot, then the global one — the shared trigger goes to the
/// gated profile, and the global slot yields it while keeping its own.
#[test]
fn the_grab_space_is_claimed_in_precedence_order() {
    let gated = profile("[defaults]\nprogram = \"*term*\"\n[binds.\"ctrl w\"]\nbind = \"q\"");
    let global = profile("[binds.\"ctrl w\"]\nbind = \"p\"\n\n[binds.\"ctrl e\"]\nbind = \"p\"");
    let mut claimed: Vec<Owned> = Vec::new();

    let first = claim_triggers(&gated, "gated.toml", &mut claimed);
    let second = claim_triggers(&global, "global.toml", &mut claimed);

    let ctrl_w = (key("w"), CTRL);
    assert!(has_signature(&first.sigs, ctrl_w), "the gated profile claims it");
    assert!(first.yielded.is_empty());
    assert!(!has_signature(&second.sigs, ctrl_w), "the global slot yields it");
    assert_eq!(
        owner_of(&second.yielded, ctrl_w).map(String::as_str),
        Some("gated.toml"),
        "the yield names its claimant"
    );
    assert!(
        has_signature(&second.sigs, (key("e"), CTRL)),
        "the global slot's other bind stays live"
    );
    assert_eq!(second.chords.len(), 1, "one grab survives the yield");
}

/// A stop chord is claimed before any bind: a bind on another profile's stop
/// combination yields to the emergency grab instead of blocking its whole slot,
/// and the rest of the profile is untouched.
#[test]
fn stop_chords_outrank_every_bind() {
    let global = profile("[binds.\"ctrl shift F10\"]\nbind = \"p\"\n\n[binds.q]\nbind = \"p\"");
    let stop = (key("F10"), CTRL_SHIFT);
    let mut claimed =
        vec![Owned { signature: stop, owner: "the emergency grab".to_owned() }];

    let claim = claim_triggers(&global, "global.toml", &mut claimed);
    assert!(!has_signature(&claim.sigs, stop), "the stop's combination is not grabbable");
    assert_eq!(
        owner_of(&claim.yielded, stop).map(String::as_str),
        Some("the emergency grab")
    );
    assert!(has_signature(&claim.sigs, (key("q"), Mods::none())));
}

/// Side-variant spellings collapse to one grab within their own slot — the
/// second spelling shares the claim, it does not yield it.
#[test]
fn side_variants_share_their_slots_own_claim() {
    let mut both = profile("[binds.\"shift >\"]\nbind = \"shift ]\"");
    both.binds.extend(profile("[binds.\"rshift >\"]\nbind = \"q\"").binds);
    let mut claimed: Vec<Owned> = Vec::new();
    let claim = claim_triggers(&both, "p.toml", &mut claimed);
    assert_eq!(claim.chords.len(), 1, "one grab for both spellings");
    assert!(claim.yielded.is_empty(), "sharing is not yielding");
}

/// Two global profiles colliding: the alphabetically-first claims the shared
/// trigger and the second keeps everything else — nobody's whole profile is
/// blocked over one bind anymore.
#[test]
fn colliding_globals_lose_only_the_shared_bind() {
    let first = profile("[binds.F5]\nbind = \"p\"");
    let second = profile("[binds.F5]\nbind = \"q\"\n\n[binds.F6]\nbind = \"q\"");
    let mut claimed: Vec<Owned> = Vec::new();

    let a = claim_triggers(&first, "a.toml", &mut claimed);
    let b = claim_triggers(&second, "b.toml", &mut claimed);
    let f5 = (key("F5"), Mods::none());
    assert!(has_signature(&a.sigs, f5));
    assert_eq!(owner_of(&b.yielded, f5).map(String::as_str), Some("a.toml"));
    assert!(
        has_signature(&b.sigs, (key("F6"), Mods::none())),
        "the rest of b stays live"
    );
}

/// The yield line names the bind by its written spelling.
#[test]
fn labels_name_the_written_spelling() {
    let p = profile("[binds.\"ctrl w\"]\nbind = \"q\"");
    assert_eq!(label_of(&p, (key("w"), CTRL)), "[binds.\"ctrl w\"]");
    assert_eq!(label_of(&p, (key("q"), Mods::none())), "");
}

// ----------------------------------------------------------------------------------- the slots

fn slot(name: &str, text: &str) -> Slot {
    Slot {
        name: name.to_owned(),
        profile: profile(text),
        held: Vec::new(),
        live: false,
        grabbed: Vec::new(),
        yielded: Vec::new(),
        stamp: Some(1),
        want: true,
        blocked: false,
    }
}

fn entry(name: &str, stamp: u64) -> Entry {
    Entry { name: name.to_owned(), stamp: Some(stamp) }
}

fn event(name: &str, mods: Mods) -> InputEvent {
    InputEvent { kind: EventKind::KeyDown(key(name)), mods }
}

/// The stops come first, the profiles for a program next, and the others last.
#[test]
fn claims_follow_their_precedence_whatever_the_order_of_the_slots() {
    let slots = vec![
        slot("a.toml", "[binds.F5]\nbind = \"p\"\n\n[binds.F8]\nbind = \"p\""),
        slot("b.toml", "[defaults]\nprogram = \"*term*\"\n[binds.F5]\nbind = \"q\""),
        slot("c.toml", "[defaults]\nemergency_stop = \"F8\"\n[binds.F6]\nbind = \"q\""),
    ];
    let claims = claim_all(&slots);
    let first = claims[0].as_ref().unwrap();
    assert!(first.sigs.is_empty(), "both triggers are taken");
    let owners: Vec<&str> = first.yielded.iter().map(|owned| owned.owner.as_str()).collect();
    assert_eq!(owners.len(), 2);
    assert!(owners.contains(&"b.toml") && owners.contains(&EMERGENCY_OWNER), "{owners:?}");
    assert_eq!(claims[1].as_ref().unwrap().sigs, vec![(key("F5"), Mods::none())]);
}

/// A slot's life: grabbed, announced, dormant again when its program loses the focus.
#[test]
fn a_slot_follows_the_focus() {
    let mut slots =
        vec![slot("b.toml", "[defaults]\nprogram = \"*term*\"\n[binds.F5]\nbind = \"q\"")];
    slots[0].want = false;
    assert!(needs_focus(&slots));

    decide_wants(&mut slots, &Some("xterm".to_owned()));
    assert!(slots[0].want);
    let mut claims = claim_all(&slots);
    let plan = slots[0].plan(&claims[0]);
    assert!(!plan.stop);
    assert_eq!(plan.grab, Some(vec![vec![key("F5")]]));
    let lines = slots[0].grabs_tried(claims.remove(0).unwrap(), false, None);
    assert_eq!(lines, vec!["active: b.toml"]);
    assert!(slots[0].live);

    slots[0].held = vec![Holdable::Key(key("a")), Holdable::Key(key("b"))];
    decide_wants(&mut slots, &None);
    assert!(slots[0].want, "a focus that cannot be read changes nothing");
    decide_wants(&mut slots, &Some("firefox".to_owned()));
    let claims = claim_all(&slots);
    assert!(claims[0].is_none());
    let plan = slots[0].plan(&claims[0]);
    assert!(plan.stop && plan.grab.is_none());
    assert_eq!(
        plan.releases,
        vec![EmitAction::KeyUp(key("b")), EmitAction::KeyUp(key("a"))]
    );
    assert_eq!(plan.lines, vec!["dormant: b.toml"]);
    assert!(!slots[0].live && slots[0].held.is_empty());
}

#[test]
fn a_program_decides_who_may_run() {
    let term = Some("*term*".to_owned());
    assert!(may_run(&None, &None, false));
    assert!(may_run(&term, &Some("XTerm".to_owned()), false));
    assert!(!may_run(&term, &Some("firefox".to_owned()), true));
    assert!(may_run(&term, &None, true) && !may_run(&term, &None, false));
    assert!(licensed(&term, &None), "a sequence goes on where nothing is known");
    assert!(!licensed(&term, &Some("firefox".to_owned())));
}

/// A grab that the server refuses blocks the slot, and is said once.
#[test]
fn a_refused_grab_blocks_the_slot() {
    let mut slots = vec![slot("a.toml", "[binds.F5]\nbind = \"p\"")];
    for said in [1, 0] {
        let mut claims = claim_all(&slots);
        slots[0].plan(&claims[0]);
        let claim = claims.remove(0).unwrap();
        let lines = slots[0].grabs_tried(claim, false, Some("F5 is taken".to_owned()));
        assert_eq!(lines.len(), said, "{lines:?}");
        assert!(!slots[0].live && slots[0].blocked);
    }
}

// ------------------------------------------------------------------------------------- the set

#[test]
fn slots_leave_with_their_links() {
    let mut gone = slot("a.toml", "[binds.F5]\nbind = \"p\"");
    gone.live = true;
    gone.held = vec![Holdable::Key(key("p"))];
    let slots = vec![
        gone,
        slot("b.toml", "[binds.F6]\nbind = \"p\""),
        slot("c.toml", "[binds.F7]\nbind = \"p\""),
    ];
    let (staying, leaving) = part_slots(slots, &vec![entry("b.toml", 2), entry("c.toml", 1)]);
    assert_eq!(staying.len(), 1);
    assert_eq!(staying[0].name, "c.toml");
    assert_eq!(leaving.len(), 2);
    assert_eq!((leaving[0].name.as_str(), leaving[0].why), ("a.toml", Leaving::Gone));
    assert!(leaving[0].stop);
    assert_eq!(leaving[0].releases, vec![EmitAction::KeyUp(key("p"))]);
    assert_eq!((leaving[1].name.as_str(), leaving[1].why), ("b.toml", Leaving::Replaced));
    assert!(departure_line(&leaving[0]).unwrap().contains("a.toml"));
    assert_eq!(departure_line(&leaving[1]), None);
}

#[test]
fn a_refusal_lasts_until_its_link_is_replaced() {
    let refused = vec![entry("a.toml", 1), entry("b.toml", 1), entry("c.toml", 1)];
    let left = retain_refused(&refused, &vec![entry("a.toml", 1), entry("b.toml", 2)]);
    assert_eq!(left.len(), 1);
    assert_eq!(left[0].name, "a.toml");
    assert!(!needs_loading(&Vec::new(), &left, "a.toml"));
    assert!(needs_loading(&Vec::new(), &left, "b.toml"));
    assert!(!needs_loading(&vec![slot("b.toml", "[binds.F5]\nbind = \"p\"")], &left, "b.toml"));
}

#[test]
fn a_profile_is_taken_in_by_name_order() {
    let mut slots = vec![
        slot("a.toml", "[binds.F5]\nbind = \"p\""),
        slot("c.toml", "[binds.F6]\nbind = \"p\""),
    ];
    let mut refused = Vec::new();
    let new = profile("[defaults]\nemergency_stop = \"ctrl q\"\n[binds.F7]\nbind = \"p\"");
    let admission = take_in(
        &mut slots, &mut refused, "b.toml", Some(4), Ok(new), false, &lexicon(), false,
    );
    match admission {
        Admission::Applied(lines) => {
            assert_eq!(lines[0], "profile applied: b.toml (1 binds)");
            assert!(lines[1].contains("ctrl q"), "{lines:?}");
        }
        other => panic!("{other:?}"),
    }
    let names: Vec<&str> = slots.iter().map(|slot| slot.name.as_str()).collect();
    assert_eq!(names, vec!["a.toml", "b.toml", "c.toml"]);
    assert_eq!(slots[1].stamp, Some(4));
    assert!(refused.is_empty());
}

/// A profile that does not parse, and one that would close a circle, are refused and remembered.
#[test]
fn a_refused_profile_is_remembered() {
    let mut slots = vec![slot("a.toml", "[binds.F5]\nbind = \"F6\"")];
    let mut refused = Vec::new();
    let why = Err("no such key".to_owned());
    let admission = take_in(
        &mut slots, &mut refused, "b.toml", Some(4), why, false, &lexicon(), false,
    );
    assert!(
        matches!(&admission, Admission::Refused(line) if line == "profile refused: b.toml: no such key"),
        "{admission:?}"
    );
    let back = Ok(profile("[binds.F6]\nbind = \"F5\""));
    let admission = take_in(
        &mut slots, &mut refused, "c.toml", Some(5), back, true, &lexicon(), false,
    );
    match admission {
        Admission::Refused(line) => assert!(line.contains("in a circle: "), "{line}"),
        other => panic!("{other:?}"),
    }
    assert_eq!(slots.len(), 1);
    let names: Vec<&str> = refused.iter().map(|entry| entry.name.as_str()).collect();
    assert_eq!(names, vec!["b.toml", "c.toml"]);
}

// ---------------------------------------------------------------------------------- the events

#[test]
fn events_go_to_whoever_grabbed_them() {
    let mut slots = vec![
        slot("a.toml", "[defaults]\nemergency_stop = \"F8\"\n[binds.F5]\nbind = \"p\""),
        slot("b.toml", "[defaults]\nemergency_stop = \"F8\"\n[binds.\"ctrl w\"]\nbind = \"p\""),
        slot("c.toml", "[binds.F6]\nbind = \"p\""),
    ];
    for slot in &mut slots {
        slot.live = true;
    }
    slots[1].grabbed = vec![(key("w"), CTRL)];
    slots[2].grabbed = vec![(key("F6"), Mods::none())];
    assert!(matches!(route(&slots, event("w", CTRL)), Route::Run(1)));
    assert!(matches!(route(&slots, event("w", Mods::none())), Route::Ignore));
    assert!(matches!(route(&slots, event("F5", Mods::none())), Route::Ignore), "nothing grabbed");
    match route(&slots, event("F8", Mods::none())) {
        Route::Stop(stopped) => assert_eq!(stopped, vec![0, 1], "exactly those that name it"),
        other => panic!("{other:?}"),
    }
    assert!(!seams_for(&slots[0]).gate);
    assert!(ends_slot(Some(Outcome::EmergencyStop)) && !ends_slot(None));
}

#[test]
fn a_stopped_slot_leaves_with_everything_it_held() {
    let mut slots = vec![
        slot("a.toml", "[binds.F5]\nbind = \"p\""),
        slot("b.toml", "[binds.F6]\nbind = \"p\""),
    ];
    slots[0].held = vec![Holdable::Button(Button::Left), Holdable::Key(key("p"))];
    let left = stop_slot(&mut slots, 0);
    assert_eq!(left.name, "a.toml");
    assert_eq!(
        left.releases,
        vec![EmitAction::KeyUp(key("p")), EmitAction::ButtonUp(Button::Left)]
    );
    assert_eq!(slots.len(), 1);
    slots[0].held = vec![Holdable::Key(key("q"))];
    let all = teardown(slots);
    assert_eq!(all[0].releases, vec![EmitAction::KeyUp(key("q"))]);
}

#[test]
fn the_emergency_grab_holds_every_stop_once() {
    let slots = vec![
        slot("a.toml", "[defaults]\nemergency_stop = [\"F8\", \"ctrl q\"]\n[binds.F5]\nbind = \"p\""),
        slot("b.toml", "[defaults]\nemergency_stop = \"F8\"\n[binds.F6]\nbind = \"p\""),
    ];
    let wanted = wanted_stops(&slots);
    assert_eq!(wanted, vec![vec![Key::F8], vec![Key::LeftCtrl, key("q")]]);
    assert_eq!(plan_emergency(&wanted, &wanted), EmergencyPlan::Keep);
    assert_eq!(
        plan_emergency(&Vec::new(), &wanted),
        EmergencyPlan::Change { stop: false, grab: true }
    );
    assert_eq!(
        plan_emergency(&wanted, &Vec::new()),
        EmergencyPlan::Change { stop: true, grab: false }
    );
}

// ------------------------------------------------------------------------------------ the loop

/// Plays a loop at a clock that stands still, until it waits or ends.
fn settle(run: &mut ManagerLoop, now: u64, interrupted: bool, empty: bool) -> Vec<bool> {
    let mut scans = Vec::new();
    loop {
        match run.request() {
            LoopRequest::Interrupted => run.advance(LoopReply::Answer(interrupted)),
            LoopRequest::Now => run.advance(LoopReply::Time(now)),
            LoopRequest::Maintain { scan } => {
                scans.push(scan);
                run.advance(LoopReply::Maintained { empty });
            }
            _ => return scans,
        }
    }
}

#[test]
fn maintenance_comes_round_and_scans_every_fourth_time() {
    let mut run = ManagerLoop::new(0);
    let mut now = 0;
    let mut scans = Vec::new();
    for _ in 0..8 {
        scans.extend(settle(&mut run, now, false, false));
        assert_eq!(run.request(), LoopRequest::Wait(now + MAINTENANCE_NANOS));
        now += MAINTENANCE_NANOS;
        run.advance(LoopReply::Woke(Wake::Deadline));
    }
    assert_eq!(scans, vec![true, false, false, false, true, false, false, false]);
}

#[test]
fn a_manager_ends_for_three_reasons() {
    let mut run = ManagerLoop::new(0);
    settle(&mut run, 0, true, false);
    assert_eq!(run.request(), LoopRequest::Stop(StopReason::Interrupted));

    let mut run = ManagerLoop::new(0);
    settle(&mut run, 0, false, true);
    assert_eq!(run.request(), LoopRequest::Stop(StopReason::NoProfilesLeft));

    let mut run = ManagerLoop::new(0);
    settle(&mut run, 0, false, false);
    run.advance(LoopReply::Woke(Wake::Interrupted));
    assert_eq!(run.request(), LoopRequest::Stop(StopReason::SourcesClosed));
}

#[test]
fn an_event_is_dispatched_before_anything_else() {
    let mut run = ManagerLoop::new(0);
    settle(&mut run, 0, false, false);
    let pressed = event("F5", Mods::none());
    run.advance(LoopReply::Woke(Wake::Event(pressed)));
    assert_eq!(run.request(), LoopRequest::Dispatch(pressed));
    run.advance(LoopReply::Failed);
    assert_eq!(run.request(), LoopRequest::Fail);
}

// ----------------------------------------------------------------------------------- the lines

#[test]
fn the_lines_of_a_manager() {
    let stopping =
        profile("[defaults]\nemergency_stop = [\"F8\", \"ctrl q\"]\n[binds.F5]\nbind = \"p\"");
    let lexicon = lexicon();
    assert_eq!(chord_text(&lexicon, &vec![Key::LeftCtrl, key("q")]), "ctrl q");
    let hint = stop_hint(&lexicon, &stopping, false).unwrap();
    assert!(hint.contains("F8") && hint.contains("ctrl q"), "{hint}");
    assert_eq!(stop_hint(&lexicon, &profile("[binds.F5]\nbind = \"p\""), false), None);
    assert_eq!(
        announce(Applied::Linked, "/c/a.toml", &stopping, true, &lexicon, false),
        vec!["applied: /c/a.toml (1 binds)".to_owned(), hint.clone()]
    );
    assert_eq!(
        announce(Applied::Reapplied, "/c/a.toml", &stopping, true, &lexicon, false),
        vec!["already applied: /c/a.toml".to_owned(), hint]
    );
    assert_eq!(
        announce(Applied::Reapplied, "/c/a.toml", &stopping, false, &lexicon, false),
        vec!["already applied: /c/a.toml"]
    );
    assert_eq!(
        reattached_line(7, false),
        "updating (re-applying) onto an existing manager (PID 7)"
    );
    assert_eq!(attached_line(7, false), "adding to an existing manager (PID 7)");
    assert_eq!(
        farewell(StopReason::Interrupted, 2),
        "\nstopped (interrupted); 2 profile(s) unapplied — nothing is enforced now"
    );
    assert!(farewell(StopReason::NoProfilesLeft, 0).starts_with("stopped (no profiles left); 0"));
    assert_eq!(
        greeting("/c/active"),
        "managing /c/active; apply/unapply from any shell, Ctrl+C stops everything"
    );
}

#[test]
fn a_terminal_that_moved_on_is_not_written_to() {
    assert!(lost_terminal(true, Some(7), 8));
    assert!(!lost_terminal(true, Some(8), 8));
    assert!(!lost_terminal(true, None, 8));
    assert!(!lost_terminal(false, Some(7), 8));
    assert_eq!(caught_interrupt(0), None);
    assert_eq!(caught_interrupt(2), Some(2));
}

/// The manager warns on the way out of a modifier that no key holds, however it came to its end.
#[test]
fn a_stuck_modifier_is_warned_of_on_the_way_out() {
    let shift = Mods { shift: true, ..Mods::none() };
    let state = |down: &[Key]| {
        KeyboardAnswer::State(KeyboardState {
            state: shift,
            down: down.to_vec(),
            caps_lock: false,
            num_lock: false,
        })
    };
    let said = |stopped, answer: &KeyboardAnswer| parting_lines(stopped, 1, &lexicon(), answer);
    let stuck = said(Some(StopReason::Interrupted), &state(&[]));
    assert_eq!(stuck.len(), 2);
    assert!(stuck[0].contains("stopped (interrupted)"), "{stuck:?}");
    assert!(stuck[1].contains("stuck modifier: shift"), "{stuck:?}");
    assert_eq!(said(None, &state(&[])), vec![stuck[1].clone()]);
    assert_eq!(said(Some(StopReason::Interrupted), &state(&[Key::LeftShift])).len(), 1);
    assert!(said(None, &KeyboardAnswer::NoServer).is_empty());
    assert!(said(None, &KeyboardAnswer::Silent).is_empty());
}

/// A pass accounts for every link: each is applied or refused, none is both, and nothing else is.
#[test]
fn a_pass_accounts_for_every_link() {
    let lexicon = lexicon();
    let entry = |name: &str, stamp| Entry { name: name.to_owned(), stamp: Some(stamp) };
    let slots =
        vec![slot("gone.toml", "[binds.F5]\nbind = \"p\""), slot("new.toml", "[binds.F6]\nbind = \"p\"")];
    let set = vec![entry("bad.toml", 1), entry("new.toml", 2)];
    let (mut slots, leaving) = part_slots(slots, &set);
    assert!(was_replaced(&leaving, "new.toml"));
    assert!(!was_replaced(&leaving, "gone.toml"));
    assert!(!was_replaced(&leaving, "bad.toml"));
    let mut refused = retain_refused(&vec![entry("bad.toml", 0)], &set);
    for link in &set {
        assert!(needs_loading(&slots, &refused, &link.name));
        let loaded = if link.name == "bad.toml" {
            Err("broken".to_owned())
        } else {
            Ok(profile("[binds.F7]\nbind = \"p\""))
        };
        let updated = was_replaced(&leaving, &link.name);
        take_in(&mut slots, &mut refused, &link.name, link.stamp, loaded, updated, &lexicon, false);
    }
    let applied: Vec<&str> = slots.iter().map(|slot| slot.name.as_str()).collect();
    let refused: Vec<&str> = refused.iter().map(|entry| entry.name.as_str()).collect();
    assert_eq!(applied, vec!["new.toml"]);
    assert_eq!(refused, vec!["bad.toml"]);
}

/// What is yielded comes in the order of its signatures, whatever the triggers are called.
#[test]
fn yields_come_in_the_order_of_their_signatures() {
    let alt = Mods { alt: true, ..Mods::none() };
    let taken = |signature| Owned { signature, owner: "x.toml".to_owned() };
    for (text, first, second) in [
        ("[binds.\"alt z\"]\nbind = \"p\"\n[binds.b]\nbind = \"p\"", ("z", alt), ("b", Mods::none())),
        ("[binds.\"alt b\"]\nbind = \"p\"\n[binds.z]\nbind = \"p\"", ("z", Mods::none()), ("b", alt)),
    ] {
        let (first, second) = ((key(first.0), first.1), (key(second.0), second.1));
        let mut claimed = vec![taken(second), taken(first)];
        let claim = claim_triggers(&profile(text), "y.toml", &mut claimed);
        let yielded: Vec<(Key, Mods)> =
            claim.yielded.iter().map(|owned| owned.signature).collect();
        assert_eq!(yielded, vec![first, second]);
    }
}
