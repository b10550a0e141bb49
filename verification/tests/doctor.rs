//! What the doctor says of a keyboard and of a machine.
use sequencer::doctor::{
    backend_pair, doctor, holding_keys, keyboard_report, stuck_warning, watch_keys, Check, CheckResult, DoctorReport, Facts, Fix,
    FixStep, KeyboardAnswer, KeyboardState,
};
use sequencer::exit;
use sequencer::input::{Button, Holdable, Key, Mods};
use sequencer::names::{Lexicon, Meaning, Name, Word};

/// The keys that these tests name, with their codes.
const CODES: [(&str, u16); 67] = [
    ("esc", 1), ("1", 2), ("2", 3), ("3", 4), ("4", 5), ("5", 6), ("6", 7), ("7", 8), ("8", 9),
    ("9", 10), ("0", 11), ("-", 12), ("=", 13), ("backspace", 14), ("tab", 15), ("q", 16),
    ("w", 17), ("e", 18), ("r", 19), ("t", 20), ("y", 21), ("u", 22), ("i", 23), ("o", 24),
    ("p", 25), ("[", 26), ("]", 27), ("enter", 28), ("a", 30), ("s", 31), ("d", 32), ("f", 33),
    ("g", 34), ("h", 35), ("j", 36), ("k", 37), ("l", 38), (";", 39), ("'", 40), ("z", 44),
    ("x", 45), ("v", 47), ("b", 48), ("n", 49), ("m", 50), (",", 51), (".", 52), ("/", 53),
    ("space", 57), ("F1", 59), ("F2", 60), ("F3", 61), ("F4", 62), ("F5", 63), ("F6", 64),
    ("F7", 65), ("F10", 68), ("home", 102), ("pgup", 104), ("end", 107), ("pgdn", 109),
    ("insert", 110), ("delete", 111), ("mute", 113), ("volume-down", 114), ("volume-up", 115),
    ("pause", 119),
];

/// The keys that have a variant of their own.
const OWN: [(&str, Key); 13] = [
    ("shift", Key::LeftShift),
    ("rshift", Key::RightShift),
    ("ctrl", Key::LeftCtrl),
    ("rctrl", Key::RightCtrl),
    ("alt", Key::LeftAlt),
    ("ralt", Key::RightAlt),
    ("meta", Key::LeftMeta),
    ("rmeta", Key::RightMeta),
    ("c", Key::C),
    ("F8", Key::F8),
    ("F9", Key::F9),
    ("capslock", Key::CapsLock),
    ("numlock", Key::NumLock),
];

/// Spellings beside the names.
const ALIASES: [(&str, &str); 9] = [
    ("PgUp", "pgup"),
    ("PgDn", "pgdn"),
    ("{", "["),
    ("}", "]"),
    ("!", "1"),
    ("?", "/"),
    ("<", ","),
    (">", "."),
    ("escape", "esc"),
];

fn key(name: &str) -> Key {
    if let Some((_, key)) = OWN.iter().find(|(own, _)| *own == name) {
        return *key;
    }
    let (_, code) = CODES.iter().find(|(code, _)| *code == name).expect("a key of the table");
    Key::Other(*code)
}

/// A backend's names: every key in both cases, the mouse buttons, and the wheel as reserved.
fn lexicon() -> Lexicon {
    let names = CODES.iter().map(|(name, _)| *name).chain(OWN.iter().map(|(name, _)| *name));
    let mut lexicon = Lexicon { words: Vec::new(), names: Vec::new(), mods: Vec::new() };
    for name in names {
        let input = Holdable::Key(key(name));
        lexicon.names.push(Name { input, text: name.to_owned() });
        for text in [name.to_owned(), name.to_lowercase(), name.to_uppercase()] {
            lexicon.words.push(Word { text, meaning: Meaning::Input(input) });
        }
    }
    for (alias, name) in ALIASES {
        let meaning = Meaning::Input(Holdable::Key(key(name)));
        lexicon.words.push(Word { text: alias.to_owned(), meaning });
    }
    for (text, button) in [("mouse1", Button::Left), ("mouse2", Button::Right)] {
        let input = Holdable::Button(button);
        lexicon.names.push(Name { input, text: text.to_owned() });
        lexicon.words.push(Word { text: text.to_owned(), meaning: Meaning::Input(input) });
    }
    lexicon.words.push(Word { text: "wheel-up".to_owned(), meaning: Meaning::Reserved });
    for number in 0..32 {
        let classes = ["shift", "ctrl", "alt", "ralt", "meta"];
        let held: Vec<&str> =
            (0..5).filter(|bit| number & (1 << bit) != 0).map(|bit| classes[bit]).collect();
        lexicon.mods.push(held.join("+"));
    }
    lexicon
}

const SHIFT: Mods = Mods { shift: true, ctrl: false, alt: false, ralt: false, meta: false };

fn snapshot(state: Mods, down: &[Key]) -> KeyboardState {
    KeyboardState { state, down: down.to_vec(), caps_lock: false, num_lock: false }
}

fn report(keyboard: &KeyboardState) -> Vec<String> {
    keyboard_report(&lexicon(), keyboard)
}

/// An idle keyboard is one line, and nothing in it sounds like a problem.
#[test]
fn an_idle_keyboard_reports_one_consistent_line() {
    let lines = report(&snapshot(Mods::none(), &[]));
    assert_eq!(lines.len(), 1, "{lines:?}");
    assert!(
        lines[0].contains("consistent")
            && lines[0].contains("no modifier active")
            && lines[0].contains("no key down"),
        "{}",
        lines[0]
    );
    assert!(!lines[0].contains("[fail]"));
}

/// The whole point: a class the server has active that no key is supplying.
/// The advice names both sides, because only the stuck one clears it.
#[test]
fn a_modifier_with_no_key_behind_it_is_reported_stuck() {
    let lines = report(&snapshot(SHIFT, &[]));
    let text = lines.join("\n");
    assert!(text.contains("[fail]") && text.contains("stuck modifier: shift"));
    assert!(
        text.contains("left and the right shift") && text.contains("stuck side"),
        "the fix must name both sides: {text}"
    );
    assert!(
        text.contains("setxkbmap"),
        "and the one command that resets everything: {text}"
    );
}

/// A held key explains its own class: fingers on the keyboard are not a fault,
/// but a key down with no fingers is, so the line says how to tell.
#[test]
fn a_modifier_its_own_key_supplies_is_not_stuck() {
    let lines = report(&snapshot(SHIFT, &[Key::RightShift]));
    let text = lines.join("\n");
    assert!(!text.contains("[fail]"), "{text}");
    assert!(
        text.contains("active: shift") && text.contains("down: rshift"),
        "the facts name the side that is down: {text}"
    );
    assert!(
        text.contains("hands off the keyboard"),
        "a held key needs the how-to-tell line: {text}"
    );
}

/// Sided classes get "left and right"; one-key classes get the key. Ctrl held on
/// one side still covers the class, so only the unsupplied class is reported.
#[test]
fn one_key_classes_are_not_told_to_tap_a_side() {
    let alts = Mods { alt: true, ralt: true, ..Mods::none() };
    let text = report(&snapshot(alts, &[])).join("\n");
    assert!(
        text.contains("tap alt once") && text.contains("tap ralt once"),
        "{text}"
    );
    assert!(!text.contains("left and the right"), "{text}");

    let ctrl_meta = Mods { ctrl: true, meta: true, ..Mods::none() };
    let mixed = report(&snapshot(ctrl_meta, &[Key::LeftCtrl])).join("\n");
    assert!(
        mixed.contains("stuck modifier: meta") && !mixed.contains("ctrl —"),
        "a supplied class is not stuck: {mixed}"
    );
}

/// Locks are never a failure — they are a state the user may have chosen — but
/// they are reported, because a lock is what strands a layout on the wrong group.
#[test]
fn locks_are_reported_without_being_faults() {
    let mut keyboard = snapshot(Mods::none(), &[]);
    keyboard.caps_lock = true;
    let lines = report(&keyboard);
    assert_eq!(lines.len(), 1, "{lines:?}");
    assert!(lines[0].contains("caps lock ON") && !lines[0].contains("[fail]"));

    keyboard.num_lock = true;
    assert!(report(&keyboard)[0].contains("caps lock and num lock ON"));

    keyboard.caps_lock = false;
    assert!(report(&keyboard)[0].contains("num lock ON"));
}

/// The lines of a stuck keyboard, in full.
#[test]
fn a_stuck_keyboard_reports_its_fix() {
    assert_eq!(
        report(&snapshot(SHIFT, &[])),
        vec![
            "keyboard: [fail] stuck modifier: shift — the server has it active, no key is \
             holding it",
            "  every chord you press arrives with shift added, so shortcuts match nothing \
             (active: shift, no key down)",
            "      $ tap the left and the right shift once each — only the stuck side clears it",
            "      $ setxkbmap <your layout>   # resets locks, latches and the layout group",
        ]
    );
    assert_eq!(watch_keys(SHIFT), vec![Key::LeftShift, Key::RightShift]);
}

fn check(label: &str, result: CheckResult) -> Check {
    Check {
        label: label.to_owned(),
        result,
        fix: Fix {
            title: "Load the module".to_owned(),
            why: "nothing can be sent without it".to_owned(),
            steps: vec![
                FixStep::Shell("modprobe uinput".to_owned()),
                FixStep::WriteFile { path: "/etc/x".to_owned(), body: "one\ntwo\n".to_owned() },
                FixStep::Manual("log in again".to_owned()),
            ],
            caution: Some("this lasts".to_owned()),
        },
    }
}

fn facts(on_x11: bool, checks: Vec<Check>) -> Facts {
    Facts {
        version: "0.1.0".to_owned(),
        os: "linux".to_owned(),
        arch: "x86_64".to_owned(),
        session: "X11".to_owned(),
        on_x11,
        keyboard: KeyboardAnswer::NoServer,
        verbose: false,
        display: Some(":0".to_owned()),
        wayland_display: None,
        session_type: None,
        available: true,
        checks,
    }
}

fn told(facts: &Facts) -> DoctorReport {
    doctor(&lexicon(), facts)
}

#[test]
fn a_machine_that_meets_everything_is_ready() {
    let report = told(&facts(false, vec![check("uinput", CheckResult::Pass)]));
    assert_eq!(report.code, exit::OK);
    let text = report.lines.join("\n");
    assert!(text.starts_with("sequencer 0.1.0  (linux x86_64)\nsession: X11\nbackend: uinput"));
    assert!(text.ends_with("[ok]   uinput\n\nReady."), "{text}");
    assert!(!text.contains("DISPLAY"), "the environment is only shown on request");
}

#[test]
fn an_unmet_requirement_comes_with_its_fix() {
    let checks = vec![
        check("uinput", CheckResult::Fail("not loaded".to_owned())),
        check("evdev", CheckResult::Unknown("no answer".to_owned())),
    ];
    let report = told(&facts(false, checks));
    assert_eq!(report.code, exit::FAILURE);
    let text = report.lines.join("\n");
    assert!(text.contains(
        "[fail] uinput: not loaded\n[??]   evdev: no answer\n\nLoad the module\n  nothing can be \
         sent without it\n      $ modprobe uinput\n      write /etc/x:\n          one\n          \
         two\n      log in again\n  NOTE: this lasts\n"
    ), "{text}");
    assert!(text.contains("detect-key` still works"), "{text}");
}

/// The checks are informational where the X server does all of it.
#[test]
fn on_x11_nothing_is_missing() {
    let mut unmet = facts(true, vec![check("uinput", CheckResult::Fail("none".to_owned()))]);
    unmet.verbose = true;
    let report = told(&unmet);
    assert_eq!(report.code, exit::OK);
    let text = report.lines.join("\n");
    assert!(text.contains("None of that is needed here"), "{text}");
    assert!(text.contains("  DISPLAY=:0\n"), "{text}");
    assert_eq!(told(&facts(true, Vec::new())).code, exit::OK);
}

#[test]
fn a_build_that_can_reach_nothing_says_so() {
    let alone = told(&facts(false, Vec::new()));
    assert_eq!(alone.code, exit::FAILURE);
    assert!(alone.lines.join("\n").contains("no X server answered"));

    let mut none = facts(false, Vec::new());
    none.available = false;
    none.os = "plan9".to_owned();
    let none = told(&none);
    assert_eq!(none.code, exit::FAILURE);
    assert!(none.lines.join("\n").contains("this build has none for plan9"));
    assert!(backend_pair(true).contains("no sudo"));
}

#[test]
fn what_the_server_believes_is_part_of_the_report() {
    let mut with_state = facts(true, Vec::new());
    with_state.keyboard = KeyboardAnswer::State(snapshot(SHIFT, &[]));
    assert!(told(&with_state).lines.join("\n").contains("stuck modifier: shift"));
    with_state.keyboard = KeyboardAnswer::Silent;
    let silent = told(&with_state).lines.join("\n");
    assert!(silent.contains("keyboard:"), "{silent}");
}

#[test]
fn doctor_reports_the_session_and_never_panics() {
    for on_x11 in [false, true] {
        let report = told(&facts(on_x11, Vec::new()));
        let text = report.lines.join("\n");
        assert!(text.contains("session:"), "{text}");
        assert!(
            report.code == exit::OK || report.code == exit::FAILURE,
            "unexpected exit {}",
            report.code
        );
    }
}

/// The keys of every class in a set, and none of the others.
#[test]
fn the_keys_that_hold_classes_are_known() {
    let mods = Mods { shift: true, ralt: true, ..Mods::none() };
    assert_eq!(holding_keys(mods), vec![Key::LeftShift, Key::RightShift, Key::RightAlt]);
    assert!(holding_keys(Mods::none()).is_empty());
}

/// Only a class that no key holds is warned of.
#[test]
fn a_warning_names_just_the_stuck_classes() {
    let mods = Mods { shift: true, ctrl: true, ..Mods::none() };
    let answer = KeyboardAnswer::State(snapshot(mods, &[Key::LeftCtrl]));
    let line = stuck_warning(&lexicon(), &answer).expect("shift is stuck");
    assert!(line.contains("stuck modifier: shift \u{2014}"), "{line}");
    let quiet = KeyboardAnswer::State(snapshot(mods, &[Key::LeftCtrl, Key::RightShift]));
    assert_eq!(stuck_warning(&lexicon(), &quiet), None);
}
