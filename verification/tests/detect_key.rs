//! Naming presses: off a terminal, off the devices, and in the printed reference.
use std::collections::{HashSet, VecDeque};

use sequencer::detect_key::decode::{asks_to_quit, decode, terminal_burst, Decoded};
use sequencer::detect_key::reference::{
    intro, reference, set_lines, Category, CategoryLabel, InputTable, MapEntry, Spellings,
    KEYBOARD_MAP,
};
use sequencer::detect_key::report::{
    pressed_name, still_home, DetectReply, DetectRequest, DetectRun, QUIT_POLL_NANOS,
};
use sequencer::input::{Button, EventKind, Holdable, InputEvent, Key, Mods};
use sequencer::names::{Lexicon, Meaning, Name, Word};
use sequencer::runtime::Wake;

/// The keys that these tests name, with their codes.
const CODES: [(&str, u16); 67] = [
    ("esc", 1), ("1", 2), ("2", 3), ("3", 4), ("4", 5), ("5", 6), ("6", 7), ("7", 8), ("8", 9),
    ("9", 10), ("0", 11), ("-", 12), ("=", 13), ("backspace", 14), ("tab", 15), ("q", 16),
    ("w", 17), ("e", 18), ("r", 19), ("t", 20), ("y", 21), ("u", 22), ("i", 23), ("o", 24),
    ("p", 25), ("[", 26), ("]", 27), ("enter", 28), ("a", 30), ("s", 31), ("d", 32), ("f", 33),
    ("g", 34), ("h", 35), ("j", 36), ("k", 37), ("l", 38), (";", 39), ("'", 40), ("z", 44),
    ("x", 45), ("v", 47), ("b", 48), ("n", 49), ("m", 50), (",", 51), (".", 52), ("/", 53),
    ("space", 57), ("F1", 59), ("F2", 60), ("F3", 61), ("F4", 62), ("F5", 63), ("F6", 64),
    ("F7", 65), ("F10", 68), ("home", 102), ("pgup", 104), ("end", 107), ("pgdn", 109),
    ("insert", 110), ("delete", 111), ("mute", 113), ("volume-down", 114), ("volume-up", 115),
    ("pause", 119),
];

/// The keys that have a variant of their own.
const OWN: [(&str, Key); 13] = [
    ("shift", Key::LeftShift),
    ("rshift", Key::RightShift),
    ("ctrl", Key::LeftCtrl),
    ("rctrl", Key::RightCtrl),
    ("alt", Key::LeftAlt),
    ("ralt", Key::RightAlt),
    ("meta", Key::LeftMeta),
    ("rmeta", Key::RightMeta),
    ("c", Key::C),
    ("F8", Key::F8),
    ("F9", Key::F9),
    ("capslock", Key::CapsLock),
    ("numlock", Key::NumLock),
];

/// Spellings beside the names.
const ALIASES: [(&str, &str); 9] = [
    ("PgUp", "pgup"),
    ("PgDn", "pgdn"),
    ("{", "["),
    ("}", "]"),
    ("!", "1"),
    ("?", "/"),
    ("<", ","),
    (">", "."),
    ("escape", "esc"),
];

fn key(name: &str) -> Key {
    if let Some((_, key)) = OWN.iter().find(|(own, _)| *own == name) {
        return *key;
    }
    let (_, code) = CODES.iter().find(|(code, _)| *code == name).expect("a key of the table");
    Key::Other(*code)
}

/// A backend's names: every key in both cases, the mouse buttons, and the wheel as reserved.
fn lexicon() -> Lexicon {
    let names = CODES.iter().map(|(name, _)| *name).chain(OWN.iter().map(|(name, _)| *name));
    let mut lexicon = Lexicon { words: Vec::new(), names: Vec::new(), mods: Vec::new() };
    for name in names {
        let input = Holdable::Key(key(name));
        lexicon.names.push(Name { input, text: name.to_owned() });
        for text in [name.to_owned(), name.to_lowercase(), name.to_uppercase()] {
            lexicon.words.push(Word { text, meaning: Meaning::Input(input) });
        }
    }
    for (alias, name) in ALIASES {
        let meaning = Meaning::Input(Holdable::Key(key(name)));
        lexicon.words.push(Word { text: alias.to_owned(), meaning });
    }
    for (text, button) in [("mouse1", Button::Left), ("mouse2", Button::Right)] {
        let input = Holdable::Button(button);
        lexicon.names.push(Name { input, text: text.to_owned() });
        lexicon.words.push(Word { text: text.to_owned(), meaning: Meaning::Input(input) });
    }
    lexicon.words.push(Word { text: "wheel-up".to_owned(), meaning: Meaning::Reserved });
    for number in 0..32 {
        let classes = ["shift", "ctrl", "alt", "ralt", "meta"];
        let held: Vec<&str> =
            (0..5).filter(|bit| number & (1 << bit) != 0).map(|bit| classes[bit]).collect();
        lexicon.mods.push(held.join("+"));
    }
    lexicon
}

fn all(bytes: &[u8]) -> Vec<Decoded> {
    decode(&lexicon(), &bytes.to_vec())
}

fn one(bytes: &[u8]) -> Decoded {
    let mut all = all(bytes);
    assert_eq!(all.len(), 1, "{bytes:?} should be one input");
    all.remove(0)
}

/// The report names the key, never the character: `{` is the `[` key with shift
/// held, and shift is not the terminal's business to report.
#[test]
fn a_shifted_char_reports_its_base_key() {
    assert_eq!(one(b"{"), Decoded::Char(key("[")));
    assert_eq!(one(b"A"), Decoded::Char(key("a")));
    assert_eq!(one(b"!"), Decoded::Char(key("1")));
    assert_eq!(one(b"?"), Decoded::Char(key("/")));
}

#[test]
fn charless_keys_get_their_words() {
    assert_eq!(one(b" "), Decoded::Named("space"));
    assert_eq!(one(b"\r"), Decoded::Named("enter"));
    assert_eq!(one(b"\t"), Decoded::Named("tab"));
    assert_eq!(one(&[0x7f]), Decoded::Named("backspace"));
    assert_eq!(one(&[0x1b]), Decoded::Named("esc"));
}

/// A control char is ctrl+letter, and the key is the letter — except Ctrl+C, which
/// stays the way out and must never be reported as `c`.
#[test]
fn ctrl_c_quits_and_other_ctrl_chars_name_their_letter() {
    assert_eq!(one(&[0x03]), Decoded::Quit);
    assert_eq!(one(&[0x01]), Decoded::Char(key("a")));
    assert_eq!(one(&[0x1a]), Decoded::Char(key("z")));
}

#[test]
fn escape_sequences_cover_the_nav_cluster_and_function_keys() {
    assert_eq!(one(b"\x1b[A"), Decoded::Named("up"));
    assert_eq!(one(b"\x1b[D"), Decoded::Named("left"));
    assert_eq!(one(b"\x1b[H"), Decoded::Named("home"));
    assert_eq!(one(b"\x1b[2~"), Decoded::Named("insert"));
    assert_eq!(one(b"\x1b[3~"), Decoded::Named("delete"));
    assert_eq!(one(b"\x1b[5~"), Decoded::Named("pgup"));
    assert_eq!(one(b"\x1b[6~"), Decoded::Named("pgdn"));
    assert_eq!(one(b"\x1bOP"), Decoded::Named("f1"));
    assert_eq!(one(b"\x1b[15~"), Decoded::Named("f5"));
    assert_eq!(one(b"\x1b[24~"), Decoded::Named("f12"));
}

/// Modifier parameters are stripped: shift-PageUp is still the pgup key, and
/// shift-tab is still the tab key. The key, not the chord, is the answer.
#[test]
fn modified_sequences_report_the_base_key() {
    assert_eq!(one(b"\x1b[5;2~"), Decoded::Named("pgup"));
    assert_eq!(one(b"\x1b[1;5A"), Decoded::Named("up"));
    assert_eq!(one(b"\x1b[Z"), Decoded::Named("tab"));
}

/// In application-keypad mode the numpad reports its own keys, which is the whole
/// point of switching the mode on: kpmultiply is not the `*` it types.
#[test]
fn application_keypad_sequences_name_the_numpad_keys() {
    assert_eq!(one(b"\x1bOj"), Decoded::Named("kpmultiply"));
    assert_eq!(one(b"\x1bOk"), Decoded::Named("kpplus"));
    assert_eq!(one(b"\x1bOo"), Decoded::Named("kpdivide"));
    assert_eq!(one(b"\x1bOM"), Decoded::Named("kpenter"));
    assert_eq!(one(b"\x1bOp"), Decoded::Named("kp0"));
    assert_eq!(one(b"\x1bOy"), Decoded::Named("kp9"));
}

/// Alt+char arrives as ESC then the char; the key is the char.
#[test]
fn alt_char_reports_the_char_key() {
    assert_eq!(one(b"\x1bx"), Decoded::Char(key("x")));
}

#[test]
fn a_burst_of_presses_decodes_in_order() {
    assert_eq!(
        all(b"ab\x1b[A "),
        vec![
            Decoded::Char(key("a")),
            Decoded::Char(key("b")),
            Decoded::Named("up"),
            Decoded::Named("space"),
        ]
    );
}

/// A layout char the table has no key for prints nothing, and its UTF-8 tail must
/// not be misread as extra presses.
#[test]
fn non_ascii_chars_are_consumed_whole() {
    assert_eq!(all("é".as_bytes()), vec![Decoded::Unknown]);
}

/// A sequence that is cut short, and one that nothing is known of.
#[test]
fn sequences_without_a_key_are_still_taken_apart() {
    assert_eq!(one(b"\x1b[99~"), Decoded::Unknown);
    assert_eq!(
        all(b"\x1b[1;"),
        vec![
            Decoded::Named("esc"),
            Decoded::Char(key("[")),
            Decoded::Char(key("1")),
            Decoded::Char(key(";")),
        ]
    );
    assert_eq!(all(b""), Vec::new());
}

#[test]
fn a_burst_prints_up_to_the_interrupt() {
    let burst = terminal_burst(&lexicon(), &b"a{\x03b".to_vec());
    assert_eq!(burst.lines, vec!["a", "["]);
    assert!(burst.quit);
    let burst = terminal_burst(&lexicon(), &"aé \r".as_bytes().to_vec());
    assert_eq!(burst.lines, vec!["a", "space", "enter"]);
    assert!(!burst.quit);
    assert!(asks_to_quit(&vec![0x61, 0x03]));
    assert!(!asks_to_quit(&vec![0x61, 0x1b]));
}

// ------------------------------------------------------------------------------- the devices

/// Plays a run against a pump and a clock that stands still; what was printed, and how often the
/// pump was asked.
fn report_until_quit(
    mut pump: impl FnMut() -> Wake,
    quit: impl Fn() -> bool,
    window: Option<u32>,
) -> (String, u32) {
    let lexicon = lexicon();
    let mut run = DetectRun::new(Some(7), false);
    let mut out = String::new();
    let mut asked = 0;
    loop {
        let reply = match run.request(&lexicon) {
            DetectRequest::Clock => DetectReply::Time(0),
            DetectRequest::Quit => DetectReply::Quit(quit()),
            DetectRequest::Focus => DetectReply::Focus(None),
            DetectRequest::Print(line) => {
                out.push_str(&line);
                out.push('\n');
                DetectReply::Done
            }
            DetectRequest::Wait(_) => {
                asked += 1;
                DetectReply::Woke(pump())
            }
            DetectRequest::Window => DetectReply::Window(window),
            DetectRequest::Over => return (out, asked),
        };
        run.advance(&lexicon, reply);
    }
}

fn physical(kind: EventKind) -> Wake {
    Wake::Event(InputEvent { kind, mods: Mods::none() })
}

/// A pump that plays a script of presses, then closes.
fn script(kinds: &[EventKind]) -> impl FnMut() -> Wake {
    let mut script: VecDeque<EventKind> = kinds.iter().copied().collect();
    move || script.pop_front().map_or(Wake::Interrupted, physical)
}

/// A device that always has an event ready, until its budget is spent.
fn busy(kind: EventKind, budget: u32) -> impl FnMut() -> Wake {
    let mut left = budget;
    move || {
        if left == 0 {
            return Wake::Interrupted;
        }
        left -= 1;
        physical(kind)
    }
}

/// Ctrl+C must be noticed while the devices are busy, and a moved mouse is exactly that, silently,
/// because motion prints nothing.
#[test]
fn a_busy_device_cannot_starve_the_quit_check() {
    let (out, asked) =
        report_until_quit(busy(EventKind::Motion { dx: 4, dy: 9 }, 1_000), || true, Some(7));
    assert!(
        asked <= 1,
        "the quit check waited for the event stream to go quiet: pumped {asked} times"
    );
    assert!(out.is_empty(), "motion prints nothing");
}

/// The chord ends the run only while focus is where it started. Unknown counts as
/// home, in either direction: a quit nobody can reach is the worse bug.
#[test]
fn the_quit_chord_belongs_to_the_window_the_run_started_in() {
    assert!(still_home(Some(7), Some(7)), "same window: this run's Ctrl+C");
    assert!(!still_home(Some(7), Some(9)), "another window has focus: not this run's Ctrl+C");
    assert!(still_home(None, Some(9)), "nothing to compare against");
    assert!(still_home(Some(7), None), "no readable answer now");
    assert!(still_home(None, None));
}

/// Ctrl+C off the DEVICES ends the run — the path the terminal cannot swallow.
/// Both keys are still named on the way out, and nothing after the chord runs.
#[test]
fn ctrl_c_from_the_devices_quits() {
    let pump = script(&[
        EventKind::KeyDown(Key::LeftCtrl),
        EventKind::KeyDown(Key::C),
        EventKind::KeyDown(Key::F9),
    ]);
    let (out, _) = report_until_quit(pump, || false, None);
    assert_eq!(out, "ctrl\nc\n", "both keys are named, and nothing past the chord is read");
}

/// The chord typed into another window is that window's.
#[test]
fn ctrl_c_in_another_window_does_not_quit() {
    let pump = script(&[
        EventKind::KeyDown(Key::RightCtrl),
        EventKind::KeyDown(Key::C),
        EventKind::KeyDown(Key::F9),
    ]);
    let (out, _) = report_until_quit(pump, || false, Some(9));
    assert_eq!(out, "rctrl\nc\nF9\n");
}

/// `c` alone is just a key: only ctrl HELD makes it the quit chord, and a
/// released ctrl stops counting.
#[test]
fn c_without_ctrl_held_is_only_a_key() {
    let pump = script(&[
        EventKind::KeyDown(Key::C),
        EventKind::KeyDown(Key::LeftCtrl),
        EventKind::KeyUp(Key::LeftCtrl),
        EventKind::KeyDown(Key::C),
    ]);
    let (out, _) = report_until_quit(pump, || false, None);
    assert_eq!(out, "c\nctrl\nc\n", "the whole script was read: no quit fired");
}

/// And with nothing asking it to stop, presses still print by name until the
/// devices close.
#[test]
fn presses_print_until_the_devices_close() {
    let (out, _) = report_until_quit(busy(EventKind::KeyDown(Key::F9), 3), || false, None);
    assert_eq!(out, "F9\nF9\nF9\n");
}

/// A program that takes the focus is printed once, and looked for at every fourth look.
#[test]
fn the_focus_is_reported_when_it_changes() {
    let lexicon = lexicon();
    let mut run = DetectRun::new(None, true);
    let mut out: Vec<String> = Vec::new();
    let mut focus = VecDeque::from([Some("xterm"), Some("xterm"), None, Some("firefox")]);
    let mut now: u64 = 0;
    while !focus.is_empty() {
        let reply = match run.request(&lexicon) {
            DetectRequest::Clock => DetectReply::Time(now),
            DetectRequest::Quit => DetectReply::Quit(false),
            DetectRequest::Focus => {
                DetectReply::Focus(focus.pop_front().unwrap().map(str::to_owned))
            }
            DetectRequest::Print(line) => {
                out.push(line);
                DetectReply::Done
            }
            DetectRequest::Wait(until) => {
                assert_eq!(until, now + QUIT_POLL_NANOS);
                now = until;
                DetectReply::Woke(Wake::Deadline)
            }
            other => panic!("unexpected {other:?}"),
        };
        run.advance(&lexicon, reply);
    }
    assert_eq!(out, vec!["focus: xterm"]);
    assert!(matches!(run.request(&lexicon), DetectRequest::Print(line) if line == "focus: firefox"));
    assert_eq!(now, 11 * QUIT_POLL_NANOS);
}

/// A wheel notch reports by its reserved name — the device path hears scrolls now.
#[test]
fn wheel_notches_report_their_names() {
    let lexicon = lexicon();
    assert_eq!(
        pressed_name(&lexicon, EventKind::Scroll { dx: 0, dy: 1 }).as_deref(),
        Some("wheel-up")
    );
    assert_eq!(
        pressed_name(&lexicon, EventKind::Scroll { dx: 0, dy: -3 }).as_deref(),
        Some("wheel-down")
    );
    assert_eq!(
        pressed_name(&lexicon, EventKind::Scroll { dx: -1, dy: 0 }).as_deref(),
        Some("wheel-left")
    );
    assert_eq!(pressed_name(&lexicon, EventKind::Scroll { dx: 0, dy: 0 }), None);
    assert_eq!(
        pressed_name(&lexicon, EventKind::ButtonDown(Button::Left)).as_deref(),
        Some("mouse1")
    );
}

// ----------------------------------------------------------------------------- the reference

fn table() -> InputTable {
    let listed = [
        (Category::Nav, "pgup", "page up"),
        (Category::Nav, "pgdn", ""),
        (Category::Arrow, "up", ""),
        (Category::Numpad, "kp0", ""),
        (Category::Modifier, "rmeta", ""),
        (Category::Modifier, "rctrl", ""),
        (Category::Media, "volume-up", ""),
        (Category::Mouse, "mouse1", "left"),
        (Category::Mouse, "mouse4", ""),
        (Category::Mouse, "wheel-up", "reserved"),
        (Category::Pad, "pad-south", ""),
        (Category::Main, "esc", ""),
        (Category::Main, "capslock", ""),
        (Category::Main, "/", ""),
        (Category::Main, "q", ""),
        (Category::Main, "f13", ""),
    ];
    let labels = [
        (Category::Nav, "navigation"),
        (Category::Arrow, "arrows"),
        (Category::Numpad, "numpad"),
        (Category::Modifier, "modifiers"),
        (Category::Media, "media"),
        (Category::Mouse, "mouse"),
        (Category::Pad, "gamepad"),
    ];
    InputTable {
        entries: listed
            .iter()
            .map(|(category, name, gloss)| MapEntry {
                category: *category,
                name: (*name).to_owned(),
                gloss: (*gloss).to_owned(),
            })
            .collect(),
        labels: labels
            .iter()
            .map(|(category, text)| CategoryLabel { category: *category, text: (*text).to_owned() })
            .collect(),
        spellings: vec![
            Spellings { name: "esc".to_owned(), aliases: vec!["escape".to_owned()] },
            Spellings { name: "q".to_owned(), aliases: Vec::new() },
        ],
    }
}

/// Every name of the table must appear somewhere in what is printed — the drawing or the rendered
/// sets.
#[test]
fn every_named_key_appears_in_the_printed_reference() {
    let table = table();
    let text = format!("{KEYBOARD_MAP}\n{}", reference(&table));
    // Split on whitespace, box art and parens only: `,` and `/` are list separators
    // in the output but are ALSO key names, so they must survive as standalone
    // tokens (the drawing renders each in its own cell). Alias pairs like
    // `esc/escape` are then sub-split, keeping both spellings.
    let mut tokens = HashSet::new();
    for raw in text
        .split(|c: char| c.is_whitespace() || "│╭╮╰╯─()".contains(c))
        .filter(|token| !token.is_empty())
    {
        tokens.insert(raw.to_ascii_lowercase());
        for part in raw.split(['/', ',']).filter(|part| !part.is_empty()) {
            tokens.insert(part.to_ascii_lowercase());
        }
    }
    let is_high_function_key = |name: &str| {
        // The drawing says "(up to F24)" instead of listing f13..f24 one by one.
        name.strip_prefix('f')
            .and_then(|n| n.parse::<u8>().ok())
            .is_some_and(|n| (13..=24).contains(&n))
    };
    for entry in &table.entries {
        if is_high_function_key(&entry.name) {
            continue;
        }
        assert!(
            tokens.contains(&entry.name.to_ascii_lowercase()),
            "`{}` is in the input map but printed nowhere by detect-key",
            entry.name
        );
    }
    assert!(tokens.contains("escape"), "an alias is printed beside its key");
}

#[test]
fn a_set_is_labelled_and_wrapped() {
    let mut text = String::from("x\n");
    set_lines(&mut text, "nav", &vec!["pgup".to_owned(), "pgdn".to_owned()]);
    assert_eq!(text, "x\n  nav:         pgup , pgdn\n");

    let wide: Vec<String> = vec!["a".repeat(70), "b".to_owned(), "c".to_owned()];
    let mut text = String::new();
    set_lines(&mut text, "wide", &wide);
    assert_eq!(
        text,
        format!("  wide:        {} ,\n               b , c\n", "a".repeat(70)),
    );

    let mut text = String::new();
    set_lines(&mut text, "none", &Vec::new());
    assert_eq!(text, "  none:\n");
}

#[test]
fn the_reference_lists_the_families_in_order() {
    let text = reference(&table());
    assert!(text.starts_with(
        "Every name above is valid in a binds file. The rest of a full keyboard:\n\n  \
         navigation:  pgup (page up) , pgdn\n  arrows:      up\n"
    ));
    assert!(text.contains("  modifiers:   rmeta , rctrl\n               (a bare modifier is the LEFT one)\n"));
    assert!(text.contains("\n  aliases:     esc/escape\n"));
    assert!(text.ends_with("whenever it changes.\n"));
}

#[test]
fn a_quiet_run_prints_no_reference() {
    assert_eq!(intro(&table(), true), None);
    let shown = intro(&table(), false).unwrap();
    assert_eq!(shown, format!("{KEYBOARD_MAP}\n\n{}", reference(&table())));
}

/// Every press prints its bindable name exactly once, releases print nothing, and mouse buttons use
/// the binds spelling (`mouse1`), not `left` — which would be indistinguishable from the arrow key.
#[test]
fn detect_key_names_each_press_once_and_nothing_else() {
    let pump = script(&[
        EventKind::KeyDown(Key::F9),
        EventKind::KeyUp(Key::F9),
        EventKind::ButtonDown(Button::Left),
        EventKind::ButtonUp(Button::Left),
        EventKind::KeyDown(Key::F9),
    ]);
    let (presses, _) = report_until_quit(pump, || false, None);
    let text = format!("{}\n{presses}", intro(&table(), false).unwrap());
    assert!(
        text.ends_with("F9\nmouse1\nF9\n"),
        "one line per press, none per release: {text}"
    );
    assert!(text.contains("capslock"), "the illustrative keyboard prints first: {text}");
    for set_member in ["wheel-up", "pad-south", "volume-up", "mouse4", "rctrl", "hid:"] {
        assert!(
            text.contains(set_member),
            "the printed reference must list `{set_member}`: {text}"
        );
    }
}
