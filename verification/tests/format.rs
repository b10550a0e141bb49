//! What a binds file may say, and what it means.
use sequencer::exit;
use sequencer::input::{Button, Holdable, Key};
use sequencer::names::{Lexicon, Meaning, Name, Word};
use sequencer::profile::check::{check_file, check_verdict, lock_warnings};
use sequencer::profile::format::{
    warnings, RawBind, RawDefaults, RawFile, RawLoops, RawSection, DEFAULT_GAP, DEFAULT_TAP,
};
use sequencer::profile::model::{primary_key, Action, Loops, Profile, Step};
use sequencer::profile::readings::{
    chance_numbers, parse_duration, Amount, AmountReading, Chance, ChanceReading, Readings, ALWAYS,
};
use sequencer::profile::steps::{parse_pressable, parse_seq};

/// The keys that these tests name, with their codes.
const CODES: [(&str, u16); 67] = [
    ("esc", 1), ("1", 2), ("2", 3), ("3", 4), ("4", 5), ("5", 6), ("6", 7), ("7", 8), ("8", 9),
    ("9", 10), ("0", 11), ("-", 12), ("=", 13), ("backspace", 14), ("tab", 15), ("q", 16),
    ("w", 17), ("e", 18), ("r", 19), ("t", 20), ("y", 21), ("u", 22), ("i", 23), ("o", 24),
    ("p", 25), ("[", 26), ("]", 27), ("enter", 28), ("a", 30), ("s", 31), ("d", 32), ("f", 33),
    ("g", 34), ("h", 35), ("j", 36), ("k", 37), ("l", 38), (";", 39), ("'", 40), ("z", 44),
    ("x", 45), ("v", 47), ("b", 48), ("n", 49), ("m", 50), (",", 51), (".", 52), ("/", 53),
    ("space", 57), ("F1", 59), ("F2", 60), ("F3", 61), ("F4", 62), ("F5", 63), ("F6", 64),
    ("F7", 65), ("F10", 68), ("home", 102), ("pgup", 104), ("end", 107), ("pgdn", 109),
    ("insert", 110), ("delete", 111), ("mute", 113), ("volume-down", 114), ("volume-up", 115),
    ("pause", 119),
];

/// The keys that have a variant of their own.
const OWN: [(&str, Key); 13] = [
    ("shift", Key::LeftShift),
    ("rshift", Key::RightShift),
    ("ctrl", Key::LeftCtrl),
    ("rctrl", Key::RightCtrl),
    ("alt", Key::LeftAlt),
    ("ralt", Key::RightAlt),
    ("meta", Key::LeftMeta),
    ("rmeta", Key::RightMeta),
    ("c", Key::C),
    ("F8", Key::F8),
    ("F9", Key::F9),
    ("capslock", Key::CapsLock),
    ("numlock", Key::NumLock),
];

/// Spellings beside the names.
const ALIASES: [(&str, &str); 9] = [
    ("PgUp", "pgup"),
    ("PgDn", "pgdn"),
    ("{", "["),
    ("}", "]"),
    ("!", "1"),
    ("?", "/"),
    ("<", ","),
    (">", "."),
    ("escape", "esc"),
];

fn key(name: &str) -> Key {
    if let Some((_, key)) = OWN.iter().find(|(own, _)| *own == name) {
        return *key;
    }
    let (_, code) = CODES.iter().find(|(code, _)| *code == name).expect("a key of the table");
    Key::Other(*code)
}

/// A backend's names: every key in both cases, the mouse buttons, and the wheel as reserved.
fn lexicon() -> Lexicon {
    let names = CODES.iter().map(|(name, _)| *name).chain(OWN.iter().map(|(name, _)| *name));
    let mut lexicon = Lexicon { words: Vec::new(), names: Vec::new(), mods: Vec::new() };
    for name in names {
        let input = Holdable::Key(key(name));
        lexicon.names.push(Name { input, text: name.to_owned() });
        for text in [name.to_owned(), name.to_lowercase(), name.to_uppercase()] {
            lexicon.words.push(Word { text, meaning: Meaning::Input(input) });
        }
    }
    for (alias, name) in ALIASES {
        let meaning = Meaning::Input(Holdable::Key(key(name)));
        lexicon.words.push(Word { text: alias.to_owned(), meaning });
    }
    for (text, button) in [("mouse1", Button::Left), ("mouse2", Button::Right)] {
        let input = Holdable::Button(button);
        lexicon.names.push(Name { input, text: text.to_owned() });
        lexicon.words.push(Word { text: text.to_owned(), meaning: Meaning::Input(input) });
    }
    lexicon.words.push(Word { text: "wheel-up".to_owned(), meaning: Meaning::Reserved });
    for number in 0..32 {
        let classes = ["shift", "ctrl", "alt", "ralt", "meta"];
        let held: Vec<&str> =
            (0..5).filter(|bit| number & (1 << bit) != 0).map(|bit| classes[bit]).collect();
        lexicon.mods.push(held.join("+"));
    }
    lexicon
}

/// What a number of some unit of time comes to.
fn amount(number: &str) -> Amount {
    let Ok(number) = number.parse::<f64>() else {
        return Amount::NotANumber;
    };
    if !number.is_finite() || number < 0.0 {
        return Amount::Unusable;
    }
    let nanos = |scale: f64| (number * scale <= u64::MAX as f64).then_some((number * scale) as u64);
    Amount::Usable { ms: nanos(1e6), s: nanos(1e9), m: nanos(60e9), h: nanos(3600e9) }
}

/// What the numbers of a chance come to.
fn chance(text: &str) -> Chance {
    let (above, below, hundredths) = chance_numbers(text);
    let Ok(above) = above.parse::<f64>() else {
        return Chance::NotANumber;
    };
    let value = match below {
        None => above / if hundredths { 100.0 } else { 1.0 },
        Some(below) => match below.parse::<f64>() {
            Err(_) => return Chance::NoDivisor,
            Ok(below) if below <= 0.0 => return Chance::DividesBy(below.to_string()),
            Ok(below) => above / below,
        },
    };
    if (0.0..=1.0).contains(&value) {
        Chance::Bits((value + 0.0).to_bits())
    } else {
        Chance::OutOfRange
    }
}

/// What every number of a text comes to, whether it is meant as a time or as a chance.
fn readings(texts: &[String]) -> Readings {
    let mut readings = Readings { amounts: Vec::new(), chances: Vec::new() };
    for word in texts.iter().flat_map(|text| text.split_whitespace()) {
        let end = word.find(|c: char| c.is_ascii_alphabetic()).unwrap_or(word.len());
        let text = word[..end].to_owned();
        readings.amounts.push(AmountReading { amount: amount(&text), text });
        readings.chances.push(ChanceReading { chance: chance(word), text: word.to_owned() });
    }
    readings
}

/// The text of a field, or the texts of a list.
fn listed(value: Option<&toml::Value>) -> Vec<String> {
    match value {
        Some(toml::Value::Array(list)) => {
            list.iter().filter_map(|one| one.as_str()).map(str::to_owned).collect()
        }
        Some(one) => one.as_str().map(str::to_owned).into_iter().collect(),
        None => Vec::new(),
    }
}

/// A file as its text spells it.
fn raw(text: &str) -> RawFile {
    let table: toml::Table = text.parse().expect("TOML");
    let field = |table: &toml::Table, name: &str| {
        table.get(name).and_then(|value| value.as_str()).map(str::to_owned)
    };
    let defaults = table.get("defaults").and_then(|value| value.as_table()).map(|table| {
        RawDefaults {
            tap: field(table, "tap"),
            gap: field(table, "gap"),
            suppress: table.get("suppress").and_then(|value| value.as_bool()),
            program: field(table, "program"),
            emergency_stop: listed(table.get("emergency_stop")),
        }
    });
    let sections = table["binds"].as_table().expect("a table of binds");
    let binds = sections.iter().map(|(trigger, section)| {
        let table = section.as_table().expect("a section");
        let bind = RawBind {
            bind: field(table, "bind"),
            seq: table.get("seq").map(|seq| listed(Some(seq))),
            also: listed(table.get("also")),
            tap: field(table, "tap"),
            gap: field(table, "gap"),
            loops: table.get("loop").map(|loops| match loops.as_integer() {
                Some(times) => RawLoops::Times(times as u32),
                None => RawLoops::Word(loops.as_str().expect("a word").to_owned()),
            }),
        };
        RawSection { trigger: trigger.clone(), bind }
    });
    RawFile { defaults, binds: binds.collect() }
}

/// Every text of a file that may hold a number.
fn numbers(file: &RawFile) -> Vec<String> {
    let mut texts: Vec<String> = Vec::new();
    if let Some(defaults) = &file.defaults {
        texts.extend(defaults.tap.iter().chain(&defaults.gap).cloned());
    }
    for section in &file.binds {
        texts.extend(section.bind.tap.iter().chain(&section.bind.gap).cloned());
        texts.extend(section.bind.seq.iter().flatten().cloned());
    }
    texts
}

fn parse(text: &str) -> Result<Profile, String> {
    let file = raw(text);
    sequencer::profile::format::parse(&lexicon(), &readings(&numbers(&file)), &file)
}

const MILLI: u64 = 1_000_000;

fn parse_ok(text: &str) -> Profile {
    parse(text).expect("should parse")
}

fn parse_err(text: &str) -> String {
    parse(text).expect_err("should be refused")
}

fn keys(names: &[&str]) -> Vec<Holdable> {
    names.iter().map(|name| Holdable::Key(key(name))).collect()
}

/// The advisory list: a mirror whose trigger holds modifiers its target does not
/// name gets one (its tap is deferred), everything else stays quiet — a target
/// that names the held classes, a bare trigger, and a sequence (whose steps are
/// the author's own to time).
#[test]
fn only_contaminated_mirrors_draw_a_warning() {
    let lexicon = lexicon();
    let warned = parse("[binds.\"shift b\"]\nbind = \"p\"").expect("parses");
    let notes = warnings(&lexicon, &warned);
    assert_eq!(notes.len(), 1, "{notes:?}");
    assert!(
        notes[0].contains("shift") && notes[0].contains("without modifiers"),
        "the note names the held class and the straightforward fix: {}",
        notes[0]
    );

    for quiet in [
        "[binds.\"shift n\"]\nbind = \"shift >\"",
        "[binds.b]\nbind = \"p\"",
        "[binds.\"ctrl b\"]\nseq = [\"p\"]",
    ] {
        let profile = parse(quiet).expect("parses");
        assert_eq!(warnings(&lexicon, &profile), Vec::<String>::new(), "for {quiet}");
    }
}

#[test]
fn a_minimal_mirror_gets_the_built_in_timing() {
    let profile = parse_ok("[binds.PgUp]\nbind = \"volume-up\"");
    assert_eq!(profile.binds[0].tap, DEFAULT_TAP);
    assert_eq!(profile.binds[0].gap, DEFAULT_GAP);
    assert_eq!(profile.binds[0].action, Action::Mirror(keys(&["volume-up"])));
}

#[test]
fn per_bind_timing_overrides_the_defaults() {
    let profile = parse_ok(
        "[defaults]\ntap = \"20ms\"\n\n[binds.F6]\ntap = \"25ms\"\nseq = [\"a\"]\n\n\
         [binds.F7]\nseq = [\"b\"]",
    );
    assert_eq!(profile.binds[0].tap, 25 * MILLI);
    assert_eq!(profile.binds[1].tap, 20 * MILLI);
}

/// The steps land as written: keywords any case, chords in order, WAIT parsed.
#[test]
fn a_sequence_lowers_step_by_step() {
    let profile = parse_ok(
        "[binds.F6]\nseq = [\"shift\", \"PRESS ctrl\", \"space d\", \"wait 200ms\", \
         \"RELEASE ctrl\"]",
    );
    assert_eq!(
        profile.binds[0].action,
        Action::Sequence(vec![
            Step::Tap(keys(&["shift"])),
            Step::Hold(keys(&["ctrl"])),
            Step::Tap(keys(&["space", "d"])),
            Step::Wait(200 * MILLI),
            Step::Release(keys(&["ctrl"])),
        ])
    );
}

fn duration(text: &str) -> Result<u64, String> {
    parse_duration(&readings(&[text.to_owned()]), text)
}

/// Units are required, zero is exempt.
#[test]
fn durations_demand_units_except_for_zero() {
    assert_eq!(duration("0").unwrap(), 0);
    assert_eq!(duration("1.5s").unwrap(), 1500 * MILLI);
    assert_eq!(duration("2m").unwrap(), 120_000 * MILLI);
    assert!(duration("5").is_err(), "nonzero needs a unit");
    assert!(duration("5x").is_err());
    assert!(duration("-1ms").is_err());
}

/// Each refusal of a duration, in its words.
#[test]
fn a_refused_duration_says_why() {
    assert_eq!(
        duration("5").unwrap_err(),
        "`5` has no unit; write ms, s, m or h (only zero may omit it)"
    );
    assert_eq!(duration("5x").unwrap_err(), "`x` is not a unit; use ms, s, m or h");
    assert_eq!(duration("-1ms").unwrap_err(), "`-1` is not a usable amount of time");
    assert_eq!(duration("--1ms").unwrap_err(), "`--1` is not a number");
    assert_eq!(
        duration("999999999999h").unwrap_err(),
        "`999999999999h` is longer than this program will live"
    );
    assert_eq!(duration("0.00").unwrap(), 0);
    assert_eq!(duration("1H").unwrap(), 3_600_000 * MILLI);
}

#[test]
fn a_bind_must_be_exactly_one_of_bind_or_seq() {
    assert!(parse_err("[binds.F6]\nbind = \"a\"\nseq = [\"b\"]").contains("one or the other"));
    assert!(parse_err("[binds.F6]").contains("needs exactly one"));
}

#[test]
fn suppress_false_is_refused_not_ignored() {
    let err = parse_err("[defaults]\nsuppress = false\n[binds.F6]\nbind = \"a\"");
    assert!(err.contains("not supported yet"), "{err}");
}

/// A PRESS nobody releases is a stuck key written down; refuse it with its name.
#[test]
fn unbalanced_presses_are_refused() {
    let err = parse_err("[binds.F6]\nseq = [\"PRESS ctrl\"]");
    assert!(err.contains("never RELEASEd"), "{err}");
    let err = parse_err("[binds.F6]\nseq = [\"RELEASE ctrl\"]");
    assert!(err.contains("nothing is pressing it"), "{err}");
}

/// Chords are grabbable now, within the shape X can express: modifiers plus one
/// ordinary key. The bad shapes are refused at parse time, in the file's words.
#[test]
fn chords_take_modifiers_plus_exactly_one_key() {
    let profile = parse_ok("[binds.\"ctrl shift i\"]\nseq = [\"a\"]");
    assert_eq!(profile.binds[0].trigger, vec![Key::LeftCtrl, Key::LeftShift, key("i")]);
    assert_eq!(primary_key(&profile.binds[0].trigger), Some(key("i")));

    let err = parse_err("[binds.\"a b\"]\nseq = [\"x\"]");
    assert!(err.contains("only one ordinary key"), "{err}");
    let err = parse_err("[binds.\"ctrl shift\"]\nseq = [\"x\"]");
    assert!(err.contains("not modifiers alone"), "{err}");
}

/// `i` and `ctrl i` grab the same keycode, so one profile may not hold both — but
/// two different chords over that key are fine, since their masks differ.
#[test]
fn a_bare_key_and_a_chord_over_it_cannot_coexist() {
    let err = parse_err("[binds.i]\nseq = [\"a\"]\n\n[binds.\"ctrl i\"]\nseq = [\"b\"]");
    assert!(err.contains("same key"), "{err}");
    parse_ok("[binds.\"ctrl i\"]\nseq = [\"a\"]\n\n[binds.\"alt i\"]\nseq = [\"b\"]");
}

/// An emergency stop may be a chord now; it still cannot double as a trigger.
#[test]
fn emergency_stop_accepts_a_chord() {
    let profile =
        parse_ok("[defaults]\nemergency_stop = \"ctrl alt q\"\n[binds.F6]\nseq = [\"a\"]");
    assert_eq!(
        profile.emergency_stop.first().map(Vec::as_slice),
        Some(&[Key::LeftCtrl, Key::LeftAlt, key("q")][..])
    );
    let err =
        parse_err("[defaults]\nemergency_stop = \"ctrl q\"\n[binds.\"ctrl q\"]\nseq = [\"a\"]");
    assert!(err.contains("cannot both"), "{err}");
}

/// `bind` takes a chord spelled like any step.
#[test]
fn bind_targets_take_chords() {
    let profile = parse_ok("[binds.\"rshift >\"]\nbind = \"shift ]\"");
    assert_eq!(profile.binds[0].trigger, vec![Key::RightShift, key(".")]);
    assert_eq!(profile.binds[0].action, Action::Mirror(keys(&["shift", "]"])));
    assert!(parse_err("[binds.F6]\nbind = \" \"").contains("empty"));
}

/// X folds left and right shift/ctrl/meta into one modifier bit, so two triggers
/// that differ only by side are one grab — refused with both names. Alt is the
/// exception: right alt is AltGr, its own bit.
#[test]
fn side_blind_duplicate_grabs_are_refused() {
    let err = parse_err("[binds.\"rshift >\"]\nbind = \"a\"\n\n[binds.\"shift >\"]\nbind = \"b\"");
    assert!(err.contains("same grab"), "{err}");
    parse_ok("[binds.\"alt i\"]\nbind = \"a\"\n\n[binds.\"ralt i\"]\nbind = \"b\"");
}

fn parse_chance(text: &str) -> Result<f64, String> {
    readings(&[text.to_owned()]).parse_chance(text).map(f64::from_bits)
}

/// The chance spellings are one probability three ways, and nonsense is refused.
#[test]
fn chances_parse_in_all_three_spellings() {
    assert!((parse_chance("0.25").unwrap() - 0.25).abs() < 1e-9);
    assert!((parse_chance("25%").unwrap() - 0.25).abs() < 1e-9);
    assert!((parse_chance("1/4").unwrap() - 0.25).abs() < 1e-9);
    assert!(parse_chance("1.5").is_err(), "over 1 is not a chance");
    assert!(parse_chance("-1%").is_err());
    assert!(parse_chance("1/0").is_err());
    assert!(parse_chance("maybe").is_err());
}

/// Each refusal of a chance, in its words.
#[test]
fn a_refused_chance_says_why() {
    let because = |text| parse_chance(text).unwrap_err();
    assert_eq!(because("1.5"), "`1.5` is not between never (0) and always (1)");
    assert_eq!(because("1/0"), "`1/0` divides by 0");
    assert_eq!(because("1/x"), "`x` is not a number");
    assert_eq!(because("x/2"), "`x` is not a number");
    assert_eq!(because("x%"), "`x` is not a number");
    assert_eq!(because("maybe"), "`maybe` is not a chance; use 0.30, 30% or 3/10");
}

/// RNG/GNR pair like PRESS/RELEASE: unbalanced blocks are refused with direction.
#[test]
fn unbalanced_rng_blocks_are_refused() {
    let err = parse_err("[binds.F6]\nseq = [\"RNG 50%\", \"a\"]");
    assert!(err.contains("without a matching GNR"), "{err}");
    let err = parse_err("[binds.F6]\nseq = [\"a\", \"GNR\"]");
    assert!(err.contains("GNR without a matching RNG"), "{err}");
}

/// `loop` counts, spells infinity as "inf", and refuses the meaningless.
#[test]
fn loops_parse_and_guard_their_edges() {
    let profile = parse_ok("[binds.F6]\nloop = 4\nseq = [\"a\"]");
    assert_eq!(profile.binds[0].loops, Loops::Times(4));
    let profile = parse_ok("[binds.F6]\nloop = \"INF\"\nseq = [\"a\"]");
    assert_eq!(profile.binds[0].loops, Loops::Infinite);
    assert!(parse_err("[binds.F6]\nloop = 0\nseq = [\"a\"]").contains("never run"));
    assert!(parse_err("[binds.F6]\nloop = \"forever\"\nseq = [\"a\"]").contains("inf"));
    let err = parse_err("[binds.PgUp]\nloop = 2\nbind = \"volume-up\"");
    assert!(err.contains("needs a `seq`"), "{err}");
}

/// The emergency key cannot moonlight as a trigger, and program must say something.
#[test]
fn emergency_and_program_guard_their_edges() {
    let err = parse_err("[defaults]\nemergency_stop = \"F6\"\n[binds.F6]\nseq = [\"a\"]");
    assert!(err.contains("cannot both"), "{err}");
    let err = parse_err("[defaults]\nprogram = \" \"\n[binds.F6]\nseq = [\"a\"]");
    assert!(err.contains("empty"), "{err}");
}

/// `hold` is no keyword, so it parses as a key name and fails as one.
#[test]
fn the_old_hold_keyword_is_not_a_keyword() {
    let err = parse_err("[binds.F6]\nseq = [\"hold ctrl\"]");
    assert!(err.contains("hold"), "{err}");
}

/// `{` and `[` are one key, so two sections triggered by them are one trigger twice
/// — TOML cannot see that, so validation must.
#[test]
fn two_spellings_of_one_trigger_are_refused() {
    let err = parse_err("[binds.\"[\"]\nbind = \"a\"\n\n[binds.\"{\"]\nbind = \"b\"");
    assert!(err.contains("same trigger"), "{err}");
}

#[test]
fn mouse_buttons_send_but_do_not_trigger() {
    let profile = parse_ok("[binds.F6]\nbind = \"mouse1\"");
    assert_eq!(
        profile.binds[0].action,
        Action::Mirror(vec![Holdable::Button(Button::Left)])
    );
    let err = parse_err("[binds.mouse1]\nbind = \"a\"");
    assert!(err.contains("cannot trigger"), "{err}");
}

#[test]
fn unknown_keys_name_themselves() {
    let err = parse_err("[binds.F6]\nseq = [\"nosuchkey\"]");
    assert!(err.contains("nosuchkey"), "{err}");
    assert!(err.contains("step 1"), "{err}");
}

/// The name is right and the capability is missing: no typo to hunt for.
#[test]
fn a_reserved_name_is_refused_as_reserved() {
    assert_eq!(
        parse_pressable(&lexicon(), "wheel-up").unwrap_err(),
        "`wheel-up` is reserved for the device backend; nothing can send it yet"
    );
    assert_eq!(parse_pressable(&lexicon(), "F9").unwrap(), Holdable::Key(Key::F9));
}

/// The steps that are refused for their own sake.
#[test]
fn a_refused_step_says_why() {
    let because = |line: &str| {
        let lines = vec![line.to_owned()];
        parse_seq(&lexicon(), &readings(&lines), &lines).unwrap_err()
    };
    assert_eq!(because(" "), "step 1 ` `: the step is empty");
    assert_eq!(because("PRESS"), "step 1 `PRESS`: PRESS needs at least one key");
    assert_eq!(because("RNG"), "step 1 `RNG`: RNG needs a chance, like `RNG 30%`");
    assert_eq!(because("wait"), "step 1 `wait`: WAIT needs a duration, like `WAIT 200ms`");
    assert_eq!(because("WAIT 1s 2s"), "step 1 `WAIT 1s 2s`: unexpected `2s` after the duration");
    assert_eq!(because("GNR a"), "step 1 `GNR a`: GNR closes a block and takes nothing, got `a`");
    assert_eq!(parse_seq(&lexicon(), &readings(&[]), &Vec::new()).unwrap_err(), "`seq` is empty");
}

/// The profile-check verdict on one text, without touching a file.
fn checked(text: &str, format: bool) -> (Vec<String>, Option<String>, u8) {
    let report = check_file(&lexicon(), "broken.toml", text, &parse(text), format);
    (report.lines, report.rewrite, check_verdict(u32::from(report.bad)))
}

#[test]
fn every_broken_profile_is_refused_with_its_reason() {
    let cases: &[(&str, &str, &str)] = &[
        (
            "suppress = false is refused, never ignored",
            "suppress = false is not supported",
            "[defaults]\nsuppress = false\n[binds.f9]\nbind = \"pause\"\n",
        ),
        (
            "left/right-only trigger twins are one X grab",
            "are the same grab",
            "[binds.\"shift f9\"]\nbind = \"pause\"\n[binds.\"rshift f9\"]\nbind = \"pause\"\n",
        ),
        (
            "a bare key and a chord over it cannot coexist",
            "cannot both be triggers",
            "[binds.f9]\nbind = \"pause\"\n[binds.\"ctrl f9\"]\nbind = \"pause\"\n",
        ),
        (
            "emergency_stop may not double as a trigger",
            "is also the trigger",
            "[defaults]\nemergency_stop = \"f9\"\n[binds.f9]\nbind = \"pause\"\n",
        ),
        (
            "an unknown key is named, not guessed",
            "unknown key",
            "[binds.notakey]\nbind = \"pause\"\n",
        ),
    ];
    for (what, fragment, text) in cases {
        let (lines, rewrite, code) = checked(text, false);
        let out = lines.join("\n");
        assert_ne!(code, exit::OK, "{what}: was accepted");
        assert!(
            out.contains(fragment),
            "{what}: refusal must mention {fragment:?}, said: {out}"
        );
        assert_eq!(rewrite, None);
    }
}

/// The verdict of an apply on a broken profile names the problem and is a usage error.
#[test]
fn an_invalid_profile_is_a_usage_error_that_names_the_problem() {
    let detail = parse_err("[binds.F6]\nseq = [\"PRESS ctrl\"]\n");
    let error = sequencer::error::Error::Profile { path: "dangling-hold.toml".to_owned(), detail };
    assert_eq!(error.exit_code(), exit::USAGE);
    assert!(error.message().contains("never RELEASEd"));
}

#[test]
fn a_sound_profile_is_counted_and_tidied() {
    let text = "[defaults]\nprogram = \"steam*\"\n[binds.F6]\nseq = [\"wait 5ms\"]\n";
    let (lines, rewrite, code) = checked(text, false);
    assert_eq!(lines, vec!["broken.toml: ok (1 binds, for program steam*)"]);
    assert_eq!((rewrite, code), (None, exit::OK));

    let (lines, rewrite, _) = checked(text, true);
    assert_eq!(lines, vec!["broken.toml: ok, reformatted"]);
    let tidy = rewrite.expect("the text is not tidy");
    let (lines, rewrite, _) = checked(&tidy, true);
    assert_eq!(lines, vec!["broken.toml: ok, already tidy"]);
    assert_eq!(rewrite, None);
}

/// A profile that presses its own trigger would start itself again for ever.
#[test]
fn a_profile_that_triggers_itself_is_refused() {
    let (lines, _, code) = checked("[binds.a]\nseq = [\"b\", \"a\"]\n", false);
    assert_eq!(code, exit::FAILURE, "{lines:?}");
    assert!(lines[0].contains("would trigger each other in a circle"), "{lines:?}");
}

/// A lock key in a trigger or a target draws a warning, not a refusal.
#[test]
fn lock_keys_draw_a_warning() {
    let profile = parse_ok("[binds.F6]\nbind = \"capslock\"");
    let notes = lock_warnings(&lexicon(), &profile);
    assert_eq!(notes.len(), 1, "{notes:?}");
    assert!(notes[0].contains("capslock"), "{notes:?}");
    let (lines, _, code) = checked("[binds.F6]\nbind = \"capslock\"\n", false);
    assert_eq!(code, exit::OK);
    assert!(lines.iter().any(|line| line.starts_with("broken.toml: warning: ")), "{lines:?}");
}

/// Whatever the table says, an accepted chance lies between never and always.
#[test]
fn a_chance_lies_between_never_and_always() {
    let read = |number: f64| {
        let chance = Chance::Bits(number.to_bits());
        let chances = vec![ChanceReading { text: "x".to_owned(), chance }];
        Readings { amounts: Vec::new(), chances }.parse_chance("x")
    };
    assert_eq!(ALWAYS, 1.0_f64.to_bits());
    assert_eq!(read(0.0), Ok(0));
    assert_eq!(read(1.0), Ok(ALWAYS));
    for number in [1.5, -0.5, f64::NAN, f64::INFINITY] {
        let why = read(number).unwrap_err();
        assert_eq!(why, "`x` is not between never (0) and always (1)");
    }
}

/// The bindings come in the order of the text of their triggers, whatever order the sections and
/// their further spellings are in.
#[test]
fn bindings_come_in_the_order_of_their_triggers() {
    let text = "[binds.c]\nalso = [\"a\", \"z\"]\nbind = \"p\"\n[binds.b]\nbind = \"q\"";
    let profile = parse_ok(text);
    let triggers: Vec<&str> =
        profile.binds.iter().map(|bind| bind.trigger_text.as_str()).collect();
    assert_eq!(triggers, vec!["a", "b", "c", "z"]);
    let targets: Vec<&Action> = profile.binds.iter().map(|bind| &bind.action).collect();
    assert_eq!(targets[0], targets[2]);
    assert_ne!(targets[0], targets[1]);
}
