//! The style rules of a binds file.
use sequencer::input::{Button, Holdable, Key};
use sequencer::names::{Lexicon, Meaning, Name, Word};
use sequencer::profile::model::Step;
use sequencer::profile::readings::{Amount, AmountReading, Readings};
use sequencer::profile::reformat::reformat;
use sequencer::profile::steps::parse_step;
use sequencer::profile::tidy::canonical_step;

/// The keys that these tests name, with their codes.
const CODES: [(&str, u16); 67] = [
    ("esc", 1), ("1", 2), ("2", 3), ("3", 4), ("4", 5), ("5", 6), ("6", 7), ("7", 8), ("8", 9),
    ("9", 10), ("0", 11), ("-", 12), ("=", 13), ("backspace", 14), ("tab", 15), ("q", 16),
    ("w", 17), ("e", 18), ("r", 19), ("t", 20), ("y", 21), ("u", 22), ("i", 23), ("o", 24),
    ("p", 25), ("[", 26), ("]", 27), ("enter", 28), ("a", 30), ("s", 31), ("d", 32), ("f", 33),
    ("g", 34), ("h", 35), ("j", 36), ("k", 37), ("l", 38), (";", 39), ("'", 40), ("z", 44),
    ("x", 45), ("v", 47), ("b", 48), ("n", 49), ("m", 50), (",", 51), (".", 52), ("/", 53),
    ("space", 57), ("F1", 59), ("F2", 60), ("F3", 61), ("F4", 62), ("F5", 63), ("F6", 64),
    ("F7", 65), ("F10", 68), ("home", 102), ("pgup", 104), ("end", 107), ("pgdn", 109),
    ("insert", 110), ("delete", 111), ("mute", 113), ("volume-down", 114), ("volume-up", 115),
    ("pause", 119),
];

/// The keys that have a variant of their own.
const OWN: [(&str, Key); 13] = [
    ("shift", Key::LeftShift),
    ("rshift", Key::RightShift),
    ("ctrl", Key::LeftCtrl),
    ("rctrl", Key::RightCtrl),
    ("alt", Key::LeftAlt),
    ("ralt", Key::RightAlt),
    ("meta", Key::LeftMeta),
    ("rmeta", Key::RightMeta),
    ("c", Key::C),
    ("F8", Key::F8),
    ("F9", Key::F9),
    ("capslock", Key::CapsLock),
    ("numlock", Key::NumLock),
];

/// Spellings beside the names.
const ALIASES: [(&str, &str); 9] = [
    ("PgUp", "pgup"),
    ("PgDn", "pgdn"),
    ("{", "["),
    ("}", "]"),
    ("!", "1"),
    ("?", "/"),
    ("<", ","),
    (">", "."),
    ("escape", "esc"),
];

fn key(name: &str) -> Key {
    if let Some((_, key)) = OWN.iter().find(|(own, _)| *own == name) {
        return *key;
    }
    let (_, code) = CODES.iter().find(|(code, _)| *code == name).expect("a key of the table");
    Key::Other(*code)
}

/// A backend's names: every key in both cases, the mouse buttons, and the wheel as reserved.
fn lexicon() -> Lexicon {
    let names = CODES.iter().map(|(name, _)| *name).chain(OWN.iter().map(|(name, _)| *name));
    let mut lexicon = Lexicon { words: Vec::new(), names: Vec::new(), mods: Vec::new() };
    for name in names {
        let input = Holdable::Key(key(name));
        lexicon.names.push(Name { input, text: name.to_owned() });
        for text in [name.to_owned(), name.to_lowercase(), name.to_uppercase()] {
            lexicon.words.push(Word { text, meaning: Meaning::Input(input) });
        }
    }
    for (alias, name) in ALIASES {
        let meaning = Meaning::Input(Holdable::Key(key(name)));
        lexicon.words.push(Word { text: alias.to_owned(), meaning });
    }
    for (text, button) in [("mouse1", Button::Left), ("mouse2", Button::Right)] {
        let input = Holdable::Button(button);
        lexicon.names.push(Name { input, text: text.to_owned() });
        lexicon.words.push(Word { text: text.to_owned(), meaning: Meaning::Input(input) });
    }
    lexicon.words.push(Word { text: "wheel-up".to_owned(), meaning: Meaning::Reserved });
    for number in 0..32 {
        let classes = ["shift", "ctrl", "alt", "ralt", "meta"];
        let held: Vec<&str> =
            (0..5).filter(|bit| number & (1 << bit) != 0).map(|bit| classes[bit]).collect();
        lexicon.mods.push(held.join("+"));
    }
    lexicon
}

fn tidied(text: &str) -> String {
    reformat(&lexicon(), text).expect("parses")
}

/// The three style rules, on one array: keyword case, modifiers first, alignment,
/// and an indent level inside the RNG block.
#[test]
fn formatting_applies_the_style_rules() {
    let text = "[binds.F5]\nseq = [\"space\", \"press q ctrl\", \"rng 50%\", \
                \"wait 15ms\", \"gnr\"]\n";
    let tidied = tidied(text);
    assert!(tidied.contains("\"PRESS ctrl q\""), "{tidied}");
    assert!(tidied.contains("\"RNG   50%\""), "aligned: {tidied}");
    assert!(tidied.contains("\n        \"WAIT  15ms\""), "indented: {tidied}");
    assert!(tidied.contains("\n    \"GNR\""), "dedented: {tidied}");
}

/// Nested RNG blocks each earn their own indent level, and every GNR dedents the
/// step that follows it — the shape a reader scans to see what a roll covers.
#[test]
fn nested_blocks_indent_by_depth() {
    let text = "[binds.F5]\nseq = [\"rng 0.5\", \"press ctrl q\", \"rng 0.9\", \
                \"wait 15ms\", \"gnr\", \"release ctrl q\", \"gnr\"]\n";
    let tidied = tidied(text);
    for (step, indent) in [
        ("\"RNG     0.5\"", 4),
        ("\"PRESS   ctrl q\"", 8),
        ("\"RNG     0.9\"", 8),
        ("\"WAIT    15ms\"", 12),
        ("\"RELEASE ctrl q\"", 8),
    ] {
        let line = tidied
            .lines()
            .find(|line| line.trim() == format!("{step},"))
            .unwrap_or_else(|| panic!("{step} missing from:\n{tidied}"));
        assert_eq!(
            line.len() - line.trim_start().len(),
            indent,
            "{step} sits at the wrong depth in:\n{tidied}"
        );
    }
    // Both GNRs close a level: the inner one back to 8, the outer back to 4.
    let closes: Vec<usize> = tidied
        .lines()
        .filter(|line| line.trim() == "\"GNR\",")
        .map(|line| line.len() - line.trim_start().len())
        .collect();
    assert_eq!(closes, vec![8, 4], "in:\n{tidied}");
}

/// Comments are the whole reason this uses a format-preserving parser.
#[test]
fn formatting_keeps_comments() {
    let text = "[binds.F5]\nseq = [\n    # jump\n    \"space\",\n]\n";
    let tidied = tidied(text);
    assert!(tidied.contains("# jump"), "{tidied}");
    assert!(tidied.contains("\"space\""), "{tidied}");
}

/// Comments behind a step and behind the last one are kept too.
#[test]
fn comments_beside_steps_are_kept() {
    let text = "[binds.F5] # head\nseq = [ \"space\" # after\n , \"a\", # between\n # last\n ]\n";
    let tidied = tidied(text);
    for comment in ["# head", "# after", "# between", "# last"] {
        assert_eq!(tidied.matches(comment).count(), 1, "{comment} in:\n{tidied}");
    }
    assert_eq!(self::tidied(&tidied), tidied);
}

/// Formatting is idempotent — a tidy file is left byte-identical, which is what
/// makes it safe in a pre-commit hook.
#[test]
fn formatting_twice_changes_nothing_the_second_time() {
    let text = "[binds.F5]\nseq = [\"space\", \"press ctrl q\", \"rng 1/2\", \"a\", \"gnr\"]\n";
    let once = tidied(text);
    let twice = tidied(&once);
    assert_eq!(once, twice);
}

/// What is beside the sequences stays as it was written.
#[test]
fn only_the_sequences_are_rewritten() {
    let text = "# top\n[defaults]\ntap   = \"5ms\"\n\n[binds.F5]\nbind = \"a\"\n[binds.F6]\n\
                seq = [\"a\"]\n# end\n";
    assert_eq!(
        tidied(text),
        "# top\n[defaults]\ntap   = \"5ms\"\n\n[binds.F5]\nbind = \"a\"\n[binds.F6]\n\
         seq = [\n    \"a\",\n]\n# end\n"
    );
}

/// A step that is no text is left to the parser to refuse, and its array as it is.
#[test]
fn an_array_with_other_values_is_left_alone() {
    let text = "[binds.F5]\nseq = [\"wait 5ms\", 3]\n";
    assert_eq!(tidied(text), text);
}

/// A file that does not parse as TOML is left alone rather than half-rewritten.
#[test]
fn broken_toml_is_not_reformatted() {
    assert!(reformat(&lexicon(), "[binds.F5\nseq = [").is_none());
    assert!(reformat(&lexicon(), "[defaults]\n").is_none(), "and neither is one without binds");
}

#[test]
fn a_canonical_step_names_modifiers_first() {
    assert_eq!(canonical_step(&lexicon(), "press q  ctrl"), vec!["PRESS", "ctrl", "q"]);
    assert_eq!(canonical_step(&lexicon(), "q shift ctrl"), vec!["shift", "ctrl", "q"]);
    assert_eq!(canonical_step(&lexicon(), " wait 15ms"), vec!["WAIT", "15ms"]);
}

/// Tidying a step twice is tidying it once, and a tidied step means the same, modifiers first.
#[test]
fn a_tidied_step_stays_and_means_the_same() {
    let lexicon = lexicon();
    let amount = Amount::Usable { ms: Some(15_000_000), s: None, m: None, h: None };
    let amounts = vec![AmountReading { text: "15".to_owned(), amount }];
    let readings = Readings { amounts, chances: Vec::new() };
    let keys = |names: &[&str]| -> Vec<Holdable> {
        names.iter().map(|name| Holdable::Key(key(name))).collect()
    };
    let cases = [
        ("d  ctrl a shift", "ctrl shift d a", Step::Tap(keys(&["ctrl", "shift", "d", "a"]))),
        ("press q ctrl", "PRESS ctrl q", Step::Hold(keys(&["ctrl", "q"]))),
        ("Release q ctrl", "RELEASE ctrl q", Step::Release(keys(&["ctrl", "q"]))),
        ("wait 15ms", "WAIT 15ms", Step::Wait(15_000_000)),
        ("loop 3", "LOOP 3", Step::Loop(3)),
        ("pool", "POOL", Step::LoopEnd),
        ("gnr", "GNR", Step::RngEnd),
    ];
    for (line, tidy, meant) in cases {
        let once = canonical_step(&lexicon, line).join(" ");
        assert_eq!(once, tidy);
        assert_eq!(canonical_step(&lexicon, &once).join(" "), once);
        assert_eq!(parse_step(&lexicon, &readings, &once), Ok(meant));
        assert!(parse_step(&lexicon, &readings, line).is_ok());
    }
}

/// Sections that come back in another order are still told apart, and a tidy file stays tidy.
#[test]
fn sections_are_told_apart_by_their_keys() {
    let text = "[binds.a.sub]\n[binds.b]\nseq = [\"q ctrl\", \"wait 5ms\"]\n[binds.c]\n\
                seq = [ # first\n\"press d\", \"release d\"]\n[binds]\na.y.z = 1\n";
    let once = tidied(text);
    assert!(once.contains("\"ctrl q\"") && once.contains("\"WAIT 5ms\""), "{once}");
    assert!(once.contains("# first") && once.contains("\"PRESS   d\""), "{once}");
    assert!(once.contains("y.z = 1"), "{once}");
    assert_eq!(tidied(&once), once);
}

/// What is tidied is found however its section is written.
#[test]
fn sequences_are_found_in_every_kind_of_section() {
    for text in [
        "[binds]\nF5.seq = [\"a shift\"]\n",
        "[binds]\nF5 = { seq = [\"a shift\"] }\n",
        "binds.F5.seq = [\"a shift\"]\n",
        "[binds.\"ctrl i\"]\r\nseq = [\"a shift\"] # end\r\n",
    ] {
        let once = tidied(text);
        assert!(once.contains("\"shift a\""), "{once}");
        assert_eq!(tidied(&once), once);
    }
    let other = "[binds.F5]\nseq = [\"a shift\", 1]\nsteps = [\"a shift\"]\n";
    assert_eq!(tidied(other), other, "only sequences of steps, and only those");
}

/// Nothing that a file may hold keeps it from being tidied, and what is tidy stays so.
#[test]
fn unusual_files_are_tidied_too() {
    for text in [
        "[binds.F5]\nseq = []\n",
        "[binds.F5]\nseq = [ # nothing yet\n]\n",
        "[binds.F5]\nseq = [\"\", \"  \"]\n",
        "[binds.F5]\nseq = ['a\tshift', \"\"\"b \\\"' ctrl\"\"\", \"\\u00e9 \\\\ shift\"]\n",
        "[binds.F5]\r\nseq = [\r\n  # one\r\n  \"a\", # two\t\r\n]\r\n",
        "[[binds.list]]\nseq = [\"a shift\"]\n[binds.F5]\nseq = [[\"a\"], \"b\"]\n",
        "[binds.F5]\nseq = \"a\"\n[other]\nseq = [\"a shift\"]",
        "[ binds . F5 ]\nseq = [\"a shift\"]\n[ \"binds\" ]\n# end",
    ] {
        let once = tidied(text);
        assert_eq!(tidied(&once), once, "{text}");
    }
}
