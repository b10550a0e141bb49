//! The subcommands around a run: scripts, banners, reports, errors and exit codes.
use sequencer::args::{
    BenchArgs, Cli, Command, DetectKeyArgs, DoctorArgs, GlobalArgs, ProfileApplyArgs,
    ProfileCheckArgs, ProfileUnapplyArgs, Real,
};
use sequencer::backend::{open_pair, unsupported, Pair, NO_SERVER};
use sequencer::bench::{intro, progress, report as bench_report, Measured};
use sequencer::clicker::{
    describe, hotkeys, report, ActivationMode, ClickAction, ClickConfig, ClickerArgs, ConfigWords,
    MouseButton, ReportWords,
};
use sequencer::elevate::{command_has_access, wants_devices};
use sequencer::entry::{error_lines, log_level, sniff, LogLevel, LoggingAlreadyInitialized, Sniffed};
use sequencer::error::Error;
use sequencer::exit;
use sequencer::input::{Button, EventKind, Holdable, Key};
use sequencer::names::{Lexicon, Meaning, Name, Word};
use sequencer::runtime::RunSummary;
use sequencer::script::{parse_script, simulate, Replayed, ScriptEvent};
use sequencer::write_script::{write_script, WriteScriptArgs};

/// The keys that these tests name, with their codes.
const CODES: [(&str, u16); 67] = [
    ("esc", 1), ("1", 2), ("2", 3), ("3", 4), ("4", 5), ("5", 6), ("6", 7), ("7", 8), ("8", 9),
    ("9", 10), ("0", 11), ("-", 12), ("=", 13), ("backspace", 14), ("tab", 15), ("q", 16),
    ("w", 17), ("e", 18), ("r", 19), ("t", 20), ("y", 21), ("u", 22), ("i", 23), ("o", 24),
    ("p", 25), ("[", 26), ("]", 27), ("enter", 28), ("a", 30), ("s", 31), ("d", 32), ("f", 33),
    ("g", 34), ("h", 35), ("j", 36), ("k", 37), ("l", 38), (";", 39), ("'", 40), ("z", 44),
    ("x", 45), ("v", 47), ("b", 48), ("n", 49), ("m", 50), (",", 51), (".", 52), ("/", 53),
    ("space", 57), ("F1", 59), ("F2", 60), ("F3", 61), ("F4", 62), ("F5", 63), ("F6", 64),
    ("F7", 65), ("F10", 68), ("home", 102), ("pgup", 104), ("end", 107), ("pgdn", 109),
    ("insert", 110), ("delete", 111), ("mute", 113), ("volume-down", 114), ("volume-up", 115),
    ("pause", 119),
];

/// The keys that have a variant of their own.
const OWN: [(&str, Key); 13] = [
    ("shift", Key::LeftShift),
    ("rshift", Key::RightShift),
    ("ctrl", Key::LeftCtrl),
    ("rctrl", Key::RightCtrl),
    ("alt", Key::LeftAlt),
    ("ralt", Key::RightAlt),
    ("meta", Key::LeftMeta),
    ("rmeta", Key::RightMeta),
    ("c", Key::C),
    ("F8", Key::F8),
    ("F9", Key::F9),
    ("capslock", Key::CapsLock),
    ("numlock", Key::NumLock),
];

/// Spellings beside the names.
const ALIASES: [(&str, &str); 9] = [
    ("PgUp", "pgup"),
    ("PgDn", "pgdn"),
    ("{", "["),
    ("}", "]"),
    ("!", "1"),
    ("?", "/"),
    ("<", ","),
    (">", "."),
    ("escape", "esc"),
];

fn key(name: &str) -> Key {
    if let Some((_, key)) = OWN.iter().find(|(own, _)| *own == name) {
        return *key;
    }
    let (_, code) = CODES.iter().find(|(code, _)| *code == name).expect("a key of the table");
    Key::Other(*code)
}

/// A backend's names: every key in both cases, the mouse buttons, and the wheel as reserved.
fn lexicon() -> Lexicon {
    let names = CODES.iter().map(|(name, _)| *name).chain(OWN.iter().map(|(name, _)| *name));
    let mut lexicon = Lexicon { words: Vec::new(), names: Vec::new(), mods: Vec::new() };
    for name in names {
        let input = Holdable::Key(key(name));
        lexicon.names.push(Name { input, text: name.to_owned() });
        for text in [name.to_owned(), name.to_lowercase(), name.to_uppercase()] {
            lexicon.words.push(Word { text, meaning: Meaning::Input(input) });
        }
    }
    for (alias, name) in ALIASES {
        let meaning = Meaning::Input(Holdable::Key(key(name)));
        lexicon.words.push(Word { text: alias.to_owned(), meaning });
    }
    for (text, button) in [("mouse1", Button::Left), ("mouse2", Button::Right)] {
        let input = Holdable::Button(button);
        lexicon.names.push(Name { input, text: text.to_owned() });
        lexicon.words.push(Word { text: text.to_owned(), meaning: Meaning::Input(input) });
    }
    lexicon.words.push(Word { text: "wheel-up".to_owned(), meaning: Meaning::Reserved });
    for number in 0..32 {
        let classes = ["shift", "ctrl", "alt", "ralt", "meta"];
        let held: Vec<&str> =
            (0..5).filter(|bit| number & (1 << bit) != 0).map(|bit| classes[bit]).collect();
        lexicon.mods.push(held.join("+"));
    }
    lexicon
}

#[test]
fn a_script_parses_with_comments_and_blank_lines() {
    let script = "\
# start clicking
0 down f9

520 up f9   # and stop
";
    let events = parse_script(&lexicon(), script).expect("should parse");
    assert_eq!(
        events,
        vec![
            ScriptEvent { at_ms: 0, kind: EventKind::KeyDown(Key::F9) },
            ScriptEvent { at_ms: 520, kind: EventKind::KeyUp(Key::F9) },
        ]
    );
}

#[test]
fn a_bad_script_line_says_which_line() {
    for (script, expected_line) in [
        ("0 down f9\nnonsense\n", 2),
        ("0 sideways f9\n", 1),
        ("abc down f9\n", 1),
        ("0 down nosuchkey\n", 1),
        ("0 down f9 extra\n", 1),
    ] {
        let err = parse_script(&lexicon(), script).expect_err("should reject");
        let Error::Script { line, .. } = err else {
            panic!("expected a script error, got {err:?}");
        };
        assert_eq!(line, expected_line, "for {script:?}");
    }
}

#[test]
fn an_empty_script_is_valid_and_produces_nothing() {
    assert_eq!(parse_script(&lexicon(), "\n\n# only comments\n").unwrap(), Vec::new());
}

#[test]
fn a_replay_says_what_it_sent_and_what_is_still_held() {
    let mut found = Replayed {
        timeline: "0ms left down".to_owned(),
        actions: 2,
        repetitions: 1,
        skipped: 0,
        leaked: None,
    };
    assert_eq!(
        simulate(&found, false),
        vec![
            "0ms left down",
            "",
            "2 actions, 1 repetitions, 0 skipped.",
            "nothing left held.",
        ]
    );
    found.leaked = Some("[Left]".to_owned());
    assert_eq!(simulate(&found, false)[3], "STILL HELD: [Left]");
    assert_eq!(simulate(&found, true), vec!["0ms left down"]);
}

// -------------------------------------------------------------------------------- the errors

#[test]
fn bad_settings_are_a_usage_error() {
    let err = Error::Config("clicks per second must be more than 0".into());
    assert_eq!(err.exit_code(), exit::USAGE);

    let err = Error::Script { line: 3, detail: "nope".into() };
    assert_eq!(err.exit_code(), exit::USAGE);
    assert!(err.message().starts_with("line 3:"));
}

#[test]
fn a_missing_backend_is_a_runtime_failure() {
    let err = Error::NotImplemented("not yet".into());
    assert_eq!(err.exit_code(), exit::FAILURE);
}

/// What each error says, and the exit code that goes with it.
#[test]
fn every_error_has_its_words_and_its_code() {
    let text = || "x".to_owned();
    let path = || "/p".to_owned();
    for (error, said, code) in [
        (Error::Config(text()), "x", exit::USAGE),
        (Error::Capture(text()), "x", exit::FAILURE),
        (Error::Bench(text()), "x", exit::FAILURE),
        (Error::Sink(text()), "x", exit::FAILURE),
        (Error::ScriptRead { path: path(), reason: text() }, "/p: x", exit::FAILURE),
        (Error::Script { line: 12, detail: text() }, "line 12: x", exit::USAGE),
        (Error::Profile { path: path(), detail: text() }, "/p: x", exit::USAGE),
        (Error::Io(text()), "could not write output", exit::FAILURE),
        (
            Error::Privilege(text()),
            "could not drop root after opening the devices: x",
            exit::FAILURE,
        ),
        (Error::NotImplemented(text()), "x", exit::FAILURE),
    ] {
        assert_eq!(error.message(), said);
        assert_eq!(error.exit_code(), code, "{said}");
    }
}

/// A cause that only repeats what was said is left out.
#[test]
fn a_failure_prints_its_causes_once() {
    let causes = vec!["b".to_owned(), "b".to_owned(), "c".to_owned()];
    assert_eq!(
        error_lines("a", &causes),
        vec!["error: a", "  caused by: b", "  caused by: c"]
    );
    assert_eq!(error_lines("a", &vec!["a".to_owned()]), vec!["error: a"]);
}

#[test]
fn the_flags_decide_how_much_is_logged() {
    let sniffed = |args: &[&str]| sniff(&args.iter().map(|arg| (*arg).to_owned()).collect());
    assert_eq!(sniffed(&["clicker", "-v", "-vv"]), Sniffed { verbose: 3, quiet: false });
    assert_eq!(sniffed(&["--quiet"]), Sniffed { verbose: 0, quiet: true });
    assert_eq!(log_level(0, false), LogLevel::Warn);
    assert_eq!(log_level(1, false), LogLevel::Info);
    assert_eq!(log_level(2, false), LogLevel::Debug);
    assert_eq!(log_level(9, false), LogLevel::Trace);
    assert_eq!(log_level(9, true), LogLevel::Error);
    assert!(LoggingAlreadyInitialized.message().contains("already installed"));
}

// ------------------------------------------------------------------------------- the clicker

fn rate_of(value: f64) -> Real {
    Real { bits: value.to_bits() }
}

/// Renders the banner for `args`, with colour off.
fn banner(args: &ClickerArgs) -> String {
    let config = args.config();
    let lexicon = lexicon();
    let name = |key: Key| lexicon.name_of(Holdable::Key(key));
    let action = match config.action {
        ClickAction::Button(Button::Left) => "left".to_owned(),
        ClickAction::Button(_) => "other".to_owned(),
        ClickAction::Key(key) => name(key),
    };
    let words = ConfigWords {
        action,
        rate: f64::from_bits(config.cps.bits).to_string(),
        activate: name(config.activate),
        quit: name(config.quit),
    };
    describe(&config, &words, false)
}

/// One line, the four things worth re-reading, keys cased the way a keyboard labels them.
#[test]
fn the_banner_is_one_compact_line() {
    let line = banner(&ClickerArgs { cps: rate_of(20.0), ..ClickerArgs::new() });
    assert_eq!(line.trim(), "left click 20/s | HOLD: F9 | Quit: F8", "{line:?}");
}

/// Toggle says TOGGLE, and a key action names the key rather than a button.
#[test]
fn the_mode_and_the_action_are_named_for_what_they_are() {
    let line = banner(&ClickerArgs {
        cps: rate_of(30.0),
        toggle: true,
        kb_key: Some(key("f")),
        ..ClickerArgs::new()
    });
    assert_eq!(line.trim(), "f key 30/s | TOGGLE: F9 | Quit: F8", "{line:?}");
}

/// A limit is stated only when there is one — "no limit" on every run is noise.
#[test]
fn the_limit_appears_only_when_set() {
    assert!(!banner(&ClickerArgs::new()).contains("Limit"));
    let limited = banner(&ClickerArgs { limit: 5, ..ClickerArgs::new() });
    assert!(limited.trim().ends_with("| Limit: 5"), "{limited:?}");
}

#[test]
fn defaults_match_the_prototype() {
    let config = ClickerArgs::new().config();
    assert!((f64::from_bits(config.cps.bits) - 20.0).abs() < f64::EPSILON);
    assert_eq!(config.mode, ActivationMode::Hold);
    assert_eq!(config.activate, Key::F9);
    assert_eq!(config.quit, Key::F8);
}

#[test]
fn struct_update_syntax_works_across_the_crate_boundary() {
    let args = ClickerArgs { cps: rate_of(12.5), toggle: true, ..ClickerArgs::new() };
    assert!((f64::from_bits(args.config().cps.bits) - 12.5).abs() < f64::EPSILON);
    assert_eq!(args.config().mode, ActivationMode::Toggle);
}

/// The holds stay in milliseconds, and a button is the one it is called.
#[test]
fn the_arguments_become_a_configuration() {
    let args = ClickerArgs {
        m_key: MouseButton::Forward,
        key_hold_ms: 3,
        button_hold_ms: 0,
        limit: 9,
        ..ClickerArgs::default()
    };
    let config = ClickConfig::from(args);
    assert_eq!(config.action, ClickAction::Button(Button::Forward));
    assert_eq!((config.key_hold, config.button_hold, config.limit), (3, 0, 9));
    assert_eq!(hotkeys(&config), vec![Key::F9, Key::F8]);
    assert_eq!(Button::from(MouseButton::Middle), Button::Middle);
}

/// The exit report's two promises: the sent line carries its own caveat — this process
/// counts what it hands to the backend and cannot see what arrives — and the run closes
/// with a stopwatch line, because the user chose when to stop and may want to know how
/// long that was.
#[test]
fn the_exit_report_caveats_sent_and_ends_with_a_stopwatch() {
    let summary = RunSummary {
        emitted: 2,
        iterations: 1,
        slots_skipped: 3,
        throttled: 4,
        ..RunSummary::default()
    };
    let words = ReportWords {
        sent_rate: None,
        asked: "20".to_owned(),
        elapsed: "0.0".to_owned(),
    };
    let lines = report(&summary, &words, false);
    let text = lines.join("\n");
    assert!(
        text.contains("sent") && text.contains("not all may arrive"),
        "the sent line must say the count is what was sent, not what arrived: {text}"
    );
    assert!(
        text.lines().last().unwrap().starts_with("ran "),
        "the last line is the stopwatch: {text}"
    );
    assert_eq!(lines[0], "sent 2 actions over 1 repetitions — not all may arrive.");
    assert!(lines[1].starts_with("3 repetitions were skipped"));
    assert_eq!(lines[2], "4 actions were dropped by the output rate limit.");
    assert!(report(&summary, &words, true).is_empty());

    let rated = ReportWords { sent_rate: Some("19.8".to_owned()), ..words };
    assert_eq!(
        report(&RunSummary::default(), &rated, false)[0],
        "sent 0 actions over 0 repetitions at 19.8/s (asked for 20/s) — not all may arrive."
    );
}

// ---------------------------------------------------------------------- the other subcommands

/// Says what it is, and succeeds. Exiting non-zero would break a `write-script && next`
/// somebody writes while waiting for the feature, and saying nothing would look broken.
#[test]
fn the_stub_reports_itself_and_succeeds() {
    let (line, code) = write_script(&WriteScriptArgs::new());
    assert_eq!(code, exit::OK);
    assert!(line.contains("write-script"), "{line}");
    assert!(line.starts_with("TODO: write-script is not implemented yet — it will run"));
}

/// Every subcommand carries the shared options.
#[test]
fn every_subcommand_exposes_the_shared_options() {
    let global = GlobalArgs { verbose: 2, quiet: true };
    let commands = [
        Command::Clicker(ClickerArgs { global, ..ClickerArgs::new() }),
        Command::Bench(BenchArgs { global, ..BenchArgs::new() }),
        Command::Doctor(DoctorArgs { global }),
        Command::DetectKey(DetectKeyArgs { global, ..DetectKeyArgs::new() }),
        Command::ProfileApply(ProfileApplyArgs { files: Vec::new(), global }),
        Command::ProfileUnapply(ProfileUnapplyArgs { names: Vec::new(), global }),
        Command::ProfileCheck(ProfileCheckArgs { files: Vec::new(), format: false, global }),
        Command::WriteScript(WriteScriptArgs { global }),
    ];
    for command in commands {
        assert_eq!(*command.global(), global, "{command:?}");
        assert_eq!(*Cli::from(command).command.global(), global);
    }
    assert_eq!(GlobalArgs::default(), GlobalArgs { verbose: 0, quiet: false });
}

#[test]
fn a_benchmark_defaults_to_three_seconds_flat_out() {
    let args = BenchArgs::default();
    assert_eq!(args.cps, None);
    assert_eq!(f64::from_bits(args.seconds.bits), 3.0);
}

#[test]
fn a_benchmark_says_what_it_measures_and_what_it_found() {
    assert_eq!(intro(Some("500"), "3"), "Measuring 500/s for 3s...");
    assert_eq!(intro(None, "3"), "Measuring the ceiling for 3s (no target rate)...");
    let found = Measured {
        requested: Some("500".to_owned()),
        emitted_rate: "499.0".to_owned(),
        delivered_rate: "498.5".to_owned(),
        emitted: 1497,
        delivered: 1495,
        elapsed: "3.0".to_owned(),
    };
    assert_eq!(
        progress("1.0", "500", "499"),
        "    1.0s   emitting      500/s   delivered      499/s"
    );
    let text = bench_report(&found).join("\n");
    for part in ["500", "499.0", "498.5", "1497", "1495", "3.0"] {
        assert!(text.contains(part), "{part} in {text}");
    }
}

#[test]
fn both_halves_of_a_run_come_from_one_backend() {
    assert!(matches!(open_pair(true, false), Ok(Pair::X11)));
    assert!(matches!(open_pair(true, true), Ok(Pair::X11)));
    assert!(matches!(open_pair(false, true), Ok(Pair::Devices)));
    assert_eq!(open_pair(false, false).unwrap_err().message(), NO_SERVER);
    assert_eq!(
        unsupported("plan9").message(),
        "no input backend for plan9; only Linux is supported."
    );
}

/// Naming presses off the devices needs read access whatever the session is.
#[test]
fn detect_key_wants_the_devices_unless_told_otherwise() {
    let devices = Command::DetectKey(DetectKeyArgs::new());
    assert!(wants_devices(&devices, true));
    assert!(!command_has_access(&devices, true, &vec![true], false));
    assert!(command_has_access(&devices, false, &vec![false], true));
    let terminal = Command::DetectKey(DetectKeyArgs { no_sudo: true, ..DetectKeyArgs::new() });
    assert!(!wants_devices(&terminal, true));
}

#[test]
fn a_failed_parse_keeps_clap_apart_from_success() {
    assert_eq!(exit::parse_failure(0), exit::OK);
    assert_eq!(exit::parse_failure(2), exit::USAGE);
}
