//! The doctor's report: what this machine can do, and the exact fix for what it cannot.
use vstd::prelude::*;

use crate::exit;
use crate::input::{class_of, classes, decorates, no_mods, Key, Mods};
use crate::names::{key_names, names_of, Lexicon};
use crate::text::{join, joined, lines, lines_of, texts};

verus! {

// ------------------------------------------------------------------------------ the keyboard

/// What the X server believes about the keyboard.
#[derive(Debug)]
pub struct KeyboardState {
    /// The modifier classes that are active.
    pub state: Mods,
    /// The keys that are down.
    pub down: Vec<Key>,
    pub caps_lock: bool,
    pub num_lock: bool,
}

/// What came of asking the X server about the keyboard.
#[derive(Debug)]
pub enum KeyboardAnswer {
    /// There is no server to ask.
    NoServer,
    /// The server would not answer.
    Silent,
    /// The server answered.
    State(KeyboardState),
}

/// The classes that are active without a key that holds them.
pub open spec fn stuck_mods(state: Mods, down: Seq<Key>) -> Mods {
    let held = classes(down);
    Mods {
        shift: state.shift && !held.shift,
        ctrl: state.ctrl && !held.ctrl,
        alt: state.alt && !held.alt,
        ralt: state.ralt && !held.ralt,
        meta: state.meta && !held.meta,
    }
}

/// A list of one class where it is in a set, else an empty one.
pub open spec fn if_in(present: bool, class: Mods) -> Seq<Mods> {
    if present {
        seq![class]
    } else {
        seq![]
    }
}

/// The single classes of a set.
pub open spec fn single_classes(mods: Mods) -> Seq<Mods> {
    if_in(mods.shift, Mods { shift: true, ..no_mods() }) + if_in(
        mods.ctrl,
        Mods { ctrl: true, ..no_mods() },
    ) + if_in(mods.alt, Mods { alt: true, ..no_mods() }) + if_in(
        mods.ralt,
        Mods { ralt: true, ..no_mods() },
    ) + if_in(mods.meta, Mods { meta: true, ..no_mods() })
}

/// The keys that hold the first class of a set.
pub open spec fn watched(class: Mods) -> Seq<Key> {
    if class.shift {
        seq![Key::LeftShift, Key::RightShift]
    } else if class.ctrl {
        seq![Key::LeftCtrl, Key::RightCtrl]
    } else if class.alt {
        seq![Key::LeftAlt]
    } else if class.ralt {
        seq![Key::RightAlt]
    } else if class.meta {
        seq![Key::LeftMeta, Key::RightMeta]
    } else {
        seq![]
    }
}

impl KeyboardState {
    /// The single classes that are active without a key that holds them.
    pub fn stuck(&self) -> (out: Vec<Mods>)
        ensures
            out@ == single_classes(stuck_mods(self.state, self.down@)),
    {
        let held = Mods::of_chord(&self.down);
        let none = Mods::none();
        let mut out: Vec<Mods> = Vec::new();
        if self.state.shift && !held.shift {
            out.push(Mods { shift: true, ..none });
        }
        if self.state.ctrl && !held.ctrl {
            out.push(Mods { ctrl: true, ..none });
        }
        if self.state.alt && !held.alt {
            out.push(Mods { alt: true, ..none });
        }
        if self.state.ralt && !held.ralt {
            out.push(Mods { ralt: true, ..none });
        }
        if self.state.meta && !held.meta {
            out.push(Mods { meta: true, ..none });
        }
        assert(out@ =~= single_classes(stuck_mods(self.state, self.down@)));
        out
    }
}

/// The keys that hold the first class of a set.
pub fn watch_keys(class: Mods) -> (out: Vec<Key>)
    ensures
        out@ == watched(class),
{
    let mut out: Vec<Key> = Vec::new();
    if class.shift {
        out.push(Key::LeftShift);
        out.push(Key::RightShift);
    } else if class.ctrl {
        out.push(Key::LeftCtrl);
        out.push(Key::RightCtrl);
    } else if class.alt {
        out.push(Key::LeftAlt);
    } else if class.ralt {
        out.push(Key::RightAlt);
    } else if class.meta {
        out.push(Key::LeftMeta);
        out.push(Key::RightMeta);
    }
    assert(out@ =~= watched(class));
    out
}

/// The keys that hold some class of a set.
pub open spec fn holders(mods: Mods) -> Seq<Key> {
    let none = Seq::<Key>::empty();
    (if mods.shift {
        seq![Key::LeftShift, Key::RightShift]
    } else {
        none
    }) + (if mods.ctrl {
        seq![Key::LeftCtrl, Key::RightCtrl]
    } else {
        none
    }) + (if mods.alt {
        seq![Key::LeftAlt]
    } else {
        none
    }) + (if mods.ralt {
        seq![Key::RightAlt]
    } else {
        none
    }) + (if mods.meta {
        seq![Key::LeftMeta, Key::RightMeta]
    } else {
        none
    })
}

/// The keys that hold some class of a set.
pub fn holding_keys(mods: Mods) -> (out: Vec<Key>)
    ensures
        out@ == holders(mods),
{
    let mut out: Vec<Key> = Vec::new();
    if mods.shift {
        out.push(Key::LeftShift);
        out.push(Key::RightShift);
    }
    if mods.ctrl {
        out.push(Key::LeftCtrl);
        out.push(Key::RightCtrl);
    }
    if mods.alt {
        out.push(Key::LeftAlt);
    }
    if mods.ralt {
        out.push(Key::RightAlt);
    }
    if mods.meta {
        out.push(Key::LeftMeta);
        out.push(Key::RightMeta);
    }
    assert(out@ =~= holders(mods));
    out
}

/// The names of keys, with commas between.
pub open spec fn listed(lexicon: &Lexicon, keys: Seq<Key>) -> Seq<char> {
    joined(key_names(lexicon, keys), ", "@)
}

/// The facts in one clause: what is active, what is down, which locks are on.
pub open spec fn keyboard_facts(
    lexicon: &Lexicon,
    state: Mods,
    down: Seq<Key>,
    caps: bool,
    num: bool,
) -> Seq<char> {
    (if state == no_mods() {
        "no modifier active"@
    } else {
        "active: "@ + lexicon.mods_name(state)
    }) + ", "@ + (if down.len() == 0 {
        "no key down"@
    } else {
        "down: "@ + listed(lexicon, down)
    }) + (if caps && num {
        " (caps lock and num lock ON)"@
    } else if caps {
        " (caps lock ON)"@
    } else if num {
        " (num lock ON)"@
    } else {
        Seq::<char>::empty()
    })
}

/// How a stuck class is cleared: the server waits to see a key come up, and only the side it waits
/// on will do.
pub open spec fn clearing_text(lexicon: &Lexicon, class: Mods) -> Seq<char> {
    if watched(class).len() > 1 {
        "tap the left and the right "@ + lexicon.mods_name(class)
            + " once each — only the stuck side clears it"@
    } else {
        "tap "@ + listed(lexicon, watched(class)) + " once"@
    }
}

/// What a set of classes is called, one by one.
pub open spec fn class_names(lexicon: &Lexicon, list: Seq<Mods>) -> Seq<Seq<char>> {
    list.map_values(|class: Mods| lexicon.mods_name(class))
}

/// The lines about the keyboard: the facts, and what they mean.
pub open spec fn keyboard_lines(
    lexicon: &Lexicon,
    state: Mods,
    down: Seq<Key>,
    caps: bool,
    num: bool,
) -> Seq<Seq<char>> {
    let stuck = single_classes(stuck_mods(state, down));
    let facts = keyboard_facts(lexicon, state, down, caps, num);
    if stuck.len() == 0 {
        seq!["keyboard: consistent — "@ + facts] + (if down.len() == 0 {
            Seq::<Seq<char>>::empty()
        } else {
            seq![
                "  a key listed as down with your hands off the keyboard is stuck: press and release it once"@,
            ]
        })
    } else {
        let named = joined(class_names(lexicon, stuck), ", "@);
        seq![
            "keyboard: [fail] stuck modifier: "@ + named
                + " — the server has it active, no key is holding it"@,
            "  every chord you press arrives with "@ + named
                + " added, so shortcuts match nothing ("@ + facts + ")"@,
        ] + stuck.map_values(|class: Mods| "      $ "@ + clearing_text(lexicon, class)) + seq![
            "      $ setxkbmap <your layout>   # resets locks, latches and the layout group"@,
        ]
    }
}

fn list_keys(lexicon: &Lexicon, keys: &Vec<Key>) -> (out: String)
    ensures
        out@ == listed(lexicon, keys@),
{
    join(&names_of(lexicon, keys), ", ")
}

fn summary(lexicon: &Lexicon, keyboard: &KeyboardState) -> (out: String)
    ensures
        out@ == keyboard_facts(
            lexicon,
            keyboard.state,
            keyboard.down@,
            keyboard.caps_lock,
            keyboard.num_lock,
        ),
{
    let mut out: String = if keyboard.state == Mods::none() {
        "no modifier active".to_owned()
    } else {
        let mut active: String = "active: ".to_owned();
        active.append(lexicon.mods_name_of(keyboard.state).as_str());
        active
    };
    out.append(", ");
    if keyboard.down.len() == 0 {
        out.append("no key down");
    } else {
        let mut down: String = "down: ".to_owned();
        down.append(list_keys(lexicon, &keyboard.down).as_str());
        out.append(down.as_str());
    }
    let ghost before = out@;
    if keyboard.caps_lock && keyboard.num_lock {
        out.append(" (caps lock and num lock ON)");
    } else if keyboard.caps_lock {
        out.append(" (caps lock ON)");
    } else if keyboard.num_lock {
        out.append(" (num lock ON)");
    } else {
        assert(before + Seq::<char>::empty() =~= before);
    }
    out
}

fn clearing(lexicon: &Lexicon, class: Mods) -> (out: String)
    ensures
        out@ == clearing_text(lexicon, class),
{
    let keys = watch_keys(class);
    if keys.len() > 1 {
        let mut out: String = "tap the left and the right ".to_owned();
        out.append(lexicon.mods_name_of(class).as_str());
        out.append(" once each — only the stuck side clears it");
        out
    } else {
        let mut out: String = "tap ".to_owned();
        out.append(list_keys(lexicon, &keys).as_str());
        out.append(" once");
        out
    }
}

fn name_classes(lexicon: &Lexicon, list: &Vec<Mods>) -> (out: Vec<String>)
    ensures
        texts(out@) == class_names(lexicon, list@),
{
    let ghost meant = class_names(lexicon, list@);
    let mut out: Vec<String> = Vec::new();
    let mut i: usize = 0;
    assert(texts(out@) =~= meant.take(0));
    while i < list.len()
        invariant
            i <= list@.len(),
            meant == class_names(lexicon, list@),
            texts(out@) == meant.take(i as int),
        decreases list@.len() - i,
    {
        let name = lexicon.mods_name_of(list[i]);
        push(&mut out, name);
        i += 1;
        assert(texts(out@) =~= meant.take(i as int));
    }
    assert(meant.take(meant.len() as int) =~= meant);
    out
}

/// What is warned of where a run leaves the keyboard behind: a class that the server has active
/// without a key that holds it. Nothing where there is none, or nobody to ask.
pub open spec fn stuck_warning_text(lexicon: &Lexicon, answer: KeyboardAnswer) -> Option<Seq<char>> {
    match answer {
        KeyboardAnswer::State(keyboard) => {
            let stuck = single_classes(stuck_mods(keyboard.state, keyboard.down@));
            if stuck.len() == 0 {
                None
            } else {
                Some(
                    "warning: stuck modifier: "@ + joined(class_names(lexicon, stuck), ", "@)
                        + " \u{2014} the server still has it active and no key is holding it; `sequencer doctor` says how to clear it"@,
                )
            }
        },
        _ => None,
    }
}

/// The line that warns of a stuck modifier, if there is one.
pub fn stuck_warning(lexicon: &Lexicon, answer: &KeyboardAnswer) -> (r: Option<String>)
    ensures
        match r {
            Some(line) => stuck_warning_text(lexicon, *answer) == Some(line@),
            None => stuck_warning_text(lexicon, *answer) is None,
        },
        r is Some <==> (answer matches KeyboardAnswer::State(keyboard) && stuck_mods(
            keyboard.state,
            keyboard.down@,
        ) != no_mods()),
{
    match answer {
        KeyboardAnswer::State(keyboard) => {
            let stuck = keyboard.stuck();
            if stuck.len() == 0 {
                assert(stuck_mods(keyboard.state, keyboard.down@) == no_mods());
                return None;
            }
            let mut line: String = "warning: stuck modifier: ".to_owned();
            line.append(join(&name_classes(lexicon, &stuck), ", ").as_str());
            line.append(
                " \u{2014} the server still has it active and no key is holding it; `sequencer doctor` says how to clear it",
            );
            Some(line)
        },
        KeyboardAnswer::NoServer | KeyboardAnswer::Silent => None,
    }
}

/// Appends a line.
fn push(out: &mut Vec<String>, line: String)
    ensures
        texts(final(out)@) == texts(old(out)@).push(line@),
{
    let ghost before = texts(out@);
    let ghost said = line@;
    out.push(line);
    assert(texts(out@) =~= before.push(said));
}

/// Appends a fixed line.
fn push_text(out: &mut Vec<String>, line: &str)
    ensures
        texts(final(out)@) == texts(old(out)@).push(line@),
{
    push(out, line.to_owned());
}

/// Appends a line made of a beginning and an end.
fn push_both(out: &mut Vec<String>, start: &str, end: &str)
    ensures
        texts(final(out)@) == texts(old(out)@).push(start@ + end@),
{
    let mut line: String = start.to_owned();
    line.append(end);
    push(out, line);
}

/// The lines that what the server believes deserves.
pub fn keyboard_report(lexicon: &Lexicon, keyboard: &KeyboardState) -> (out: Vec<String>)
    ensures
        texts(out@) == keyboard_lines(
            lexicon,
            keyboard.state,
            keyboard.down@,
            keyboard.caps_lock,
            keyboard.num_lock,
        ),
{
    let stuck = keyboard.stuck();
    let facts = summary(lexicon, keyboard);
    let ghost meant = keyboard_lines(
        lexicon,
        keyboard.state,
        keyboard.down@,
        keyboard.caps_lock,
        keyboard.num_lock,
    );
    let mut out: Vec<String> = Vec::new();
    assert(texts(out@) =~= seq![]);
    if stuck.len() == 0 {
        push_both(&mut out, "keyboard: consistent — ", facts.as_str());
        if keyboard.down.len() > 0 {
            push_text(
                &mut out,
                "  a key listed as down with your hands off the keyboard is stuck: press and release it once",
            );
        }
        assert(texts(out@) =~= meant);
        return out;
    }
    let names = name_classes(lexicon, &stuck);
    let named = join(&names, ", ");
    let mut first: String = "keyboard: [fail] stuck modifier: ".to_owned();
    first.append(named.as_str());
    first.append(" — the server has it active, no key is holding it");
    push(&mut out, first);
    let mut second: String = "  every chord you press arrives with ".to_owned();
    second.append(named.as_str());
    second.append(" added, so shortcuts match nothing (");
    second.append(facts.as_str());
    second.append(")");
    push(&mut out, second);
    let ghost head = texts(out@);
    let ghost fixes = stuck@.map_values(|class: Mods| "      $ "@ + clearing_text(lexicon, class));
    let mut i: usize = 0;
    assert(head + fixes.take(0) =~= head);
    while i < stuck.len()
        invariant
            i <= stuck@.len(),
            fixes == stuck@.map_values(
                |class: Mods| "      $ "@ + clearing_text(lexicon, class),
            ),
            texts(out@) == head + fixes.take(i as int),
        decreases stuck@.len() - i,
    {
        push_both(&mut out, "      $ ", clearing(lexicon, stuck[i]).as_str());
        i += 1;
        assert(texts(out@) =~= head + fixes.take(i as int));
    }
    push_text(
        &mut out,
        "      $ setxkbmap <your layout>   # resets locks, latches and the layout group",
    );
    proof {
        assert(fixes.take(fixes.len() as int) =~= fixes);
        assert(texts(out@) =~= meant);
    }
    out
}

/// A class is reported stuck exactly where it is active and no key that is down belongs to it.
pub proof fn law_a_held_class_is_never_stuck(state: Mods, down: Seq<Key>)
    ensures
        stuck_mods(state, down) == no_mods() <==> classes(down).covering(state),
        state.covering(stuck_mods(state, down)),
{
}

// ------------------------------------------------------------------------------ the requirements

/// One step of a fix.
pub enum FixStep {
    Shell(String),
    WriteFile { path: String, body: String },
    Manual(String),
}

/// How to meet a requirement.
pub struct Fix {
    pub title: String,
    pub why: String,
    pub steps: Vec<FixStep>,
    pub caution: Option<String>,
}

/// What came of checking a requirement.
pub enum CheckResult {
    Pass,
    Unknown(String),
    Fail(String),
}

/// A requirement that was checked.
pub struct Check {
    pub label: String,
    pub result: CheckResult,
    pub fix: Fix,
}

/// The lines of one step of a fix.
pub open spec fn step_lines(step: FixStep) -> Seq<Seq<char>> {
    match step {
        FixStep::Shell(command) => seq!["      $ "@ + command@],
        FixStep::WriteFile { path, body } => seq!["      write "@ + path@ + ":"@] + lines(
            body@,
        ).map_values(|line: Seq<char>| "          "@ + line),
        FixStep::Manual(text) => seq!["      "@ + text@],
    }
}

/// The lines of the first `n` steps of a fix.
pub open spec fn steps_lines(steps: Seq<FixStep>, n: int) -> Seq<Seq<char>>
    decreases n,
{
    if n <= 0 {
        seq![]
    } else {
        steps_lines(steps, n - 1) + step_lines(steps[n - 1])
    }
}

/// The lines of a fix.
pub open spec fn fix_lines(fix: Fix) -> Seq<Seq<char>> {
    seq![""@, fix.title@, "  "@ + fix.why@] + steps_lines(fix.steps@, fix.steps@.len() as int) + (
    match fix.caution {
        Some(caution) => seq!["  NOTE: "@ + caution@],
        None => Seq::<Seq<char>>::empty(),
    })
}

/// The line of a requirement that was checked.
pub open spec fn check_line(check: Check) -> Seq<char> {
    match check.result {
        CheckResult::Pass => "[ok]   "@ + check.label@,
        CheckResult::Unknown(why) => "[??]   "@ + check.label@ + ": "@ + why@,
        CheckResult::Fail(detail) => "[fail] "@ + check.label@ + ": "@ + detail@,
    }
}

/// Whether a requirement is not met.
pub open spec fn is_unmet(check: Check) -> bool {
    check.result is Fail
}

/// The lines of all checks.
pub open spec fn check_lines(checks: Seq<Check>) -> Seq<Seq<char>> {
    checks.map_values(|check: Check| check_line(check))
}

/// The fixes for the first `n` checks that failed.
pub open spec fn fixes_lines(checks: Seq<Check>, n: int) -> Seq<Seq<char>>
    decreases n,
{
    if n <= 0 {
        seq![]
    } else if is_unmet(checks[n - 1]) {
        fixes_lines(checks, n - 1) + fix_lines(checks[n - 1].fix)
    } else {
        fixes_lines(checks, n - 1)
    }
}

/// Whether every requirement is met or could not be checked.
pub open spec fn none_unmet(checks: Seq<Check>) -> bool {
    forall|i: int| 0 <= i < checks.len() ==> !is_unmet(#[trigger] checks[i])
}

fn push_step(out: &mut Vec<String>, step: &FixStep)
    ensures
        texts(final(out)@) == texts(old(out)@) + step_lines(*step),
{
    let ghost head = texts(out@);
    match step {
        FixStep::Shell(command) => {
            push_both(out, "      $ ", command.as_str());
        },
        FixStep::WriteFile { path, body } => {
            let mut line: String = "      write ".to_owned();
            line.append(path.as_str());
            line.append(":");
            push(out, line);
            let ghost head = texts(out@);
            let found = lines_of(body.as_str());
            let ghost rest = lines(body@).map_values(|line: Seq<char>| "          "@ + line);
            let mut i: usize = 0;
            assert(head + rest.take(0) =~= head);
            while i < found.len()
                invariant
                    i <= found@.len(),
                    texts(found@) == lines(body@),
                    rest == lines(body@).map_values(|line: Seq<char>| "          "@ + line),
                    texts(out@) == head + rest.take(i as int),
                decreases found@.len() - i,
            {
                assert(texts(found@)[i as int] == found@[i as int]@);
                push_both(out, "          ", found[i].as_str());
                i += 1;
                assert(texts(out@) =~= head + rest.take(i as int));
            }
            assert(rest.take(rest.len() as int) =~= rest);
        },
        FixStep::Manual(text) => {
            push_both(out, "      ", text.as_str());
        },
    }
    assert(texts(out@) =~= head + step_lines(*step));
}

fn push_fix(out: &mut Vec<String>, fix: &Fix)
    ensures
        texts(final(out)@) == texts(old(out)@) + fix_lines(*fix),
{
    let ghost first = texts(out@);
    push_text(out, "");
    push_text(out, fix.title.as_str());
    push_both(out, "  ", fix.why.as_str());
    let ghost head = texts(out@);
    let mut i: usize = 0;
    assert(head + steps_lines(fix.steps@, 0) =~= head);
    while i < fix.steps.len()
        invariant
            i <= fix.steps@.len(),
            texts(out@) == head + steps_lines(fix.steps@, i as int),
        decreases fix.steps@.len() - i,
    {
        push_step(out, &fix.steps[i]);
        i += 1;
        assert(texts(out@) =~= head + steps_lines(fix.steps@, i as int));
    }
    if let Some(caution) = &fix.caution {
        push_both(out, "  NOTE: ", caution.as_str());
    }
    assert(texts(out@) =~= first + fix_lines(*fix));
}

fn push_check(out: &mut Vec<String>, check: &Check)
    ensures
        texts(final(out)@) == texts(old(out)@).push(check_line(*check)),
{
    let mut line: String = match &check.result {
        CheckResult::Pass => "[ok]   ".to_owned(),
        CheckResult::Unknown(_) => "[??]   ".to_owned(),
        CheckResult::Fail(_) => "[fail] ".to_owned(),
    };
    line.append(check.label.as_str());
    match &check.result {
        CheckResult::Pass => {},
        CheckResult::Unknown(detail) | CheckResult::Fail(detail) => {
            line.append(": ");
            line.append(detail.as_str());
        },
    }
    push(out, line);
}

// ------------------------------------------------------------------------------- the report

/// What the report is made of.
pub struct Facts {
    pub version: String,
    pub os: String,
    pub arch: String,
    /// What kind of session this is.
    pub session: String,
    /// Whether the X11 pair will handle a whole run.
    pub on_x11: bool,
    pub keyboard: KeyboardAnswer,
    /// Whether the environment is to be shown.
    pub verbose: bool,
    pub display: Option<String>,
    pub wayland_display: Option<String>,
    pub session_type: Option<String>,
    /// Whether this build has any input backend.
    pub available: bool,
    /// The requirements of the device backend, in report order; none in a build without it.
    pub checks: Vec<Check>,
}

/// A report and the exit code that goes with it.
#[derive(Debug)]
pub struct DoctorReport {
    pub lines: Vec<String>,
    pub code: u8,
}

/// Which pair of backends a run would choose.
pub open spec fn pair_name(on_x11: bool) -> Seq<char> {
    if on_x11 {
        "X11 — XTEST for clicks, key grabs for hotkeys (no device access, no sudo)"@
    } else {
        "uinput device for clicks, evdev for hotkeys"@
    }
}

/// Which pair of backends a run would choose.
pub fn backend_pair(on_x11: bool) -> (name: &'static str)
    ensures
        name@ == pair_name(on_x11),
{
    if on_x11 {
        "X11 — XTEST for clicks, key grabs for hotkeys (no device access, no sudo)"
    } else {
        "uinput device for clicks, evdev for hotkeys"
    }
}

/// A variable of the environment, where it is set.
pub open spec fn variable_line(label: Seq<char>, value: Option<String>) -> Seq<Seq<char>> {
    match value {
        Some(value) => seq!["  "@ + label + "="@ + value@],
        None => seq![],
    }
}

/// The lines about the keyboard.
pub open spec fn answer_lines(lexicon: &Lexicon, answer: KeyboardAnswer) -> Seq<Seq<char>> {
    match answer {
        KeyboardAnswer::NoServer => seq![],
        KeyboardAnswer::Silent => seq!["keyboard: [??] the X server would not answer"@],
        KeyboardAnswer::State(keyboard) => keyboard_lines(
            lexicon,
            keyboard.state,
            keyboard.down@,
            keyboard.caps_lock,
            keyboard.num_lock,
        ),
    }
}

/// The lines above the verdict on the requirements.
pub open spec fn head_lines(lexicon: &Lexicon, facts: Facts) -> Seq<Seq<char>> {
    seq![
        "sequencer "@ + facts.version@ + "  ("@ + facts.os@ + " "@ + facts.arch@ + ")"@,
        "session: "@ + facts.session@,
        "backend: "@ + pair_name(facts.on_x11),
    ] + answer_lines(lexicon, facts.keyboard) + (if facts.verbose {
        variable_line("DISPLAY"@, facts.display) + variable_line(
            "WAYLAND_DISPLAY"@,
            facts.wayland_display,
        ) + variable_line("XDG_SESSION_TYPE"@, facts.session_type)
    } else {
        Seq::<Seq<char>>::empty()
    }) + seq![""@]
}

/// The verdict on the requirements: its lines and the exit code.
pub open spec fn verdict(facts: Facts) -> (Seq<Seq<char>>, u8) {
    if !facts.available {
        (
            seq![
                "[fail] no input backend: this build has none for "@ + facts.os@
                    + ". Only Linux is supported."@,
            ],
            exit::FAILURE,
        )
    } else {
        let found = check_lines(facts.checks@) + fixes_lines(
            facts.checks@,
            facts.checks@.len() as int,
        );
        if none_unmet(facts.checks@) {
            if facts.checks@.len() == 0 && !facts.on_x11 {
                (
                    found + seq![
                        "[fail] no X server answered, and this build has only the X11 backend. Rebuild with the `evdev` feature to run outside X."@,
                    ],
                    exit::FAILURE,
                )
            } else {
                (found + seq![""@, "Ready."@], exit::OK)
            }
        } else if facts.on_x11 {
            (
                found + seq![
                    ""@,
                    "None of that is needed here: this is an X11 session, so clicks go through XTEST and hotkeys through key grabs, and neither opens a device. The checks above matter only if you later run without X."@,
                ],
                exit::OK,
            )
        } else {
            (
                found + seq![
                    ""@,
                    "Until that is fixed, `sequencer detect-key` still works: it reads the terminal, not the devices."@,
                ],
                exit::FAILURE,
            )
        }
    }
}

fn push_variable(out: &mut Vec<String>, label: &str, value: &Option<String>)
    ensures
        texts(final(out)@) == texts(old(out)@) + variable_line(label@, *value),
{
    let ghost head = texts(out@);
    if let Some(value) = value {
        let mut line: String = "  ".to_owned();
        line.append(label);
        line.append("=");
        line.append(value.as_str());
        push(out, line);
    }
    assert(texts(out@) =~= head + variable_line(label@, *value));
}

fn push_answer(out: &mut Vec<String>, lexicon: &Lexicon, answer: &KeyboardAnswer)
    ensures
        texts(final(out)@) == texts(old(out)@) + answer_lines(lexicon, *answer),
{
    let ghost head = texts(out@);
    match answer {
        KeyboardAnswer::NoServer => {
            assert(head + answer_lines(lexicon, *answer) =~= head);
        },
        KeyboardAnswer::Silent => {
            push_text(out, "keyboard: [??] the X server would not answer");
            assert(texts(out@) =~= head + answer_lines(lexicon, *answer));
        },
        KeyboardAnswer::State(keyboard) => {
            let mut lines = keyboard_report(lexicon, keyboard);
            let ghost more = lines@;
            let ghost before = out@;
            out.append(&mut lines);
            assert(out@ =~= before + more);
            assert(texts(out@) =~= head + texts(more));
        },
    }
}

fn head(lexicon: &Lexicon, facts: &Facts) -> (out: Vec<String>)
    ensures
        texts(out@) == head_lines(lexicon, *facts),
{
    let mut out: Vec<String> = Vec::new();
    assert(texts(out@) =~= seq![]);
    let mut first: String = "sequencer ".to_owned();
    first.append(facts.version.as_str());
    first.append("  (");
    first.append(facts.os.as_str());
    first.append(" ");
    first.append(facts.arch.as_str());
    first.append(")");
    push(&mut out, first);
    push_both(&mut out, "session: ", facts.session.as_str());
    push_both(&mut out, "backend: ", backend_pair(facts.on_x11));
    push_answer(&mut out, lexicon, &facts.keyboard);
    if facts.verbose {
        push_variable(&mut out, "DISPLAY", &facts.display);
        push_variable(&mut out, "WAYLAND_DISPLAY", &facts.wayland_display);
        push_variable(&mut out, "XDG_SESSION_TYPE", &facts.session_type);
    }
    push_text(&mut out, "");
    assert(texts(out@) =~= head_lines(lexicon, *facts));
    out
}

/// Appends the lines of all checks and the fixes for those that failed, and says whether none did.
fn push_checks(out: &mut Vec<String>, checks: &Vec<Check>) -> (ready: bool)
    ensures
        texts(final(out)@) == texts(old(out)@) + check_lines(checks@) + fixes_lines(
            checks@,
            checks@.len() as int,
        ),
        ready == none_unmet(checks@),
{
    let ghost first = texts(out@);
    let ghost all = check_lines(checks@);
    let mut i: usize = 0;
    assert(first + all.take(0) =~= first);
    while i < checks.len()
        invariant
            i <= checks@.len(),
            all == check_lines(checks@),
            texts(out@) == first + all.take(i as int),
        decreases checks@.len() - i,
    {
        push_check(out, &checks[i]);
        i += 1;
        assert(texts(out@) =~= first + all.take(i as int));
    }
    assert(all.take(all.len() as int) =~= all);
    let ghost head = texts(out@);
    let mut ready: bool = true;
    let mut i: usize = 0;
    assert(head + fixes_lines(checks@, 0) =~= head);
    while i < checks.len()
        invariant
            i <= checks@.len(),
            texts(out@) == head + fixes_lines(checks@, i as int),
            ready ==> forall|k: int| 0 <= k < i ==> !is_unmet(#[trigger] checks@[k]),
            !ready ==> !none_unmet(checks@),
        decreases checks@.len() - i,
    {
        if let CheckResult::Fail(_) = &checks[i].result {
            assert(is_unmet(checks@[i as int]));
            ready = false;
            push_fix(out, &checks[i].fix);
        }
        i += 1;
        assert(texts(out@) =~= head + fixes_lines(checks@, i as int));
    }
    ready
}

/// The whole report, and the exit code that goes with it.
pub fn doctor(lexicon: &Lexicon, facts: &Facts) -> (r: DoctorReport)
    ensures
        texts(r.lines@) == head_lines(lexicon, *facts) + verdict(*facts).0,
        r.code == verdict(*facts).1,
{
    let mut lines = head(lexicon, facts);
    let ghost first = texts(lines@);
    if !facts.available {
        let mut line: String = "[fail] no input backend: this build has none for ".to_owned();
        line.append(facts.os.as_str());
        line.append(". Only Linux is supported.");
        push(&mut lines, line);
        assert(texts(lines@) =~= first + verdict(*facts).0);
        return DoctorReport { lines, code: exit::FAILURE };
    }
    let ready = push_checks(&mut lines, &facts.checks);
    let code: u8;
    if ready {
        if facts.checks.len() == 0 && !facts.on_x11 {
            push_text(
                &mut lines,
                "[fail] no X server answered, and this build has only the X11 backend. Rebuild with the `evdev` feature to run outside X.",
            );
            code = exit::FAILURE;
        } else {
            push_text(&mut lines, "");
            push_text(&mut lines, "Ready.");
            code = exit::OK;
        }
    } else if facts.on_x11 {
        push_text(&mut lines, "");
        push_text(
            &mut lines,
            "None of that is needed here: this is an X11 session, so clicks go through XTEST and hotkeys through key grabs, and neither opens a device. The checks above matter only if you later run without X.",
        );
        code = exit::OK;
    } else {
        push_text(&mut lines, "");
        push_text(
            &mut lines,
            "Until that is fixed, `sequencer detect-key` still works: it reads the terminal, not the devices.",
        );
        code = exit::FAILURE;
    }
    assert(texts(lines@) =~= first + verdict(*facts).0);
    DoctorReport { lines, code }
}

/// On an X11 session the doctor never fails a machine with a backend: what the device backend
/// lacks is not needed there.
pub proof fn law_an_x11_session_is_always_ready(facts: Facts)
    requires
        facts.available,
        facts.on_x11,
    ensures
        verdict(facts).1 == exit::OK,
{
}

/// A class is stuck exactly where it is active and no key of its own is down.
pub proof fn law_a_class_is_stuck_without_a_key_of_its_own(state: Mods, down: Seq<Key>)
    ensures
        stuck_mods(state, down).shift <==> state.shift && !down.contains(Key::LeftShift)
            && !down.contains(Key::RightShift),
        stuck_mods(state, down).ctrl <==> state.ctrl && !down.contains(Key::LeftCtrl)
            && !down.contains(Key::RightCtrl),
        stuck_mods(state, down).alt <==> state.alt && !down.contains(Key::LeftAlt),
        stuck_mods(state, down).ralt <==> state.ralt && !down.contains(Key::RightAlt),
        stuck_mods(state, down).meta <==> state.meta && !down.contains(Key::LeftMeta)
            && !down.contains(Key::RightMeta),
{
}

/// The keys that clear a stuck class are those of the class, and no others.
pub proof fn law_a_class_is_cleared_by_its_own_keys()
    ensures
        watched((Mods { shift: true, ..no_mods() })) == seq![Key::LeftShift, Key::RightShift],
        watched((Mods { ctrl: true, ..no_mods() })) == seq![Key::LeftCtrl, Key::RightCtrl],
        watched((Mods { alt: true, ..no_mods() })) == seq![Key::LeftAlt],
        watched((Mods { ralt: true, ..no_mods() })) == seq![Key::RightAlt],
        watched((Mods { meta: true, ..no_mods() })) == seq![Key::LeftMeta, Key::RightMeta],
        watched(no_mods()).len() == 0,
{
}

/// The classes of a set, one by one, are as many as the set has, each of them alone, and in it.
pub proof fn law_a_set_is_listed_class_by_class(mods: Mods)
    ensures
        single_classes(mods).len() == (if mods.shift {
            1int
        } else {
            0
        }) + (if mods.ctrl {
            1int
        } else {
            0
        }) + (if mods.alt {
            1int
        } else {
            0
        }) + (if mods.ralt {
            1int
        } else {
            0
        }) + (if mods.meta {
            1int
        } else {
            0
        }),
        single_classes((Mods { shift: true, ..no_mods() })) == seq![
            (Mods { shift: true, ..no_mods() }),
        ],
        single_classes((Mods { ctrl: true, ..no_mods() })) == seq![
            (Mods { ctrl: true, ..no_mods() }),
        ],
        single_classes((Mods { alt: true, ..no_mods() })) == seq![(Mods { alt: true, ..no_mods() })],
        single_classes((Mods { ralt: true, ..no_mods() })) == seq![
            (Mods { ralt: true, ..no_mods() }),
        ],
        single_classes((Mods { meta: true, ..no_mods() })) == seq![
            (Mods { meta: true, ..no_mods() }),
        ],
        forall|i: int|
            0 <= i < single_classes(mods).len() ==> mods.covering(
                #[trigger] single_classes(mods)[i],
            ),
{
}

/// A machine is ready, and the report exits with zero, exactly where this build has a backend and
/// X11 handles the run, or the devices have requirements and none of them fails. Otherwise it
/// exits with one.
pub proof fn law_a_machine_is_ready_where_a_backend_works(facts: Facts)
    ensures
        verdict(facts).1 == 0 <==> facts.available && (facts.on_x11 || (facts.checks@.len() > 0
            && forall|i: int|
            0 <= i < facts.checks@.len() ==> !((#[trigger] facts.checks@[i]).result is Fail))),
        verdict(facts).1 == 0 || verdict(facts).1 == 1,
{
    let checks = facts.checks@;
    if none_unmet(checks) {
        assert forall|i: int| 0 <= i < checks.len() implies !((#[trigger] checks[i]).result is Fail) by {
            assert(!is_unmet(checks[i]));
        }
    } else {
        let i = choose|i: int| 0 <= i < checks.len() && is_unmet(#[trigger] checks[i]);
        assert(checks[i].result is Fail);
    }
}

/// The report says of each requirement how it stands, in order and marked by how it turned out; a
/// fix is printed for one that fails and for no other.
pub proof fn law_a_fix_is_printed_for_what_fails(checks: Seq<Check>, check: Check)
    ensures
        check_lines(checks).len() == checks.len(),
        check.result is Pass ==> check_line(check) == "[ok]   "@ + check.label@,
        check.result matches CheckResult::Unknown(why) ==> check_line(check) == "[??]   "@
            + check.label@ + ": "@ + why@,
        check.result matches CheckResult::Fail(why) ==> check_line(check) == "[fail] "@
            + check.label@ + ": "@ + why@,
        fixes_lines(checks.push(check), checks.len() as int + 1) == fixes_lines(
            checks,
            checks.len() as int,
        ) + (if check.result is Fail {
            fix_lines(check.fix)
        } else {
            Seq::<Seq<char>>::empty()
        }),
{
    let more = checks.push(check);
    lemma_fixes_prefix(checks, check, checks.len() as int);
    assert(more[checks.len() as int] == check);
    let before = fixes_lines(checks, checks.len() as int);
    assert(before + Seq::<Seq<char>>::empty() =~= before);
}

proof fn lemma_fixes_prefix(checks: Seq<Check>, check: Check, n: int)
    requires
        n <= checks.len(),
    ensures
        fixes_lines(checks.push(check), n) == fixes_lines(checks, n),
    decreases n,
{
    if n > 0 {
        lemma_fixes_prefix(checks, check, n - 1);
        assert(checks.push(check)[n - 1] == checks[n - 1]);
    }
}

/// The keys that hold a class of a set are just the modifier keys whose class is in it.
pub proof fn law_a_set_is_held_by_the_keys_of_its_classes(mods: Mods, key: Key)
    ensures
        holders(mods).contains(key) <==> decorates(key) && mods.covering(class_of(key)),
{
    let all = holders(mods);
    if all.contains(key) {
        let i = choose|i: int| 0 <= i < all.len() && all[i] == key;
        assert(all[i] == key);
    }
    let shift: int = if mods.shift {
        2
    } else {
        0
    };
    let ctrl: int = if mods.ctrl {
        2
    } else {
        0
    };
    let alt: int = if mods.alt {
        1
    } else {
        0
    };
    let ralt: int = if mods.ralt {
        1
    } else {
        0
    };
    if mods.shift {
        assert(all[0] == Key::LeftShift && all[1] == Key::RightShift);
    }
    if mods.ctrl {
        assert(all[shift] == Key::LeftCtrl && all[shift + 1] == Key::RightCtrl);
    }
    if mods.alt {
        assert(all[shift + ctrl] == Key::LeftAlt);
    }
    if mods.ralt {
        assert(all[shift + ctrl + alt] == Key::RightAlt);
    }
    if mods.meta {
        assert(all[shift + ctrl + alt + ralt] == Key::LeftMeta);
        assert(all[shift + ctrl + alt + ralt + 1] == Key::RightMeta);
    }
}

/// What is said of the keyboard: which classes are active, which keys are down, and which locks are
/// on.
pub proof fn law_the_keyboard_is_described_as_it_is(
    lexicon: &Lexicon,
    state: Mods,
    down: Seq<Key>,
)
    ensures
        keyboard_facts(lexicon, no_mods(), Seq::empty(), false, false) == "no modifier active"@
            + ", "@ + "no key down"@,
        state != no_mods() ==> keyboard_facts(lexicon, state, Seq::empty(), false, false)
            == "active: "@ + lexicon.mods_name(state) + ", "@ + "no key down"@,
        down.len() > 0 ==> keyboard_facts(lexicon, no_mods(), down, false, false)
            == "no modifier active"@ + ", "@ + ("down: "@ + joined(
            key_names(lexicon, down),
            ", "@,
        )),
        keyboard_facts(lexicon, state, down, true, false) == keyboard_facts(
            lexicon,
            state,
            down,
            false,
            false,
        ) + " (caps lock ON)"@,
        keyboard_facts(lexicon, state, down, false, true) == keyboard_facts(
            lexicon,
            state,
            down,
            false,
            false,
        ) + " (num lock ON)"@,
        keyboard_facts(lexicon, state, down, true, true) == keyboard_facts(
            lexicon,
            state,
            down,
            false,
            false,
        ) + " (caps lock and num lock ON)"@,
{
    let none: Seq<char> = Seq::empty();
    let plain = keyboard_facts(lexicon, state, down, false, false);
    assert(plain + none =~= plain);
    assert(keyboard_facts(lexicon, state, down, true, false) =~= plain + " (caps lock ON)"@);
    assert(keyboard_facts(lexicon, state, down, false, true) =~= plain + " (num lock ON)"@);
    assert(keyboard_facts(lexicon, state, down, true, true) =~= plain
        + " (caps lock and num lock ON)"@);
    assert(keyboard_facts(lexicon, no_mods(), Seq::empty(), false, false)
        =~= "no modifier active"@ + ", "@ + "no key down"@);
    if state != no_mods() {
        assert(keyboard_facts(lexicon, state, Seq::empty(), false, false) =~= "active: "@
            + lexicon.mods_name(state) + ", "@ + "no key down"@);
    }
    if down.len() > 0 {
        assert(keyboard_facts(lexicon, no_mods(), down, false, false) =~= "no modifier active"@
            + ", "@ + ("down: "@ + joined(key_names(lexicon, down), ", "@)));
    }
}

/// A keyboard on which nothing is stuck is reported in a line, and a hint where a key is down; one
/// with a stuck class has a line for each way to clear it.
pub proof fn law_a_stuck_class_is_reported_with_its_cure(
    lexicon: &Lexicon,
    state: Mods,
    down: Seq<Key>,
    caps: bool,
    num: bool,
)
    ensures
        stuck_mods(state, down) == no_mods() ==> keyboard_lines(
            lexicon,
            state,
            down,
            caps,
            num,
        ).len() == (if down.len() == 0 {
            1int
        } else {
            2
        }),
        stuck_mods(state, down) != no_mods() ==> keyboard_lines(
            lexicon,
            state,
            down,
            caps,
            num,
        ).len() == 3 + single_classes(stuck_mods(state, down)).len(),
        answer_lines(lexicon, KeyboardAnswer::NoServer).len() == 0,
        answer_lines(lexicon, KeyboardAnswer::Silent).len() == 1,
{
    law_a_set_is_listed_class_by_class(stuck_mods(state, down));
}

/// The report names the backend that a run would use, and shows the environment only where it is
/// asked to: a variable that is not set has no line.
pub proof fn law_the_report_names_the_backend_in_use(
    lexicon: &Lexicon,
    facts: Facts,
    label: Seq<char>,
    value: String,
)
    ensures
        facts.on_x11 ==> head_lines(lexicon, facts)[2] == "backend: "@
            + "X11 — XTEST for clicks, key grabs for hotkeys (no device access, no sudo)"@,
        !facts.on_x11 ==> head_lines(lexicon, facts)[2] == "backend: "@
            + "uinput device for clicks, evdev for hotkeys"@,
        head_lines(lexicon, facts)[1] == "session: "@ + facts.session@,
        variable_line(label, None).len() == 0,
        variable_line(label, Some(value)) == seq!["  "@ + label + "="@ + value@],
        !facts.verbose ==> head_lines(lexicon, facts).len() == 4 + answer_lines(
            lexicon,
            facts.keyboard,
        ).len(),
{
}

/// A stuck class with a key on either side is cleared by tapping both, and one with a single key by
/// tapping that.
pub proof fn law_a_stuck_class_says_what_to_tap(lexicon: &Lexicon)
    ensures
        clearing_text(lexicon, (Mods { shift: true, ..no_mods() })) == "tap the left and the right "@
            + lexicon.mods_name((Mods { shift: true, ..no_mods() }))
            + " once each — only the stuck side clears it"@,
        clearing_text(lexicon, (Mods { ralt: true, ..no_mods() })) == "tap "@ + lexicon.name(
            crate::input::Holdable::Key(Key::RightAlt),
        ) + " once"@,
        clearing_text(lexicon, (Mods { alt: true, ..no_mods() })) == "tap "@ + lexicon.name(
            crate::input::Holdable::Key(Key::LeftAlt),
        ) + " once"@,
{
    let right = key_names(lexicon, seq![Key::RightAlt]);
    assert(right =~= seq![lexicon.name(crate::input::Holdable::Key(Key::RightAlt))]);
    let left = key_names(lexicon, seq![Key::LeftAlt]);
    assert(left =~= seq![lexicon.name(crate::input::Holdable::Key(Key::LeftAlt))]);
}

/// A step of a fix is a command to run, a file to write with its lines set in, or something to do by
/// hand.
pub proof fn law_each_step_of_a_fix_has_its_form(command: String, path: String, body: String)
    ensures
        step_lines(FixStep::Shell(command)) == seq!["      $ "@ + command@],
        step_lines(FixStep::Manual(command)) == seq!["      "@ + command@],
        step_lines((FixStep::WriteFile { path, body })).len() == 1 + lines(body@).len(),
        step_lines((FixStep::WriteFile { path, body }))[0] == "      write "@ + path@ + ":"@,
        forall|i: int|
            0 <= i < lines(body@).len() ==> #[trigger] step_lines(
                (FixStep::WriteFile { path, body }),
            )[i + 1] == "          "@ + lines(body@)[i],
{
}

} // verus!
