//! Printing presses until Ctrl+C.
//!
//! The quit chord is recognised from the devices themselves, and only while the window that the
//! run started in has the focus. The terminal is drained and asked for Ctrl+C too, by the clock and
//! never by the event stream going quiet.
use vstd::prelude::*;

use crate::input::{EventKind, Holdable, Key};
use crate::names::Lexicon;
use crate::profile::slots::text_of_option;
use crate::runtime::Wake;
use crate::text::same;

verus! {

/// How many nanoseconds pass between two looks at the terminal.
pub const QUIT_POLL_NANOS: u64 = 50_000_000;

/// After how many looks at the terminal the focus is read again.
pub const FOCUS_EVERY: u32 = 4;

/// Whether the focus is where the run began. Unknown counts as yes, in both directions: a quit
/// that cannot be reached is the worse fault.
pub open spec fn is_home(home: Option<u32>, now: Option<u32>) -> bool {
    match (home, now) {
        (Some(home), Some(now)) => home == now,
        _ => true,
    }
}

/// Whether the focus is where the run began, given the window it began in and the one that has
/// the focus now.
pub fn still_home(home: Option<u32>, now: Option<u32>) -> (r: bool)
    ensures
        r == is_home(home, now),
{
    match (home, now) {
        (Some(home), Some(now)) => home == now,
        _ => true,
    }
}

/// The name of a press; nothing for what is no press.
pub open spec fn press_name(lexicon: &Lexicon, kind: EventKind) -> Option<Seq<char>> {
    match kind {
        EventKind::KeyDown(key) => Some(lexicon.name(Holdable::Key(key))),
        EventKind::ButtonDown(button) => Some(lexicon.name(Holdable::Button(button))),
        EventKind::Scroll { dx, dy } => {
            if dy > 0 {
                Some("wheel-up"@)
            } else if dy < 0 {
                Some("wheel-down"@)
            } else if dx > 0 {
                Some("wheel-right"@)
            } else if dx < 0 {
                Some("wheel-left"@)
            } else {
                None
            }
        },
        _ => None,
    }
}

/// The bindable name of a press, or nothing for what is no press.
pub fn pressed_name(lexicon: &Lexicon, kind: EventKind) -> (r: Option<String>)
    ensures
        text_of_option(r) == press_name(lexicon, kind),
{
    match kind {
        EventKind::KeyDown(key) => Some(lexicon.name_of(Holdable::Key(key))),
        EventKind::ButtonDown(button) => Some(lexicon.name_of(Holdable::Button(button))),
        EventKind::Scroll { dx, dy } => {
            if dy > 0 {
                Some("wheel-up".to_owned())
            } else if dy < 0 {
                Some("wheel-down".to_owned())
            } else if dx > 0 {
                Some("wheel-right".to_owned())
            } else if dx < 0 {
                Some("wheel-left".to_owned())
            } else {
                None
            }
        },
        _ => None,
    }
}

// ----------------------------------------------------------------------------------- the loop

/// What the loop asks for.
#[derive(Debug)]
pub enum DetectRequest {
    /// Read the clock.
    Clock,
    /// Drain the terminal, and say whether Ctrl+C was in it.
    Quit,
    /// Read the name of the program that has the focus.
    Focus,
    /// Print a line.
    Print(String),
    /// Wait for an event, until this time.
    Wait(u64),
    /// Read which window has the focus.
    Window,
    /// Nothing: the run is over.
    Over,
}

/// What the loop is told.
#[derive(Debug)]
pub enum DetectReply {
    Time(u64),
    Quit(bool),
    Focus(Option<String>),
    Done,
    Woke(Wake),
    Window(Option<u32>),
}

/// What the loop asks for, as a mathematical value.
pub enum Asked {
    Clock,
    Quit,
    Focus,
    Print(Seq<char>),
    Wait(u64),
    Window,
    Over,
}

/// What the loop is told, as a mathematical value.
pub enum Told {
    Time(u64),
    Quit(bool),
    Focus(Option<Seq<char>>),
    Done,
    Woke(Wake),
    Window(Option<u32>),
}

impl View for DetectRequest {
    type V = Asked;

    open spec fn view(&self) -> Asked {
        match self {
            DetectRequest::Clock => Asked::Clock,
            DetectRequest::Quit => Asked::Quit,
            DetectRequest::Focus => Asked::Focus,
            DetectRequest::Print(line) => Asked::Print(line@),
            DetectRequest::Wait(until) => Asked::Wait(*until),
            DetectRequest::Window => Asked::Window,
            DetectRequest::Over => Asked::Over,
        }
    }
}

impl View for DetectReply {
    type V = Told;

    open spec fn view(&self) -> Told {
        match self {
            DetectReply::Time(now) => Told::Time(*now),
            DetectReply::Quit(quit) => Told::Quit(*quit),
            DetectReply::Focus(class) => Told::Focus(text_of_option(*class)),
            DetectReply::Done => Told::Done,
            DetectReply::Woke(wake) => Told::Woke(*wake),
            DetectReply::Window(window) => Told::Window(*window),
        }
    }
}

/// Where the loop stands.
#[derive(Debug, Clone, Copy, PartialEq, Eq, Structural)]
pub enum DetectStage {
    /// The focus is reported before anything else.
    Opening,
    OpeningLine,
    Starting,
    Looking,
    AskingQuit,
    AskingFocus,
    FocusLine,
    Rescheduling,
    Waiting,
    PressLine(EventKind),
    AskingWindow,
    Over,
}

/// A run that names presses.
pub struct DetectRun {
    /// The window that the run began in.
    home: Option<u32>,
    /// The program that was last reported to have the focus.
    last: Option<String>,
    checks: u32,
    next_check: u64,
    ctrl_down: bool,
    stage: DetectStage,
}

/// A run that names presses, as a mathematical value.
#[verifier::ext_equal]
pub struct DetectState {
    pub home: Option<u32>,
    pub last: Option<Seq<char>>,
    pub checks: u32,
    pub next_check: u64,
    pub ctrl_down: bool,
    pub stage: DetectStage,
}

impl View for DetectRun {
    type V = DetectState;

    closed spec fn view(&self) -> DetectState {
        DetectState {
            home: self.home,
            last: text_of_option(self.last),
            checks: self.checks,
            next_check: self.next_check,
            ctrl_down: self.ctrl_down,
            stage: self.stage,
        }
    }
}

/// Whether a key is one of the two that Ctrl is held with.
pub open spec fn is_ctrl(key: Key) -> bool {
    key is LeftCtrl || key is RightCtrl
}

/// Whether Ctrl is held after an event.
pub open spec fn ctrl_after(before: bool, kind: EventKind) -> bool {
    match kind {
        EventKind::KeyDown(key) => before || is_ctrl(key),
        EventKind::KeyUp(key) => before && !is_ctrl(key),
        _ => before,
    }
}

/// The time of the next look at the terminal.
pub open spec fn look_after(now: u64) -> u64 {
    if now + QUIT_POLL_NANOS <= u64::MAX {
        (now + QUIT_POLL_NANOS) as u64
    } else {
        u64::MAX
    }
}

/// The number of looks after one more.
pub open spec fn one_more(checks: u32) -> u32 {
    if checks == u32::MAX {
        0
    } else {
        (checks + 1) as u32
    }
}

impl DetectState {
    /// The run at another stage.
    pub open spec fn at(self, stage: DetectStage) -> DetectState {
        DetectState { stage, ..self }
    }

    /// What the loop asks for.
    pub open spec fn asking(self, lexicon: &Lexicon) -> Asked {
        match self.stage {
            DetectStage::Opening | DetectStage::AskingFocus => Asked::Focus,
            DetectStage::OpeningLine | DetectStage::FocusLine => Asked::Print(
                "focus: "@ + (match self.last {
                    Some(class) => class,
                    None => Seq::empty(),
                }),
            ),
            DetectStage::Starting | DetectStage::Looking | DetectStage::Rescheduling =>
                Asked::Clock,
            DetectStage::AskingQuit => Asked::Quit,
            DetectStage::Waiting => Asked::Wait(self.next_check),
            DetectStage::PressLine(kind) => Asked::Print(
                match press_name(lexicon, kind) {
                    Some(name) => name,
                    None => Seq::empty(),
                },
            ),
            DetectStage::AskingWindow => Asked::Window,
            DetectStage::Over => Asked::Over,
        }
    }

    /// The run after the focus was read: a program that was not reported last is reported, and a
    /// focus that cannot be read changes nothing.
    pub open spec fn focused(
        self,
        class: Option<Seq<char>>,
        line: DetectStage,
        silence: DetectStage,
    ) -> DetectState {
        if class is Some && self.last != class {
            DetectState { last: class, stage: line, ..self }
        } else {
            self.at(silence)
        }
    }

    /// The run after a press was printed: the quit chord asks where the focus is.
    pub open spec fn after_press(self, kind: EventKind) -> DetectState {
        if self.ctrl_down && kind == EventKind::KeyDown(Key::C) {
            self.at(DetectStage::AskingWindow)
        } else {
            self.at(DetectStage::Looking)
        }
    }

    /// The run after an event.
    pub open spec fn heard(self, lexicon: &Lexicon, kind: EventKind) -> DetectState {
        let held = DetectState { ctrl_down: ctrl_after(self.ctrl_down, kind), ..self };
        if press_name(lexicon, kind) is Some {
            held.at(DetectStage::PressLine(kind))
        } else {
            held.after_press(kind)
        }
    }

    /// The run after a reply. A reply that does not answer what was asked changes nothing.
    pub open spec fn next(self, lexicon: &Lexicon, told: Told) -> DetectState {
        match (self.stage, told) {
            (DetectStage::Opening, Told::Focus(class)) => self.focused(
                class,
                DetectStage::OpeningLine,
                DetectStage::Starting,
            ),
            (DetectStage::OpeningLine, Told::Done) => self.at(DetectStage::Starting),
            (DetectStage::Starting, Told::Time(now)) => DetectState {
                next_check: now,
                stage: DetectStage::Looking,
                ..self
            },
            (DetectStage::Looking, Told::Time(now)) => self.at(
                if now >= self.next_check {
                    DetectStage::AskingQuit
                } else {
                    DetectStage::Waiting
                },
            ),
            (DetectStage::AskingQuit, Told::Quit(quit)) => {
                if quit {
                    self.at(DetectStage::Over)
                } else {
                    DetectState {
                        checks: one_more(self.checks),
                        stage: if one_more(self.checks) % FOCUS_EVERY == 0 {
                            DetectStage::AskingFocus
                        } else {
                            DetectStage::Rescheduling
                        },
                        ..self
                    }
                }
            },
            (DetectStage::AskingFocus, Told::Focus(class)) => self.focused(
                class,
                DetectStage::FocusLine,
                DetectStage::Rescheduling,
            ),
            (DetectStage::FocusLine, Told::Done) => self.at(DetectStage::Rescheduling),
            (DetectStage::Rescheduling, Told::Time(now)) => DetectState {
                next_check: look_after(now),
                stage: DetectStage::Waiting,
                ..self
            },
            (DetectStage::Waiting, Told::Woke(Wake::Event(event))) => self.heard(
                lexicon,
                event.kind,
            ),
            (DetectStage::Waiting, Told::Woke(Wake::Deadline)) => self.at(DetectStage::Looking),
            (DetectStage::Waiting, Told::Woke(Wake::Interrupted)) => self.at(DetectStage::Over),
            (DetectStage::PressLine(kind), Told::Done) => self.after_press(kind),
            (DetectStage::AskingWindow, Told::Window(now)) => self.at(
                if is_home(self.home, now) {
                    DetectStage::Over
                } else {
                    DetectStage::Looking
                },
            ),
            _ => self,
        }
    }
}

/// A run that has not begun.
pub open spec fn fresh(home: Option<u32>, watching: bool) -> DetectState {
    DetectState {
        home,
        last: None,
        checks: 0,
        next_check: 0,
        ctrl_down: false,
        stage: if watching {
            DetectStage::Opening
        } else {
            DetectStage::Starting
        },
    }
}

impl DetectRun {
    /// A run that began in a window, where it is known; with a session to watch, the focus is
    /// reported first.
    pub fn new(home: Option<u32>, watching: bool) -> (run: DetectRun)
        ensures
            run@ == fresh(home, watching),
    {
        DetectRun {
            home,
            last: None,
            checks: 0,
            next_check: 0,
            ctrl_down: false,
            stage: if watching {
                DetectStage::Opening
            } else {
                DetectStage::Starting
            },
        }
    }

    /// What the loop asks for.
    pub fn request(&self, lexicon: &Lexicon) -> (request: DetectRequest)
        ensures
            request@ == self@.asking(lexicon),
    {
        match self.stage {
            DetectStage::Opening | DetectStage::AskingFocus => DetectRequest::Focus,
            DetectStage::OpeningLine | DetectStage::FocusLine => {
                let mut line: String = "focus: ".to_owned();
                let ghost head = line@;
                match &self.last {
                    Some(class) => {
                        line.append(class.as_str());
                    },
                    None => {
                        assert(head + Seq::<char>::empty() =~= head);
                    },
                }
                DetectRequest::Print(line)
            },
            DetectStage::Starting | DetectStage::Looking | DetectStage::Rescheduling =>
                DetectRequest::Clock,
            DetectStage::AskingQuit => DetectRequest::Quit,
            DetectStage::Waiting => DetectRequest::Wait(self.next_check),
            DetectStage::PressLine(kind) => match pressed_name(lexicon, kind) {
                Some(name) => DetectRequest::Print(name),
                None => {
                    let none: String = String::new();
                    assert(none@ =~= Seq::empty());
                    DetectRequest::Print(none)
                },
            },
            DetectStage::AskingWindow => DetectRequest::Window,
            DetectStage::Over => DetectRequest::Over,
        }
    }

    fn see_focus(&mut self, class: Option<String>, line: DetectStage, silence: DetectStage)
        ensures
            final(self)@ == old(self)@.focused(text_of_option(class), line, silence),
    {
        let news = match (&class, &self.last) {
            (None, _) => false,
            (Some(_), None) => true,
            (Some(class), Some(last)) => !same(class.as_str(), last.as_str()),
        };
        if news {
            self.last = class;
            self.stage = line;
        } else {
            self.stage = silence;
        }
    }

    fn press(&mut self, kind: EventKind)
        ensures
            final(self)@ == old(self)@.after_press(kind),
    {
        let chord = match kind {
            EventKind::KeyDown(key) => self.ctrl_down && key == Key::C,
            _ => false,
        };
        self.stage = if chord {
            DetectStage::AskingWindow
        } else {
            DetectStage::Looking
        };
    }

    fn hear(&mut self, lexicon: &Lexicon, kind: EventKind)
        ensures
            final(self)@ == old(self)@.heard(lexicon, kind),
    {
        match kind {
            EventKind::KeyDown(Key::LeftCtrl) | EventKind::KeyDown(Key::RightCtrl) => {
                self.ctrl_down = true;
            },
            EventKind::KeyUp(Key::LeftCtrl) | EventKind::KeyUp(Key::RightCtrl) => {
                self.ctrl_down = false;
            },
            _ => {},
        }
        if pressed_name(lexicon, kind).is_some() {
            self.stage = DetectStage::PressLine(kind);
        } else {
            self.press(kind);
        }
    }

    /// Takes a reply. One that does not answer what was asked changes nothing.
    pub fn advance(&mut self, lexicon: &Lexicon, reply: DetectReply)
        ensures
            final(self)@ == old(self)@.next(lexicon, reply@),
    {
        match (self.stage, reply) {
            (DetectStage::Opening, DetectReply::Focus(class)) => {
                self.see_focus(class, DetectStage::OpeningLine, DetectStage::Starting);
            },
            (DetectStage::OpeningLine, DetectReply::Done) => {
                self.stage = DetectStage::Starting;
            },
            (DetectStage::Starting, DetectReply::Time(now)) => {
                self.next_check = now;
                self.stage = DetectStage::Looking;
            },
            (DetectStage::Looking, DetectReply::Time(now)) => {
                self.stage = if now >= self.next_check {
                    DetectStage::AskingQuit
                } else {
                    DetectStage::Waiting
                };
            },
            (DetectStage::AskingQuit, DetectReply::Quit(quit)) => {
                if quit {
                    self.stage = DetectStage::Over;
                } else {
                    self.checks = if self.checks == u32::MAX {
                        0
                    } else {
                        self.checks + 1
                    };
                    self.stage = if self.checks % FOCUS_EVERY == 0 {
                        DetectStage::AskingFocus
                    } else {
                        DetectStage::Rescheduling
                    };
                }
            },
            (DetectStage::AskingFocus, DetectReply::Focus(class)) => {
                self.see_focus(class, DetectStage::FocusLine, DetectStage::Rescheduling);
            },
            (DetectStage::FocusLine, DetectReply::Done) => {
                self.stage = DetectStage::Rescheduling;
            },
            (DetectStage::Rescheduling, DetectReply::Time(now)) => {
                self.next_check = now.saturating_add(QUIT_POLL_NANOS);
                self.stage = DetectStage::Waiting;
            },
            (DetectStage::Waiting, DetectReply::Woke(wake)) => {
                match wake {
                    Wake::Event(event) => {
                        self.hear(lexicon, event.kind);
                    },
                    Wake::Deadline => {
                        self.stage = DetectStage::Looking;
                    },
                    Wake::Interrupted => {
                        self.stage = DetectStage::Over;
                    },
                }
            },
            (DetectStage::PressLine(kind), DetectReply::Done) => {
                self.press(kind);
            },
            (DetectStage::AskingWindow, DetectReply::Window(now)) => {
                self.stage = if still_home(self.home, now) {
                    DetectStage::Over
                } else {
                    DetectStage::Looking
                };
            },
            _ => {},
        }
    }
}

// ----------------------------------------------------------------------------------- the laws

/// No stream of events, however busy, puts off a look at the terminal that is due: a wait begins
/// only after the clock was read, and a look that is due by then comes first.
pub proof fn law_a_busy_device_cannot_starve_the_quit_check(
    lexicon: &Lexicon,
    state: DetectState,
    told: Told,
)
    ensures
        ({
            let after = state.next(lexicon, told);
            &&& after.stage is Waiting && !(state.stage is Waiting) ==> (state.stage is Looking
                || state.stage is Rescheduling) && (told matches Told::Time(now) && now
                < after.next_check || told == Told::Time(u64::MAX))
            &&& state.stage is Looking ==> (told matches Told::Time(now) ==> now
                >= state.next_check ==> after.stage is AskingQuit)
            &&& state.stage is Waiting ==> (told matches Told::Woke(wake) ==> !(after.stage is Waiting))
        }),
{
}

/// A run that is not over ends in one of three ways: the terminal asked for it, the devices
/// closed, or the quit chord was pressed with Ctrl held where the run began.
pub proof fn law_only_three_things_end_a_run(lexicon: &Lexicon, state: DetectState, told: Told)
    requires
        !(state.stage is Over),
        state.next(lexicon, told).stage is Over,
    ensures
        (state.stage is AskingQuit && told == Told::Quit(true)) || (state.stage is Waiting && told
            == Told::Woke(Wake::Interrupted)) || (state.stage is AskingWindow && (
        told matches Told::Window(now) && is_home(state.home, now))),
{
}

/// The focus is asked for only where Ctrl is held and C was pressed: either key alone is only a
/// key.
pub proof fn law_the_quit_chord_needs_ctrl(lexicon: &Lexicon, state: DetectState, told: Told)
    requires
        !(state.stage is AskingWindow),
        state.next(lexicon, told).stage is AskingWindow,
    ensures
        state.next(lexicon, told).ctrl_down,
        state.stage == DetectStage::PressLine(EventKind::KeyDown(Key::C)) || (
        told matches Told::Woke(Wake::Event(event)) && event.kind == EventKind::KeyDown(Key::C)),
{
}

/// What a press is called: a key and a button by their names, a turn of the wheel by where it goes,
/// up and down before right and left. A release, a move and a turn that goes nowhere have no name.
pub proof fn law_each_press_has_its_name(
    lexicon: &Lexicon,
    key: Key,
    button: crate::input::Button,
    dx: i32,
    dy: i32,
)
    ensures
        press_name(lexicon, EventKind::KeyDown(key)) == Some(lexicon.name(Holdable::Key(key))),
        press_name(lexicon, EventKind::ButtonDown(button)) == Some(
            lexicon.name(Holdable::Button(button)),
        ),
        dy > 0 ==> press_name(lexicon, (EventKind::Scroll { dx, dy })) == Some("wheel-up"@),
        dy < 0 ==> press_name(lexicon, (EventKind::Scroll { dx, dy })) == Some("wheel-down"@),
        dx > 0 ==> press_name(lexicon, (EventKind::Scroll { dx, dy: 0 })) == Some("wheel-right"@),
        dx < 0 ==> press_name(lexicon, (EventKind::Scroll { dx, dy: 0 })) == Some("wheel-left"@),
        press_name(lexicon, (EventKind::Scroll { dx: 0, dy: 0 })) is None,
        press_name(lexicon, EventKind::KeyUp(key)) is None,
        press_name(lexicon, EventKind::ButtonUp(button)) is None,
        press_name(lexicon, (EventKind::Motion { dx, dy })) is None,
{
}

/// Ctrl is down from the press of either of its keys to the release of either, and nothing else
/// changes that.
pub proof fn law_ctrl_follows_its_two_keys(before: bool, key: Key, kind: EventKind)
    ensures
        ctrl_after(before, EventKind::KeyDown(Key::LeftCtrl)),
        ctrl_after(before, EventKind::KeyDown(Key::RightCtrl)),
        !ctrl_after(before, EventKind::KeyUp(Key::LeftCtrl)),
        !ctrl_after(before, EventKind::KeyUp(Key::RightCtrl)),
        key != Key::LeftCtrl && key != Key::RightCtrl ==> ctrl_after(
            before,
            EventKind::KeyDown(key),
        ) == before && ctrl_after(before, EventKind::KeyUp(key)) == before,
        !(kind is KeyDown || kind is KeyUp) ==> ctrl_after(before, kind) == before,
{
}

/// The quit chord counts in the window that the run began in, and where either window is unknown.
pub proof fn law_the_quit_chord_counts_at_home(home: u32, now: u32, unknown: Option<u32>)
    ensures
        is_home(Some(home), Some(now)) <==> home == now,
        is_home(None, unknown),
        is_home(unknown, None),
{
}

/// Every press that has a name is printed by that name before anything else happens.
pub proof fn law_every_press_is_printed(
    lexicon: &Lexicon,
    s: DetectState,
    event: crate::input::InputEvent,
    name: Seq<char>,
)
    requires
        s.stage is Waiting,
        press_name(lexicon, event.kind) == Some(name),
    ensures
        s.next(lexicon, Told::Woke(Wake::Event(event))).asking(lexicon) == Asked::Print(name),
        press_name(lexicon, event.kind) == Some(name),
{
}

/// The focus is reported where it is known and has changed, by its new name, and otherwise not.
pub proof fn law_the_focus_is_reported_when_it_changes(
    lexicon: &Lexicon,
    s: DetectState,
    class: Seq<char>,
)
    requires
        s.stage is AskingFocus || s.stage is Opening,
    ensures
        s.last != Some(class) ==> s.next(lexicon, Told::Focus(Some(class))).asking(lexicon)
            == Asked::Print("focus: "@ + class) && s.next(lexicon, Told::Focus(Some(class))).last
            == Some(class),
        s.last == Some(class) ==> !(s.next(lexicon, Told::Focus(Some(class))).asking(
            lexicon,
        ) is Print),
        !(s.next(lexicon, Told::Focus(None)).asking(lexicon) is Print),
        s.next(lexicon, Told::Focus(None)).last == s.last,
{
}

/// The quit check comes round every fifty milliseconds, and with every fourth of them the focus is
/// asked about.
pub proof fn law_the_checks_come_round(lexicon: &Lexicon, s: DetectState, now: u64)
    requires
        now + 50_000_000 <= u64::MAX,
        s.checks < u32::MAX,
    ensures
        s.stage is Rescheduling ==> s.next(lexicon, Told::Time(now)).asking(lexicon) == Asked::Wait(
            (now + 50_000_000) as u64,
        ),
        s.stage is Looking && now >= s.next_check ==> s.next(lexicon, Told::Time(now)).asking(
            lexicon,
        ) is Quit,
        s.stage is Looking && now < s.next_check ==> s.next(lexicon, Told::Time(now)).asking(
            lexicon,
        ) == Asked::Wait(s.next_check),
        s.stage is AskingQuit ==> s.next(lexicon, Told::Quit(true)).asking(lexicon) is Over,
        s.stage is AskingQuit ==> (s.next(lexicon, Told::Quit(false)).asking(lexicon) is Focus <==> (
        s.checks + 1) % 4 == 0),
{
}

} // verus!
