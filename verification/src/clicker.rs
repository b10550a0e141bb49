//! The clicker command: hold or toggle a key to repeat a click or a key press.
use vstd::prelude::*;

use crate::args::{GlobalArgs, Real};
use crate::input::{Button, Key};
use crate::runtime::RunSummary;
use crate::style;
use crate::text::{decimal, decimal_of};

verus! {

/// Which mouse button to click.
#[derive(Debug, Clone, Copy, PartialEq, Eq, Structural)]
#[non_exhaustive]
pub enum MouseButton {
    /// Primary button.
    Left,
    /// Scroll-wheel button.
    Middle,
    /// Secondary button.
    Right,
    /// Thumb button, conventionally "back".
    Back,
    /// Thumb button, conventionally "forward".
    Forward,
}

impl Default for MouseButton {
    fn default() -> (r: Self)
        ensures
            r == MouseButton::Left,
    {
        MouseButton::Left
    }
}

impl MouseButton {
    /// The button of that name.
    pub open spec fn named(self) -> Button {
        match self {
            MouseButton::Left => Button::Left,
            MouseButton::Middle => Button::Middle,
            MouseButton::Right => Button::Right,
            MouseButton::Back => Button::Back,
            MouseButton::Forward => Button::Forward,
        }
    }
}

impl From<MouseButton> for Button {
    fn from(value: MouseButton) -> (r: Button) {
        match value {
            MouseButton::Left => Button::Left,
            MouseButton::Middle => Button::Middle,
            MouseButton::Right => Button::Right,
            MouseButton::Back => Button::Back,
            MouseButton::Forward => Button::Forward,
        }
    }
}

impl vstd::std_specs::convert::FromSpecImpl<MouseButton> for Button {
    open spec fn obeys_from_spec() -> bool {
        true
    }

    open spec fn from_spec(value: MouseButton) -> Button {
        value.named()
    }
}

/// What `clicker` accepts.
#[derive(Debug, Clone, Copy, PartialEq, Eq, Structural)]
pub struct ClickerArgs {
    /// Shared options.
    pub global: GlobalArgs,
    /// How many clicks or key presses per second.
    pub cps: Real,
    /// Tap the activation key to start and again to stop, instead of holding it.
    pub toggle: bool,
    /// Repeat this key instead of a mouse click.
    pub kb_key: Option<Key>,
    /// Which mouse button to click, when no key is given.
    pub m_key: MouseButton,
    /// The key that starts and stops the burst.
    pub activate: Key,
    /// The key that quits.
    pub quit: Key,
    /// Stop after this many repetitions; zero means unlimited.
    pub limit: u64,
    /// How long a key stays down, in milliseconds.
    pub key_hold_ms: u64,
    /// How long a mouse button stays down, in milliseconds.
    pub button_hold_ms: u64,
}

/// How the activation key works.
#[derive(Debug, Clone, Copy, PartialEq, Eq, Structural)]
pub enum ActivationMode {
    Hold,
    Toggle,
}

/// What is repeated.
#[derive(Debug, Clone, Copy, PartialEq, Eq, Structural)]
pub enum ClickAction {
    Button(Button),
    Key(Key),
}

/// The settings of a run, free of the command line.
#[derive(Debug, Clone, Copy, PartialEq, Eq, Structural)]
pub struct ClickConfig {
    pub cps: Real,
    pub mode: ActivationMode,
    pub action: ClickAction,
    pub activate: Key,
    pub quit: Key,
    pub limit: u64,
    /// In milliseconds.
    pub key_hold: u64,
    /// In milliseconds.
    pub button_hold: u64,
}

/// The bits of twenty.
pub const TWENTY: u64 = 0x4034_0000_0000_0000;

impl ClickerArgs {
    /// Every flag at its command-line default.
    pub open spec fn defaults() -> ClickerArgs {
        ClickerArgs {
            global: GlobalArgs { verbose: 0, quiet: false },
            cps: Real { bits: TWENTY },
            toggle: false,
            kb_key: None,
            m_key: MouseButton::Left,
            activate: Key::F9,
            quit: Key::F8,
            limit: 0,
            key_hold_ms: 1,
            button_hold_ms: 8,
        }
    }

    /// The settings that these arguments mean.
    pub open spec fn meant(self) -> ClickConfig {
        ClickConfig {
            cps: self.cps,
            mode: if self.toggle {
                ActivationMode::Toggle
            } else {
                ActivationMode::Hold
            },
            action: match self.kb_key {
                Some(key) => ClickAction::Key(key),
                None => ClickAction::Button(self.m_key.named()),
            },
            activate: self.activate,
            quit: self.quit,
            limit: self.limit,
            key_hold: self.key_hold_ms,
            button_hold: self.button_hold_ms,
        }
    }

    /// Every flag at its command-line default.
    pub fn new() -> (r: Self)
        ensures
            r == ClickerArgs::defaults(),
    {
        ClickerArgs {
            global: GlobalArgs::new(),
            cps: Real { bits: TWENTY },
            toggle: false,
            kb_key: None,
            m_key: MouseButton::Left,
            activate: Key::F9,
            quit: Key::F8,
            limit: 0,
            key_hold_ms: 1,
            button_hold_ms: 8,
        }
    }

    /// The settings that this invocation means.
    pub fn config(&self) -> (r: ClickConfig)
        ensures
            r == self.meant(),
    {
        ClickConfig {
            cps: self.cps,
            mode: if self.toggle {
                ActivationMode::Toggle
            } else {
                ActivationMode::Hold
            },
            action: match self.kb_key {
                Some(key) => ClickAction::Key(key),
                None => ClickAction::Button(Button::from(self.m_key)),
            },
            activate: self.activate,
            quit: self.quit,
            limit: self.limit,
            key_hold: self.key_hold_ms,
            button_hold: self.button_hold_ms,
        }
    }
}

impl Default for ClickerArgs {
    fn default() -> (r: Self)
        ensures
            r == ClickerArgs::defaults(),
    {
        ClickerArgs::new()
    }
}

impl From<ClickerArgs> for ClickConfig {
    fn from(args: ClickerArgs) -> (r: ClickConfig) {
        args.config()
    }
}

impl vstd::std_specs::convert::FromSpecImpl<ClickerArgs> for ClickConfig {
    open spec fn obeys_from_spec() -> bool {
        true
    }

    open spec fn from_spec(args: ClickerArgs) -> ClickConfig {
        args.meant()
    }
}

/// The words for the values of a configuration: what the keys, the buttons and the rate are
/// called.
pub struct ConfigWords {
    /// The button or key that is repeated.
    pub action: String,
    /// The rate, without its unit.
    pub rate: String,
    pub activate: String,
    pub quit: String,
}

/// The banner: what is repeated, how fast, how to start it, how to quit, and the limit if there is
/// one.
pub open spec fn banner(config: ClickConfig, words: ConfigWords, colour: bool) -> Seq<char> {
    let what = words.action@ + (if config.action is Button {
        " click "@
    } else {
        " key "@
    });
    let rate = style::painted(style::HIGHLIGHT@, words.rate@ + "/s"@, colour);
    let mode = style::painted(
        style::HIGHLIGHT@,
        if config.mode is Hold {
            "HOLD"@
        } else {
            "TOGGLE"@
        },
        colour,
    );
    let activate = style::painted(style::HIGHLIGHT@, words.activate@, colour);
    let quit = style::painted(style::HIGHLIGHT@, words.quit@, colour);
    let line = what + rate + " | "@ + mode + ": "@ + activate + " | Quit: "@ + quit;
    if config.limit > 0 {
        line + " | Limit: "@ + style::painted(style::HIGHLIGHT@, decimal(config.limit as nat), colour)
    } else {
        line
    }
}

/// The settings in the words that a user would use.
pub fn describe(config: &ClickConfig, words: &ConfigWords, colour: bool) -> (line: String)
    ensures
        line@ == banner(*config, *words, colour),
{
    let mut line: String = words.action.clone();
    match config.action {
        ClickAction::Button(_) => line.append(" click "),
        ClickAction::Key(_) => line.append(" key "),
    }
    let mut rate: String = words.rate.clone();
    rate.append("/s");
    line.append(style::key(rate.as_str(), colour).as_str());
    line.append(" | ");
    let mode = match config.mode {
        ActivationMode::Hold => style::key("HOLD", colour),
        ActivationMode::Toggle => style::key("TOGGLE", colour),
    };
    line.append(mode.as_str());
    line.append(": ");
    line.append(style::key(words.activate.as_str(), colour).as_str());
    line.append(" | Quit: ");
    line.append(style::key(words.quit.as_str(), colour).as_str());
    if config.limit > 0 {
        line.append(" | Limit: ");
        let limit = decimal_of(config.limit);
        line.append(style::key(limit.as_str(), colour).as_str());
    }
    line
}

/// The keys that a run listens for: those two and no more.
pub fn hotkeys(config: &ClickConfig) -> (r: Vec<Key>)
    ensures
        r@ == seq![config.activate, config.quit],
{
    let mut keys: Vec<Key> = Vec::new();
    keys.push(config.activate);
    keys.push(config.quit);
    assert(keys@ =~= seq![config.activate, config.quit]);
    keys
}

/// The words for the numbers of a report.
pub struct ReportWords {
    /// The rate that was sent, where enough happened to say.
    pub sent_rate: Option<String>,
    /// The rate that was asked for.
    pub asked: String,
    /// How many seconds the run took.
    pub elapsed: String,
}

/// The first line of a report: what was sent, never what was achieved.
pub open spec fn sent_line(summary: RunSummary, words: ReportWords) -> Seq<char> {
    let counts = "sent "@ + decimal(summary.emitted as nat) + " actions over "@ + decimal(
        summary.iterations as nat,
    ) + " repetitions"@;
    let rated = match words.sent_rate {
        Some(rate) => counts + " at "@ + rate@ + "/s (asked for "@ + words.asked@ + "/s)"@,
        None => counts,
    };
    rated + " \u{2014} not all may arrive."@
}

/// The lines of a report; none for a quiet run.
pub open spec fn report_lines(
    summary: RunSummary,
    words: ReportWords,
    quiet: bool,
) -> Seq<Seq<char>> {
    if quiet {
        seq![]
    } else {
        let sent = seq![sent_line(summary, words)];
        let skipped = if summary.slots_skipped > 0 {
            sent.push(
                decimal(summary.slots_skipped as nat)
                    + " repetitions were skipped: this machine could not keep up with "@
                    + words.asked@ + "/s. The rate above is what it managed to send."@,
            )
        } else {
            sent
        };
        let throttled = if summary.throttled > 0 {
            skipped.push(
                decimal(summary.throttled as nat)
                    + " actions were dropped by the output rate limit."@,
            )
        } else {
            skipped
        };
        throttled.push("ran "@ + words.elapsed@ + "s"@)
    }
}

/// What a run reports when it is over: what it sent, what it skipped, what was throttled, and how
/// long it ran.
pub fn report(summary: &RunSummary, words: &ReportWords, quiet: bool) -> (out: Vec<String>)
    ensures
        crate::text::texts(out@) == report_lines(*summary, *words, quiet),
{
    let mut out: Vec<String> = Vec::new();
    if quiet {
        assert(crate::text::texts(out@) =~= seq![]);
        return out;
    }
    let mut sent: String = "sent ".to_owned();
    sent.append(decimal_of(summary.emitted).as_str());
    sent.append(" actions over ");
    sent.append(decimal_of(summary.iterations).as_str());
    sent.append(" repetitions");
    match &words.sent_rate {
        Some(rate) => {
            sent.append(" at ");
            sent.append(rate.as_str());
            sent.append("/s (asked for ");
            sent.append(words.asked.as_str());
            sent.append("/s)");
        },
        None => {},
    }
    sent.append(" \u{2014} not all may arrive.");
    assert(sent@ == sent_line(*summary, *words));
    out.push(sent);
    if summary.slots_skipped > 0 {
        let mut line: String = decimal_of(summary.slots_skipped);
        line.append(" repetitions were skipped: this machine could not keep up with ");
        line.append(words.asked.as_str());
        line.append("/s. The rate above is what it managed to send.");
        out.push(line);
    }
    if summary.throttled > 0 {
        let mut line: String = decimal_of(summary.throttled);
        line.append(" actions were dropped by the output rate limit.");
        out.push(line);
    }
    let mut last: String = "ran ".to_owned();
    last.append(words.elapsed.as_str());
    last.append("s");
    out.push(last);
    assert(crate::text::texts(out@) =~= report_lines(*summary, *words, quiet));
    out
}

/// A mouse button that the command line names becomes the button of the same name, so no two names
/// click the same button.
pub proof fn law_each_mouse_button_keeps_its_name(one: MouseButton, other: MouseButton)
    ensures
        <Button as vstd::std_specs::convert::FromSpec<MouseButton>>::from_spec(MouseButton::Left)
            == Button::Left,
        <Button as vstd::std_specs::convert::FromSpec<MouseButton>>::from_spec(MouseButton::Middle)
            == Button::Middle,
        <Button as vstd::std_specs::convert::FromSpec<MouseButton>>::from_spec(MouseButton::Right)
            == Button::Right,
        <Button as vstd::std_specs::convert::FromSpec<MouseButton>>::from_spec(MouseButton::Back)
            == Button::Back,
        <Button as vstd::std_specs::convert::FromSpec<MouseButton>>::from_spec(MouseButton::Forward)
            == Button::Forward,
        <Button as vstd::std_specs::convert::FromSpec<MouseButton>>::from_spec(one)
            == <Button as vstd::std_specs::convert::FromSpec<MouseButton>>::from_spec(other) ==> one
            == other,
{
}

/// A run repeats the key that is asked for where there is one, whatever button is named beside it;
/// without one it clicks the button of the name that was given.
pub proof fn law_a_key_is_repeated_in_place_of_a_click(args: ClickerArgs, key: Key)
    ensures
        (ClickerArgs { kb_key: Some(key), ..args }).meant().action == ClickAction::Key(key),
        args.kb_key is None && args.m_key == MouseButton::Left ==> args.meant().action
            == ClickAction::Button(Button::Left),
        args.kb_key is None && args.m_key == MouseButton::Middle ==> args.meant().action
            == ClickAction::Button(Button::Middle),
        args.kb_key is None && args.m_key == MouseButton::Right ==> args.meant().action
            == ClickAction::Button(Button::Right),
        args.kb_key is None && args.m_key == MouseButton::Back ==> args.meant().action
            == ClickAction::Button(Button::Back),
        args.kb_key is None && args.m_key == MouseButton::Forward ==> args.meant().action
            == ClickAction::Button(Button::Forward),
{
}

/// Every other setting of a run is the one that was given, and a run is held unless it is asked to
/// be toggled.
pub proof fn law_a_run_has_the_settings_it_was_given(args: ClickerArgs)
    ensures
        args.meant().mode is Toggle <==> args.toggle,
        args.meant().cps == args.cps,
        args.meant().activate == args.activate,
        args.meant().quit == args.quit,
        args.meant().limit == args.limit,
        args.meant().key_hold == args.key_hold_ms,
        args.meant().button_hold == args.button_hold_ms,
{
}

/// The banner says what is repeated and how fast, how the activation key works, and how to quit;
/// the limit is said where there is one.
pub proof fn law_the_banner_says_how_the_run_works(config: ClickConfig, words: ConfigWords)
    ensures
        config.limit == 0 ==> banner(config, words, false) == words.action@ + (
        if config.action is Button {
            " click "@
        } else {
            " key "@
        }) + words.rate@ + "/s"@ + " | "@ + (if config.mode is Toggle {
            "TOGGLE"@
        } else {
            "HOLD"@
        }) + ": "@ + words.activate@ + " | Quit: "@ + words.quit@,
        config.limit > 0 ==> banner(config, words, false) == banner(
            (ClickConfig { limit: 0, ..config }),
            words,
            false,
        ) + " | Limit: "@ + decimal(config.limit as nat),
{
    let what = words.action@ + (if config.action is Button {
        " click "@
    } else {
        " key "@
    });
    assert(what + (words.rate@ + "/s"@) =~= what + words.rate@ + "/s"@);
}

/// A quiet run reports nothing. Any other says what it sent and how long it ran, and between the
/// two what was skipped and what was held back, where anything was.
pub proof fn law_a_report_says_what_was_lost(summary: RunSummary, words: ReportWords)
    ensures
        report_lines(summary, words, true).len() == 0,
        report_lines(summary, words, false).len() == 2 + (if summary.slots_skipped > 0 {
            1int
        } else {
            0
        }) + (if summary.throttled > 0 {
            1int
        } else {
            0
        }),
        report_lines(summary, words, false).last() == "ran "@ + words.elapsed@ + "s"@,
        summary.slots_skipped > 0 ==> report_lines(summary, words, false)[1] == decimal(
            summary.slots_skipped as nat,
        ) + " repetitions were skipped: this machine could not keep up with "@ + words.asked@
            + "/s. The rate above is what it managed to send."@,
        summary.throttled > 0 && summary.slots_skipped == 0 ==> report_lines(
            summary,
            words,
            false,
        )[1] == decimal(summary.throttled as nat)
            + " actions were dropped by the output rate limit."@,
{
}

} // verus!
