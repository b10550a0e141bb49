//! What a highlighted word looks like.
//!
//! Three colours, three meanings: blue for state and keys, red for what did not happen, orange for
//! how to stop something.
use vstd::prelude::*;

verus! {

/// Bold blue.
pub const HIGHLIGHT: &'static str = "\u{1b}[1;34m";

/// Bold red.
pub const ALARM: &'static str = "\u{1b}[1;31m";

/// Bold orange.
pub const STOPPER: &'static str = "\u{1b}[1;38;5;208m";

/// Back to plain text.
pub const RESET: &'static str = "\u{1b}[0m";

/// `text` in a colour, or as it is when colour is off.
pub open spec fn painted(colour: Seq<char>, text: Seq<char>, enabled: bool) -> Seq<char> {
    if enabled {
        colour + text + RESET@
    } else {
        text
    }
}

/// Whether to emit colour at all: standard output is a terminal and nobody asked for none.
pub fn enabled(no_color: bool, terminal: bool) -> (r: bool)
    ensures
        r == (!no_color && terminal),
{
    !no_color && terminal
}

/// `text` in a colour, or as it is when colour is off.
pub fn paint(colour: &str, text: &str, enabled: bool) -> (out: String)
    ensures
        out@ == painted(colour@, text@, enabled),
{
    if enabled {
        let mut out: String = colour.to_owned();
        out.append(text);
        out.append(RESET);
        out
    } else {
        text.to_owned()
    }
}

/// `text` in bold blue, or as it is when colour is off.
pub fn key(text: &str, enabled: bool) -> (out: String)
    ensures
        out@ == painted(HIGHLIGHT@, text@, enabled),
{
    paint(HIGHLIGHT, text, enabled)
}

/// `text` in bold red, or as it is when colour is off.
pub fn alarm(text: &str, enabled: bool) -> (out: String)
    ensures
        out@ == painted(ALARM@, text@, enabled),
{
    paint(ALARM, text, enabled)
}

/// `text` in bold orange, or as it is when colour is off.
pub fn stopper(text: &str, enabled: bool) -> (out: String)
    ensures
        out@ == painted(STOPPER@, text@, enabled),
{
    paint(STOPPER, text, enabled)
}

/// Colour never leaks into what follows: whatever the colour, a painted text ends by going back to
/// plain, and without colour it holds nothing but the text.
pub proof fn law_a_highlight_always_closes(colour: Seq<char>, text: Seq<char>, enabled: bool)
    ensures
        enabled ==> RESET@.is_suffix_of(painted(colour, text, enabled)),
        !enabled ==> painted(colour, text, enabled) == text,
{
    if enabled {
        let whole = painted(colour, text, enabled);
        assert(whole.subrange(whole.len() - RESET@.len(), whole.len() as int) =~= RESET@);
    }
}

/// Without colour a text is itself; with it, the text stands unchanged between its colour and the
/// reset, and each kind of highlight has a colour of its own.
pub proof fn law_colour_changes_no_text(colour: Seq<char>, text: Seq<char>)
    ensures
        painted(colour, text, false) == text,
        painted(colour, text, true) == colour + text + "\u{1b}[0m"@,
        HIGHLIGHT@ == "\u{1b}[1;34m"@,
        ALARM@ == "\u{1b}[1;31m"@,
        STOPPER@ == "\u{1b}[1;38;5;208m"@,
{
}

} // verus!
