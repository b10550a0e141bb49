//! Highlighting.
use sequencer::style::{alarm, enabled, key, paint, stopper, ALARM, HIGHLIGHT, RESET, STOPPER};

/// A captured run has no terminal, so the helper is the identity function.
#[test]
fn a_captured_run_gets_plain_text() {
    let colour = enabled(false, false);
    assert_eq!(key("F9", colour), "F9");
}

#[test]
fn the_highlight_wraps_and_always_closes() {
    let styled = key("F9", true);
    assert_eq!(styled, format!("{HIGHLIGHT}F9{RESET}"));
    assert!(
        styled.ends_with(RESET),
        "an unterminated colour leaks into the next line"
    );
    assert!(styled.contains("F9"));
}

#[test]
fn colour_needs_a_terminal_and_no_objection() {
    assert!(enabled(false, true));
    assert!(!enabled(true, true));
    assert!(!enabled(false, false));
    assert!(!enabled(true, false));
}

#[test]
fn each_meaning_has_its_colour() {
    assert_eq!(alarm("no", true), format!("{ALARM}no{RESET}"));
    assert_eq!(stopper("stop", true), format!("{STOPPER}stop{RESET}"));
    assert_eq!(paint("<", "x", true), format!("<x{RESET}"));
    assert_eq!(alarm("no", false), "no");
    assert_eq!(stopper("stop", false), "stop");
}
