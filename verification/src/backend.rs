//! Which pair of backends a run opens. The two halves are chosen together, never one by one.
use vstd::prelude::*;

use crate::elevate::{can_open, needs_sudo, opens_devices};
use crate::args::Command;
use crate::error::Error;

verus! {

/// The two halves of a run: where it sends and where it listens.
#[derive(Debug, Clone, Copy, PartialEq, Eq, Structural)]
pub enum Pair {
    /// Both through the X server.
    X11,
    /// Both through the input devices.
    Devices,
}

/// What is said where no backend can run.
pub const NO_SERVER: &'static str = "this build has only the X11 backend, and no X server answered. Rebuild with the `evdev` feature for Wayland and the console.";

/// The pair that a run opens: X11 where it handles everything, else the devices where this build
/// can use them.
pub fn open_pair(x11_handles: bool, has_devices: bool) -> (r: Result<Pair, Error>)
    ensures
        match r {
            Ok(pair) => if x11_handles {
                pair == Pair::X11
            } else {
                has_devices && pair == Pair::Devices
            },
            Err(Error::NotImplemented(text)) => !x11_handles && !has_devices && text@ == NO_SERVER@,
            Err(_) => false,
        },
{
    if x11_handles {
        Ok(Pair::X11)
    } else if has_devices {
        Ok(Pair::Devices)
    } else {
        Err(Error::NotImplemented(NO_SERVER.to_owned()))
    }
}

/// What is said where this build has no backend for the system.
pub fn unsupported(os: &str) -> (r: Error)
    ensures
        r matches Error::NotImplemented(text) && text@ == "no input backend for "@ + os@
            + "; only Linux is supported."@,
{
    let mut text: String = "no input backend for ".to_owned();
    text.append(os);
    text.append("; only Linux is supported.");
    Error::NotImplemented(text)
}

/// What is opened and whether a password is asked for go by the same answer: a clicker that asks
/// for one opens the devices.
pub proof fn law_a_password_is_only_asked_for_to_open_devices(
    command: Command,
    runnable: bool,
    root: bool,
    x11_handles: bool,
    checks: Seq<bool>,
    readable: bool,
)
    requires
        command is Clicker,
        needs_sudo(
            opens_devices(command, runnable),
            root,
            can_open(command, x11_handles, checks, readable),
        ),
    ensures
        !x11_handles,
{
}

} // verus!
