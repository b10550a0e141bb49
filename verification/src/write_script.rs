//! `write-script`: a command that says what it will be.
use vstd::prelude::*;

use crate::args::GlobalArgs;
use crate::exit;

verus! {

/// What `write-script` accepts: only what every command accepts.
#[derive(Debug, Clone, Copy, PartialEq, Eq, Structural)]
pub struct WriteScriptArgs {
    /// Shared options.
    pub global: GlobalArgs,
}

impl WriteScriptArgs {
    /// The defaults.
    pub fn new() -> (r: Self)
        ensures
            r.global == (GlobalArgs { verbose: 0, quiet: false }),
    {
        WriteScriptArgs { global: GlobalArgs::new() }
    }
}

impl Default for WriteScriptArgs {
    fn default() -> (r: Self)
        ensures
            r.global == (GlobalArgs { verbose: 0, quiet: false }),
    {
        WriteScriptArgs::new()
    }
}

/// What the command says of itself.
pub const NOTICE: &'static str = "TODO: write-script is not implemented yet \u{2014} it will run a scripted sequence of input events. For now, `clicker` repeats one action and `simulate` replays a scripted list of input events through the engine.";

/// The line that the command prints, and its exit code: asked to do nothing, it did nothing, and
/// that is no failure.
pub fn write_script(args: &WriteScriptArgs) -> (r: (String, u8))
    ensures
        r.0@ == NOTICE@,
        r.1 == exit::OK,
{
    (NOTICE.to_owned(), exit::OK)
}

} // verus!
