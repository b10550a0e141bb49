//! What can go wrong, and what exit code it means.
use vstd::prelude::*;

use crate::exit;
use crate::text::{decimal, decimal_of};

verus! {

/// Anything that stops a subcommand finishing. What an outside part says is kept as its text.
#[derive(Debug)]
#[non_exhaustive]
pub enum Error {
    /// The settings do not describe a runnable profile.
    Config(String),
    /// The capture side failed.
    Capture(String),
    /// A benchmark could not run.
    Bench(String),
    /// The injection side failed.
    Sink(String),
    /// A file could not be read.
    ScriptRead { path: String, reason: String },
    /// A script line does not parse.
    Script { line: u64, detail: String },
    /// A profile is not sound, or cannot be applied as asked.
    Profile { path: String, detail: String },
    /// Writing output failed.
    Io(String),
    /// Root could not be shed after opening the devices.
    Privilege(String),
    /// Something real but not built yet.
    NotImplemented(String),
}

impl Error {
    /// What the error says.
    pub open spec fn said(self) -> Seq<char> {
        match self {
            Error::Config(text) => text@,
            Error::Capture(text) => text@,
            Error::Bench(text) => text@,
            Error::Sink(text) => text@,
            Error::ScriptRead { path, reason } => path@ + ": "@ + reason@,
            Error::Script { line, detail } => "line "@ + decimal(line as nat) + ": "@ + detail@,
            Error::Profile { path, detail } => path@ + ": "@ + detail@,
            Error::Io(_) => "could not write output"@,
            Error::Privilege(text) => "could not drop root after opening the devices: "@ + text@,
            Error::NotImplemented(text) => text@,
        }
    }

    /// Bad settings, scripts and profiles are the command line being wrong; everything else went
    /// wrong at run time.
    pub open spec fn code(self) -> u8 {
        match self {
            Error::Config(_) | Error::Script { .. } | Error::Profile { .. } => exit::USAGE,
            _ => exit::FAILURE,
        }
    }

    /// What the error says.
    pub fn message(&self) -> (out: String)
        ensures
            out@ == self.said(),
    {
        match self {
            Error::Config(text)
            | Error::Capture(text)
            | Error::Bench(text)
            | Error::Sink(text)
            | Error::NotImplemented(text) => text.clone(),
            Error::ScriptRead { path, reason } => {
                let mut out: String = path.clone();
                out.append(": ");
                out.append(reason.as_str());
                out
            },
            Error::Script { line, detail } => {
                let mut out: String = "line ".to_owned();
                out.append(decimal_of(*line).as_str());
                out.append(": ");
                out.append(detail.as_str());
                out
            },
            Error::Profile { path, detail } => {
                let mut out: String = path.clone();
                out.append(": ");
                out.append(detail.as_str());
                out
            },
            Error::Io(_) => "could not write output".to_owned(),
            Error::Privilege(text) => {
                let mut out: String = "could not drop root after opening the devices: ".to_owned();
                out.append(text.as_str());
                out
            },
        }
    }

    /// What the process should exit with.
    pub fn exit_code(&self) -> (r: u8)
        ensures
            r == self.code(),
    {
        match self {
            Error::Config(_) | Error::Script { .. } | Error::Profile { .. } => exit::USAGE,
            _ => exit::FAILURE,
        }
    }
}

/// What the user wrote wrongly exits with two, anything else that fails with one, and nothing that
/// fails exits as a success.
pub proof fn law_each_error_has_its_exit_code(error: Error)
    ensures
        error is Config || error is Script || error is Profile ==> error.code() == 2,
        !(error is Config || error is Script || error is Profile) ==> error.code() == 1,
        exit::OK == 0,
{
}

/// An error about a file or a line says which before it says what.
pub proof fn law_an_error_says_where_it_is(path: String, detail: String, line: u64)
    ensures
        (Error::Profile { path, detail }).said() == path@ + seq![':', ' '] + detail@,
        (Error::ScriptRead { path, reason: detail }).said() == path@ + seq![':', ' '] + detail@,
        (Error::Script { line, detail }).said() == seq!['l', 'i', 'n', 'e', ' '] + decimal(
            line as nat,
        ) + seq![':', ' '] + detail@,
{
    reveal_strlit(": ");
    reveal_strlit("line ");
    assert(": "@ =~= seq![':', ' ']);
    assert("line "@ =~= seq!['l', 'i', 'n', 'e', ' ']);
}

} // verus!
