//! What a command line says, once it has been parsed.
use vstd::prelude::*;

use crate::clicker::ClickerArgs;
use crate::write_script::WriteScriptArgs;

verus! {

/// A number, as the bits of its double-precision form.
#[derive(Debug, Clone, Copy, PartialEq, Eq, Structural)]
pub struct Real {
    pub bits: u64,
}

/// The whole command line.
#[derive(Debug)]
pub struct Cli {
    /// What to run.
    pub command: Command,
}

impl From<Command> for Cli {
    fn from(command: Command) -> (r: Cli) {
        Cli { command }
    }
}

impl vstd::std_specs::convert::FromSpecImpl<Command> for Cli {
    open spec fn obeys_from_spec() -> bool {
        true
    }

    open spec fn from_spec(command: Command) -> Cli {
        Cli { command }
    }
}

/// What to do.
#[derive(Debug)]
#[non_exhaustive]
pub enum Command {
    /// Hold or toggle a key to click, or to repeat a key press.
    Clicker(ClickerArgs),
    /// Measure how many clicks per second this machine can actually deliver.
    Bench(BenchArgs),
    /// Report what this machine can and cannot do, and how to fix what it cannot.
    Doctor(DoctorArgs),
    /// Print the name of each key as it is pressed, once per press.
    DetectKey(DetectKeyArgs),
    /// Apply profiles: remap keys and run sequences until stopped.
    ProfileApply(ProfileApplyArgs),
    /// Remove applied profiles from the active set.
    ProfileUnapply(ProfileUnapplyArgs),
    /// Check profiles for problems without applying them.
    ProfileCheck(ProfileCheckArgs),
    /// Run a scripted sequence of input events.
    WriteScript(WriteScriptArgs),
}

impl Command {
    /// The options every subcommand shares.
    pub open spec fn shared(self) -> GlobalArgs {
        match self {
            Command::Clicker(args) => args.global,
            Command::Bench(args) => args.global,
            Command::Doctor(args) => args.global,
            Command::DetectKey(args) => args.global,
            Command::ProfileApply(args) => args.global,
            Command::ProfileUnapply(args) => args.global,
            Command::ProfileCheck(args) => args.global,
            Command::WriteScript(args) => args.global,
        }
    }

    /// The options every subcommand shares.
    pub fn global(&self) -> (r: &GlobalArgs)
        ensures
            *r == self.shared(),
    {
        match self {
            Command::Clicker(args) => &args.global,
            Command::Bench(args) => &args.global,
            Command::Doctor(args) => &args.global,
            Command::DetectKey(args) => &args.global,
            Command::ProfileApply(args) => &args.global,
            Command::ProfileUnapply(args) => &args.global,
            Command::ProfileCheck(args) => &args.global,
            Command::WriteScript(args) => &args.global,
        }
    }
}

/// Options every subcommand shares.
#[derive(Debug, Clone, Copy, PartialEq, Eq, Structural)]
pub struct GlobalArgs {
    /// How much more to print.
    pub verbose: u8,
    /// Print nothing but errors.
    pub quiet: bool,
}

impl GlobalArgs {
    /// Every flag at the value it takes when not passed.
    pub fn new() -> (r: Self)
        ensures
            r == (GlobalArgs { verbose: 0, quiet: false }),
    {
        GlobalArgs { verbose: 0, quiet: false }
    }
}

impl Default for GlobalArgs {
    fn default() -> (r: Self)
        ensures
            r == (GlobalArgs { verbose: 0, quiet: false }),
    {
        GlobalArgs::new()
    }
}

/// What `bench` accepts.
#[derive(Debug, Clone, Copy, PartialEq, Eq, Structural)]
pub struct BenchArgs {
    /// Shared options.
    pub global: GlobalArgs,
    /// The target rate; without one, the machine's ceiling is measured.
    pub cps: Option<Real>,
    /// How many seconds to measure for.
    pub seconds: Real,
}

/// The bits of three.
pub const THREE: u64 = 0x4008_0000_0000_0000;

impl BenchArgs {
    /// Every flag at its command-line default: no target, three seconds.
    pub fn new() -> (r: Self)
        ensures
            r.global == (GlobalArgs { verbose: 0, quiet: false }),
            r.cps is None,
            r.seconds.bits == THREE,
    {
        BenchArgs { global: GlobalArgs::new(), cps: None, seconds: Real { bits: THREE } }
    }
}

impl Default for BenchArgs {
    fn default() -> (r: Self)
        ensures
            r.global == (GlobalArgs { verbose: 0, quiet: false }),
            r.cps is None,
            r.seconds.bits == THREE,
    {
        BenchArgs::new()
    }
}

/// What `doctor` accepts.
#[derive(Debug, Clone, Copy, PartialEq, Eq, Structural)]
pub struct DoctorArgs {
    /// Shared options.
    pub global: GlobalArgs,
}

impl DoctorArgs {
    /// Every flag at its command-line default.
    pub fn new() -> (r: Self)
        ensures
            r.global == (GlobalArgs { verbose: 0, quiet: false }),
    {
        DoctorArgs { global: GlobalArgs::new() }
    }
}

impl Default for DoctorArgs {
    fn default() -> (r: Self)
        ensures
            r.global == (GlobalArgs { verbose: 0, quiet: false }),
    {
        DoctorArgs::new()
    }
}

/// What `detect-key` accepts.
#[derive(Debug, Clone, Copy, PartialEq, Eq, Structural)]
pub struct DetectKeyArgs {
    /// Read the terminal instead of the input devices.
    pub no_sudo: bool,
    /// Shared options.
    pub global: GlobalArgs,
}

impl DetectKeyArgs {
    /// Every flag at its command-line default.
    pub fn new() -> (r: Self)
        ensures
            !r.no_sudo,
            r.global == (GlobalArgs { verbose: 0, quiet: false }),
    {
        DetectKeyArgs { no_sudo: false, global: GlobalArgs::new() }
    }
}

impl Default for DetectKeyArgs {
    fn default() -> (r: Self)
        ensures
            !r.no_sudo,
            r.global == (GlobalArgs { verbose: 0, quiet: false }),
    {
        DetectKeyArgs::new()
    }
}

/// What `profile-apply` accepts.
#[derive(Debug, Clone, PartialEq, Eq)]
pub struct ProfileApplyArgs {
    /// Files to apply; a directory stands for the profiles directly inside it.
    pub files: Vec<String>,
    /// Shared options.
    pub global: GlobalArgs,
}

/// What `profile-check` accepts.
#[derive(Debug, Clone, PartialEq, Eq)]
pub struct ProfileCheckArgs {
    /// Files to check.
    pub files: Vec<String>,
    /// Rewrite each sound file tidily in place.
    pub format: bool,
    /// Shared options.
    pub global: GlobalArgs,
}

/// What `profile-unapply` accepts.
#[derive(Debug, Clone, PartialEq, Eq)]
pub struct ProfileUnapplyArgs {
    /// Profiles to remove from the active set, by name.
    pub names: Vec<String>,
    /// Shared options.
    pub global: GlobalArgs,
}

/// The shared options of a command line are those of the command it names, whichever it is.
pub proof fn law_each_command_has_its_own_options(
    clicker: ClickerArgs,
    bench: BenchArgs,
    doctor: DoctorArgs,
    detect: DetectKeyArgs,
    apply: ProfileApplyArgs,
    unapply: ProfileUnapplyArgs,
    check: ProfileCheckArgs,
    script: WriteScriptArgs,
)
    ensures
        Command::Clicker(clicker).shared() == clicker.global,
        Command::Bench(bench).shared() == bench.global,
        Command::Doctor(doctor).shared() == doctor.global,
        Command::DetectKey(detect).shared() == detect.global,
        Command::ProfileApply(apply).shared() == apply.global,
        Command::ProfileUnapply(unapply).shared() == unapply.global,
        Command::ProfileCheck(check).shared() == check.global,
        Command::WriteScript(script).shared() == script.global,
{
}

} // verus!
