//! Session mode: root for one run, and only for as long as opening the devices takes.
use vstd::prelude::*;

use crate::args::Command;

verus! {

/// Whether the X11 backend handles both halves of a run, so that no device is opened: it is built
/// in, and a server answered.
pub fn x11_handles_everything(built_in: bool, x11_usable: bool) -> (r: bool)
    ensures
        r == (built_in && x11_usable),
{
    built_in && x11_usable
}

/// Whether a command opens input devices and can run at all: a clicker whose settings make a
/// runnable profile, a benchmark, or the key detector where it does not read the terminal.
pub open spec fn opens_devices(command: Command, runnable: bool) -> bool {
    match command {
        Command::Clicker(_) => runnable,
        Command::Bench(_) => true,
        Command::DetectKey(args) => !args.no_sudo,
        _ => false,
    }
}

/// Whether a command opens input devices and can run at all. `runnable` says whether the settings
/// of a clicker make a profile that can run.
pub fn wants_devices(command: &Command, runnable: bool) -> (r: bool)
    ensures
        r == opens_devices(*command, runnable),
{
    match command {
        Command::Clicker(_) => runnable,
        Command::Bench(_) => true,
        Command::DetectKey(args) => !args.no_sudo,
        _ => false,
    }
}

/// Whether the devices can be used as things stand.
pub open spec fn usable_as_is(x11_handles: bool, checks: Seq<bool>) -> bool {
    x11_handles || forall|i: int| 0 <= i < checks.len() ==> checks[i]
}

/// Whether the devices can be used as things stand: nothing needs them, or every check passes.
pub fn has_device_access(x11_handles: bool, checks: &Vec<bool>) -> (r: bool)
    ensures
        r == usable_as_is(x11_handles, checks@),
{
    if x11_handles {
        return true;
    }
    let mut i: usize = 0;
    while i < checks.len()
        invariant
            i <= checks@.len(),
            !x11_handles,
            forall|k: int| 0 <= k < i ==> checks@[k],
        decreases checks@.len() - i,
    {
        if !checks[i] {
            assert(!checks@[i as int]);
            return false;
        }
        i += 1;
    }
    true
}

/// Whether a command can use the devices it opens: the key detector only reads them, below X, and
/// anything else goes by all the checks or by X11.
pub open spec fn can_open(command: Command, x11_handles: bool, checks: Seq<bool>, readable: bool) -> bool {
    match command {
        Command::DetectKey(_) => readable,
        _ => usable_as_is(x11_handles, checks),
    }
}

/// Whether a command can use the devices it opens, as things stand. `readable` says whether the
/// input devices can be read.
pub fn command_has_access(
    command: &Command,
    x11_handles: bool,
    checks: &Vec<bool>,
    readable: bool,
) -> (r: bool)
    ensures
        r == can_open(*command, x11_handles, checks@, readable),
{
    match command {
        Command::DetectKey(_) => readable,
        _ => has_device_access(x11_handles, checks),
    }
}

/// Whether a run calls for the round trip through sudo.
pub open spec fn needs_sudo(wants_devices: bool, root: bool, access: bool) -> bool {
    wants_devices && !root && !access
}

/// Whether a run calls for the round trip through sudo: it opens devices, this is not root, and
/// the devices cannot be used as things stand.
pub fn session_needs_sudo(wants_devices: bool, root: bool, access: bool) -> (r: bool)
    ensures
        r == needs_sudo(wants_devices, root, access),
{
    wants_devices && !root && !access
}

/// How a run goes about its privileges.
#[derive(Debug, Clone, Copy, PartialEq, Eq, Structural)]
pub enum SudoPlan {
    /// As it is, without a word about sudo.
    Direct,
    /// Under sudo with the ticket that was there, which is left as it was found.
    UseTicket,
    /// Under sudo after explaining it; the ticket that this makes is revoked afterwards.
    AskAndRevoke,
}

/// How to run: never through sudo where it is not needed or where nobody can answer a prompt, and
/// only a ticket that the run itself caused is revoked.
pub fn plan_session(needs_sudo: bool, interactive: bool, had_ticket: bool) -> (r: SudoPlan)
    ensures
        r is Direct <==> !needs_sudo || !interactive,
        r is UseTicket <==> needs_sudo && interactive && had_ticket,
        r is AskAndRevoke <==> needs_sudo && interactive && !had_ticket,
{
    if !needs_sudo || !interactive {
        SudoPlan::Direct
    } else if had_ticket {
        SudoPlan::UseTicket
    } else {
        SudoPlan::AskAndRevoke
    }
}

/// A password is never asked for where the X11 backend handles the run, whatever the device
/// checks say. The key detector reads below X, so X11 does not handle it.
pub proof fn law_an_x11_session_is_never_asked_for_a_password(
    command: Command,
    runnable: bool,
    root: bool,
    checks: Seq<bool>,
    readable: bool,
)
    requires
        !(command is DetectKey),
    ensures
        !needs_sudo(
            opens_devices(command, runnable),
            root,
            can_open(command, true, checks, readable),
        ),
{
}

/// A clicker whose settings cannot run is refused without a password being asked for.
pub proof fn law_a_broken_command_line_is_never_asked_for_a_password(
    command: Command,
    root: bool,
    access: bool,
)
    requires
        command is Clicker,
    ensures
        !needs_sudo(opens_devices(command, false), root, access),
{
}

/// What the user reads before sudo asks for a password.
pub open spec fn prompt_text(doctor_hint: Seq<char>) -> Seq<char> {
    "No access to the input devices, so sudo opens them for THIS RUN only \u{2014} root is\ndropped as soon as they are open, and nothing persists after exit.\nTo stop being asked, `"@
        + doctor_hint
        + "` prints a one-time setup (more convenient, less\nsecure: every program you run could then read every input device).\n"@
}

/// What the user reads before sudo asks for a password: what it is for, how long it lasts, and
/// the alternative with its cost.
pub fn session_prompt(doctor_hint: &str) -> (out: String)
    ensures
        out@ == prompt_text(doctor_hint@),
{
    let mut out: String =
        "No access to the input devices, so sudo opens them for THIS RUN only \u{2014} root is\ndropped as soon as they are open, and nothing persists after exit.\nTo stop being asked, `".to_owned();
    out.append(doctor_hint);
    out.append(
        "` prints a one-time setup (more convenient, less\nsecure: every program you run could then read every input device).\n",
    );
    out
}

/// What a ticket that was there already is announced with.
pub const CACHED_NOTICE: &'static str = "Using your cached sudo to open the input devices; root is dropped straight after.";

/// The exit code of a child process: its own where it is one, else a failure.
pub fn child_exit(code: Option<i32>) -> (r: u8)
    ensures
        match code {
            Some(n) => if 0 <= n <= 255 {
                r == n
            } else {
                r == crate::exit::FAILURE
            },
            None => r == crate::exit::FAILURE,
        },
{
    match code {
        Some(n) => if 0 <= n && n <= 255 {
            n as u8
        } else {
            crate::exit::FAILURE
        },
        None => crate::exit::FAILURE,
    }
}

/// Who root was borrowed for.
#[derive(Debug, Clone, Copy, PartialEq, Eq, Structural)]
pub struct Caller {
    pub uid: u32,
    pub gid: u32,
}

/// The user on whose behalf this process is root: sudo says both numbers. A root login proper has
/// nobody to drop to.
pub open spec fn caller_of(
    root: bool,
    uid: Option<Seq<char>>,
    gid: Option<Seq<char>>,
) -> Option<Caller> {
    match (uid, gid) {
        (Some(uid), Some(gid)) => match (
            crate::text::number_value(uid, u32::MAX as nat),
            crate::text::number_value(gid, u32::MAX as nat),
        ) {
            (Some(u), Some(g)) => if root {
                Some(Caller { uid: u as u32, gid: g as u32 })
            } else {
                None
            },
            _ => None,
        },
        _ => None,
    }
}

/// The user on whose behalf this process is root.
pub fn sudo_caller(root: bool, uid: &Option<String>, gid: &Option<String>) -> (r: Option<Caller>)
    ensures
        r == caller_of(
            root,
            match uid {
                Some(text) => Some(text@),
                None => None,
            },
            match gid {
                Some(text) => Some(text@),
                None => None,
            },
        ),
{
    if !root {
        return None;
    }
    match (uid, gid) {
        (Some(uid), Some(gid)) => match (
            crate::text::number_of(uid.as_str(), u32::MAX as u64),
            crate::text::number_of(gid.as_str(), u32::MAX as u64),
        ) {
            (Some(u), Some(g)) => Some(Caller { uid: u as u32, gid: g as u32 }),
            _ => None,
        },
        _ => None,
    }
}

/// One step of shedding root.
#[derive(Debug, Clone, Copy, PartialEq, Eq, Structural)]
pub enum DropStep {
    /// Keep the input group alone, or no supplementary group.
    Groups,
    /// Take on the user's group.
    Group(u32),
    /// Become the user.
    User(u32),
    /// See whether root can be had back.
    TryRoot,
    /// Root is gone for good.
    Dropped,
    /// Go no further: the step before failed.
    Failed,
    /// Go no further: root could be had back.
    Regainable,
}

/// The step after one that did or did not succeed. Each step gives up the right to the next, so
/// groups go first and the user last; being root again afterwards is the one success that refuses
/// the run.
pub fn next_drop_step(caller: Caller, step: DropStep, succeeded: bool) -> (r: DropStep)
    ensures
        r == (match step {
            DropStep::Groups => if succeeded {
                DropStep::Group(caller.gid)
            } else {
                DropStep::Failed
            },
            DropStep::Group(_) => if succeeded {
                DropStep::User(caller.uid)
            } else {
                DropStep::Failed
            },
            DropStep::User(_) => if succeeded {
                DropStep::TryRoot
            } else {
                DropStep::Failed
            },
            DropStep::TryRoot => if succeeded {
                DropStep::Regainable
            } else {
                DropStep::Dropped
            },
            end => end,
        }),
{
    match step {
        DropStep::Groups => if succeeded {
            DropStep::Group(caller.gid)
        } else {
            DropStep::Failed
        },
        DropStep::Group(_) => if succeeded {
            DropStep::User(caller.uid)
        } else {
            DropStep::Failed
        },
        DropStep::User(_) => if succeeded {
            DropStep::TryRoot
        } else {
            DropStep::Failed
        },
        DropStep::TryRoot => if succeeded {
            DropStep::Regainable
        } else {
            DropStep::Dropped
        },
        end => end,
    }
}

/// Which commands open devices: the bench always, the key detector unless it is to do without
/// sudo, a clicker that can run, and nothing else.
pub proof fn law_only_three_commands_open_devices(command: Command, runnable: bool)
    ensures
        command is Bench ==> opens_devices(command, runnable),
        command matches Command::DetectKey(args) ==> opens_devices(command, runnable)
            == !args.no_sudo,
        command is Clicker ==> opens_devices(command, runnable) == runnable,
        command is Doctor || command is ProfileApply || command is ProfileUnapply
            || command is ProfileCheck || command is WriteScript ==> !opens_devices(
            command,
            runnable,
        ),
{
}

/// Sudo is never needed by root, nor where the devices can be used already, nor by what opens none;
/// in every other case it is.
pub proof fn law_sudo_is_the_last_resort(wants_devices: bool, root: bool, access: bool)
    ensures
        !needs_sudo(wants_devices, true, access),
        !needs_sudo(wants_devices, root, true),
        !needs_sudo(false, root, access),
        needs_sudo(true, false, false),
{
}

/// Without X11, one failed check is enough for the devices to be out of reach, and with X11 no
/// check matters. The key detector reads below X, so for it neither does.
pub proof fn law_one_failed_check_is_enough(
    command: Command,
    x11_handles: bool,
    checks: Seq<bool>,
    readable: bool,
    i: int,
)
    requires
        0 <= i < checks.len(),
        !checks[i],
    ensures
        !usable_as_is(false, checks),
        usable_as_is(true, checks),
        usable_as_is(false, Seq::empty()),
        command is DetectKey ==> can_open(command, x11_handles, checks, readable) == readable,
        !(command is DetectKey) ==> can_open(command, x11_handles, checks, readable) == x11_handles,
{
}

/// Root is shed to the user that sudo names, by the numbers it gives: only where this is root, and
/// only where both are there.
pub proof fn law_root_is_shed_to_whoever_called_sudo(uid: u32, gid: u32, text: Option<Seq<char>>)
    ensures
        caller_of(
            true,
            Some(crate::text::decimal(uid as nat)),
            Some(crate::text::decimal(gid as nat)),
        ) == Some(Caller { uid, gid }),
        caller_of(false, Some(crate::text::decimal(uid as nat)), text) is None,
        caller_of(true, None, text) is None,
        caller_of(true, text, None) is None,
{
    crate::text_laws::law_a_number_reads_back(uid as nat, u32::MAX as nat);
    crate::text_laws::law_a_number_reads_back(gid as nat, u32::MAX as nat);
}

} // verus!
