//! Session mode's decisions.
use sequencer::args::{BenchArgs, Command, DoctorArgs};
use sequencer::clicker::ClickerArgs;
use sequencer::elevate::{
    child_exit, has_device_access, next_drop_step, plan_session, session_needs_sudo,
    session_prompt, sudo_caller, wants_devices, x11_handles_everything, Caller, DropStep, SudoPlan,
};
use sequencer::exit;

#[test]
fn only_a_runnable_device_touching_command_wants_devices() {
    let real = Command::Clicker(ClickerArgs::new());
    assert!(wants_devices(&real, true), "a live clicker run opens devices");
    assert!(wants_devices(&Command::Bench(BenchArgs::new()), true));

    let doctor = Command::Doctor(DoctorArgs::new());
    assert!(
        !wants_devices(&doctor, true),
        "doctor reports missing access; elevating it would blind it"
    );
}

#[test]
fn a_stale_display_variable_does_not_count_as_an_x11_session() {
    assert!(
        !x11_handles_everything(true, false),
        "an unreachable X server must not suppress the password prompt"
    );
}

#[test]
fn an_x11_session_needs_no_device_access_and_so_no_password() {
    assert!(
        x11_handles_everything(true, true),
        "an X11 run touches no device: XTEST injects and grabs listen, so sudo is moot"
    );
    assert!(
        !x11_handles_everything(true, false),
        "with no usable X server the run is back on the devices, and may need a password"
    );
    assert!(has_device_access(x11_handles_everything(true, true), &vec![false, false, false]));
    assert!(!has_device_access(x11_handles_everything(true, false), &vec![true, false, true]));
    assert!(has_device_access(false, &vec![true, true, true]));
}

#[test]
fn a_broken_command_line_is_refused_without_a_password_prompt() {
    let nonsense = Command::Clicker(ClickerArgs::new());
    assert!(
        !wants_devices(&nonsense, false),
        "invalid settings must fall through to the normal, unprivileged refusal"
    );
    assert!(!session_needs_sudo(wants_devices(&nonsense, false), false, false));
}

#[test]
fn the_password_prompt_keeps_its_promises() {
    let text = session_prompt("clicker_doctor");
    let flat = text.split_whitespace().collect::<Vec<_>>().join(" ");
    for expected in [
        "THIS RUN only",
        "dropped as soon as they are open",
        "nothing persists",
        "more convenient, less secure",
        "`clicker_doctor`",
    ] {
        assert!(
            flat.contains(expected),
            "prompt lost its promise {expected:?}:\n{text}"
        );
    }
}

#[test]
fn only_a_ticket_the_run_made_is_revoked() {
    assert_eq!(plan_session(true, true, false), SudoPlan::AskAndRevoke);
    assert_eq!(plan_session(true, true, true), SudoPlan::UseTicket);
    assert_eq!(plan_session(true, false, false), SudoPlan::Direct);
    assert_eq!(plan_session(false, true, false), SudoPlan::Direct);
}

#[test]
fn sudo_is_needed_only_for_devices_out_of_reach() {
    assert!(session_needs_sudo(true, false, false));
    assert!(!session_needs_sudo(true, true, false));
    assert!(!session_needs_sudo(true, false, true));
    assert!(!session_needs_sudo(false, false, false));
}

#[test]
fn a_child_without_a_code_failed() {
    assert_eq!(child_exit(Some(0)), 0);
    assert_eq!(child_exit(Some(2)), 2);
    assert_eq!(child_exit(Some(300)), exit::FAILURE);
    assert_eq!(child_exit(Some(-1)), exit::FAILURE);
    assert_eq!(child_exit(None), exit::FAILURE);
}

#[test]
fn the_caller_is_known_only_under_sudo() {
    let uid = Some("1000".to_owned());
    let gid = Some("100".to_owned());
    assert_eq!(sudo_caller(true, &uid, &gid), Some(Caller { uid: 1000, gid: 100 }));
    assert_eq!(sudo_caller(false, &uid, &gid), None);
    assert_eq!(sudo_caller(true, &None, &gid), None);
    assert_eq!(sudo_caller(true, &Some("me".to_owned()), &gid), None);
    assert_eq!(sudo_caller(true, &Some("4294967296".to_owned()), &gid), None);
}

#[test]
fn root_is_shed_groups_first_and_checked_last() {
    let caller = Caller { uid: 1000, gid: 100 };
    let mut step = DropStep::Groups;
    step = next_drop_step(caller, step, true);
    assert_eq!(step, DropStep::Group(100));
    step = next_drop_step(caller, step, true);
    assert_eq!(step, DropStep::User(1000));
    step = next_drop_step(caller, step, true);
    assert_eq!(step, DropStep::TryRoot);
    assert_eq!(next_drop_step(caller, step, false), DropStep::Dropped);
    assert_eq!(next_drop_step(caller, step, true), DropStep::Regainable);
    assert_eq!(next_drop_step(caller, DropStep::Groups, false), DropStep::Failed);
    assert_eq!(next_drop_step(caller, DropStep::User(1000), false), DropStep::Failed);
}
