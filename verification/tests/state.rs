//! The set of applied profiles, its lock, and how it is added to and taken from.
use sequencer::error::Error;
use sequencer::exit;
use sequencer::names::Lexicon;
use sequencer::profile::apply::{
    picked, plan_unapply, removal_notice, unapplied_line, ApplyReply, ApplyRequest, ApplyRun,
    ApplyStage, Member, Placed, UnapplyPlan, NOTHING_APPLIED,
};
use sequencer::profile::manager::Applied;
use sequencer::input::{Holdable, Key};
use sequencer::profile::model::{Action, Bind, Loops, Profile};
use sequencer::profile::state::{
    clear, config_dir, custody, link_into, lock_holder, next_place_step, place_link, read_pid, scan,
    see_teardown, staging_name, stopping_at, Clearing, ConfigDir, Custody, FoundLink, Link,
    Occupant, PlaceOutcome, PlaceStep, Probe, Teardown,
};

fn list(names: &[&str]) -> Vec<String> {
    names.iter().map(|name| (*name).to_owned()).collect()
}

fn names(set: &[Link]) -> Vec<&str> {
    set.iter().map(|link| link.name.as_str()).collect()
}

fn found(name: &str) -> FoundLink {
    FoundLink { name: name.to_owned(), target: Some(format!("/p/{name}")) }
}

/// Linking adds, relinking the same file replaces the link, a different file under the same name
/// is refused.
#[test]
fn the_active_directory_is_the_set() {
    let link = "/c/active/gaming.toml";
    let name = Some("gaming.toml");
    assert!(matches!(
        link_into(name, "/p/gaming.toml", link, &Occupant::Nothing),
        Ok(Applied::Linked)
    ));
    assert!(matches!(
        link_into(name, "/p/gaming.toml", link, &Occupant::Same),
        Ok(Applied::Reapplied)
    ));
    let set = scan(&vec![found("gaming.toml")]);
    assert_eq!(names(&set), vec!["gaming.toml"]);
    assert_eq!(set[0].target, "/p/gaming.toml");

    // Same name, different file: refused.
    let other = Occupant::Other("/p/gaming.toml".to_owned());
    let err = link_into(name, "/elsewhere/gaming.toml", link, &other).unwrap_err().message();
    assert!(err.contains("rename"), "{err}");
    let err = link_into(None, "/", link, &Occupant::Nothing).unwrap_err().message();
    assert_eq!(err, "/: a profile needs a file name");
}

/// The set is ordered by name, and a link that leads nowhere is not in it.
#[test]
fn a_link_that_leads_nowhere_is_not_in_the_set() {
    let dangling = FoundLink { name: "b.toml".to_owned(), target: None };
    let set = scan(&vec![found("c.toml"), dangling, found("a.toml")]);
    assert_eq!(names(&set), vec!["a.toml", "c.toml"]);
}

#[test]
fn clearing_removes_links_and_spares_real_files() {
    let both = list(&["gaming.toml", "notes.txt"]);
    assert_eq!(clear(&both, "gaming.toml", true), Clearing::Remove, "the link goes");
    // A hand-placed file survives and still counts as applied — copying a profile in
    // rather than linking it is a legitimate way to use the directory.
    assert_eq!(clear(&both, "notes.txt", false), Clearing::Spare, "a real file is not ours");
}

/// A stopping manager clears only what it was enforcing. A link that arrived while
/// it was on its way out belongs to whoever comes next.
#[test]
fn a_stopping_manager_clears_only_what_it_enforced() {
    let enforced = list(&["mine.toml"]);
    assert_eq!(clear(&enforced, "mine.toml", true), Clearing::Remove);
    assert_eq!(
        clear(&enforced, "newcomer.toml", true),
        Clearing::Leave,
        "a link this manager never enforced survives its stop"
    );
}

/// Plays the steps of putting a link in place; what holds the name after each of them.
fn place(rename: PlaceOutcome) -> (PlaceStep, bool) {
    let mut step = place_link(true);
    let mut always_there = true;
    for _ in 0..10 {
        let outcome = match step {
            PlaceStep::Rename => rename,
            PlaceStep::RemoveOld => {
                always_there = false;
                PlaceOutcome::Done
            }
            _ => PlaceOutcome::Done,
        };
        step = next_place_step(step, outcome);
    }
    (step, always_there)
}

/// Re-applying must never leave the name absent: the new link is built beside the set and renamed
/// over the old one.
#[test]
fn a_relink_is_never_momentarily_absent_by_name() {
    assert_eq!(place(PlaceOutcome::Done), (PlaceStep::Placed, true));
    assert_eq!(place(PlaceOutcome::Failed), (PlaceStep::FailedLink, true));
    let (step, _) = place(PlaceOutcome::CrossDevice);
    assert_eq!(step, PlaceStep::Placed, "where nothing can be renamed it is replaced");
    assert_eq!(staging_name(7, "gaming.toml"), ".sequencer-relink-7-gaming.toml");
}

#[test]
fn a_missing_active_dir_is_an_empty_set() {
    assert!(scan(&Vec::new()).is_empty());
}

/// Custody follows the held lock, not the file: the first caller wins, a second is
/// told whose it is, and letting go frees it.
#[test]
fn custody_follows_the_held_lock() {
    let label = Some("4711\n".to_owned());
    assert_eq!(custody(true, &None), Custody::Ours, "first caller should win the lock");
    assert_eq!(custody(false, &label), Custody::Theirs(4711), "the label is the PID");
    assert_eq!(lock_holder(Probe::Held, &label), Some(4711));
    assert_eq!(
        custody(true, &label),
        Custody::Ours,
        "a released lock is free, whatever the file still says"
    );
}

/// The PID in the file is a label, never the liveness test.
#[test]
fn a_live_pid_in_the_file_is_not_a_live_manager() {
    let label = Some("4711".to_owned());
    assert_eq!(custody(true, &label), Custody::Ours, "nobody holds the lock");
    assert_eq!(
        lock_holder(Probe::Free, &label),
        None,
        "and nothing reports a manager either"
    );
    assert_eq!(lock_holder(Probe::Absent, &label), None);
}

/// The teardown marker: present while a manager stops, gone after, and clearable
/// when the manager that wrote it never came back to do so.
#[test]
fn the_stopping_marker_tells_an_apply_to_wait() {
    let label = Some("4711".to_owned());
    assert_eq!(stopping_at(false, &None), None);
    assert_eq!(stopping_at(true, &label), Some(4711));
    assert_eq!(see_teardown(None, Some(4711)), Teardown::Nothing);
    assert_eq!(see_teardown(Some(4711), Some(4711)), Teardown::Wait);
    assert_eq!(see_teardown(Some(4711), None), Teardown::Stale, "it died mid-teardown");
}

#[test]
fn a_pid_is_read_from_its_file() {
    assert_eq!(read_pid(&Some(" 12\n".to_owned())), Some(12));
    assert_eq!(read_pid(&Some("twelve".to_owned())), None);
    assert_eq!(read_pid(&Some("4294967296".to_owned())), None);
    assert_eq!(read_pid(&None), None);
}

#[test]
fn the_set_is_kept_where_the_user_says() {
    assert!(matches!(config_dir(true, true, true), Ok(ConfigDir::Given)));
    assert!(matches!(config_dir(false, true, true), Ok(ConfigDir::Xdg)));
    assert_eq!(ConfigDir::Xdg.below(), vec!["sequencer"]);
    assert_eq!(config_dir(false, false, true).unwrap().below(), vec![".config", "sequencer"]);
    assert!(matches!(config_dir(false, false, false), Err(Error::NotImplemented(_))));
}

// ------------------------------------------------------------------------------- unapplying

#[test]
fn unapply_with_an_empty_set_says_so() {
    let plan = plan_unapply(&Vec::new(), &Vec::new(), false, false);
    assert!(matches!(plan, UnapplyPlan::Nothing));
    assert!(NOTHING_APPLIED.contains("nothing is applied."), "said: {NOTHING_APPLIED}");
}

#[test]
fn unapply_asks_only_where_somebody_can_answer() {
    let applied = list(&["a.toml", "b.toml"]);
    assert!(matches!(plan_unapply(&applied, &Vec::new(), true, false), UnapplyPlan::Ask));
    match plan_unapply(&applied, &Vec::new(), false, false) {
        UnapplyPlan::Refused(error) => assert_eq!(
            error.message(),
            "profile-unapply: no names given and no terminal for the picker; applied: a.toml, \
             b.toml"
        ),
        other => panic!("{other:?}"),
    }
    match plan_unapply(&applied, &list(&["b"]), false, false) {
        UnapplyPlan::Remove(chosen) => assert_eq!(chosen, vec!["b.toml"]),
        other => panic!("{other:?}"),
    }
    match plan_unapply(&applied, &list(&["c"]), false, false) {
        UnapplyPlan::Refused(error) => assert_eq!(error.exit_code(), exit::USAGE),
        other => panic!("{other:?}"),
    }
    assert_eq!(picked("2 1", &applied, false).unwrap(), vec!["b.toml", "a.toml"]);
    assert!(picked("3", &applied, false).is_err());
    assert_eq!(unapplied_line("a.toml"), "unapplied: a.toml");
    assert_eq!(
        removal_notice(7),
        "the manager (PID 7) picks up removals within a moment."
    );
}

// --------------------------------------------------------------------------------- applying

fn no_names() -> Lexicon {
    Lexicon { words: Vec::new(), names: Vec::new(), mods: Vec::new() }
}

fn empty() -> Profile {
    Profile { binds: Vec::new(), program: None, emergency_stop: Vec::new() }
}

/// Plays an apply of two files; what it asked for, in order, and how it ended.
fn apply(
    broken: bool,
    teardowns: &[Teardown],
    lock: Custody,
    managed: Result<u8, ()>,
) -> (Vec<String>, Result<u8, Error>) {
    let lexicon = no_names();
    let mut run = ApplyRun::new(2);
    let mut asked = Vec::new();
    let mut looks = teardowns.iter().copied();
    loop {
        let request = run.request(&lexicon, false);
        asked.push(format!("{request:?}"));
        let reply = match request {
            ApplyRequest::Load(1) if broken => {
                ApplyReply::Failed(Error::Profile { path: "b".to_owned(), detail: "bad".to_owned() })
            }
            ApplyRequest::Load(i) => {
                ApplyReply::Loaded(Member { name: format!("{i}.toml"), profile: empty() })
            }
            ApplyRequest::Survey => ApplyReply::Surveyed(Vec::new()),
            ApplyRequest::Look => {
                ApplyReply::Looked(looks.next().unwrap_or(Teardown::Nothing))
            }
            ApplyRequest::Link(i) => ApplyReply::Linked(Placed {
                applied: Applied::Linked,
                link: format!("/c/{i}"),
                name: format!("{i}.toml"),
            }),
            ApplyRequest::Lock => ApplyReply::Locked(lock),
            ApplyRequest::Manage => match managed {
                Ok(code) => ApplyReply::Managed(code),
                Err(()) => ApplyReply::Failed(Error::Io("gone".to_owned())),
            },
            ApplyRequest::Over => break,
            _ => ApplyReply::Done,
        };
        run = run.advance(reply);
    }
    match run.stage {
        ApplyStage::Over(outcome) => (asked, outcome),
        other => panic!("{other:?}"),
    }
}

/// One broken file is enough: nothing is linked.
#[test]
fn nothing_is_linked_before_all_is_sound() {
    let (asked, outcome) = apply(true, &[], Custody::Ours, Ok(0));
    assert_eq!(asked, vec!["Load(0)", "Load(1)", "Over"]);
    assert_eq!(outcome.unwrap_err().exit_code(), exit::USAGE);
}

#[test]
fn an_apply_waits_for_a_teardown_and_manages_the_set() {
    let looks = [Teardown::Wait, Teardown::Stale];
    let (asked, outcome) = apply(false, &looks, Custody::Ours, Ok(exit::OK));
    assert_eq!(
        asked,
        vec![
            "Load(0)",
            "Load(1)",
            "Look",
            "Pause",
            "Look",
            "DropMarker",
            "Look",
            "Survey",
            "Link(0)",
            "Link(1)",
            "Lock",
            "Print([\"applied: /c/0 (0 binds)\", \"applied: /c/1 (0 binds)\"])",
            "Manage",
            "Over",
        ]
    );
    assert_eq!(outcome.unwrap(), exit::OK);
}

#[test]
fn a_running_manager_takes_the_links_over() {
    let (asked, outcome) = apply(false, &[], Custody::Theirs(7), Ok(exit::OK));
    let last = &asked[asked.len() - 2];
    assert!(last.starts_with("Print(") && last.contains("manager (PID 7)"), "{last}");
    assert_eq!(outcome.unwrap(), exit::OK);
}

/// What a manager that failed left behind would be enforced by nobody.
#[test]
fn a_manager_that_fails_leaves_no_links() {
    let (asked, outcome) = apply(false, &[], Custody::Ours, Err(()));
    assert_eq!(asked[asked.len() - 2], "Clear([\"0.toml\", \"1.toml\"])");
    assert_eq!(outcome.unwrap_err().exit_code(), exit::FAILURE);
}

/// A profile whose one trigger sends another key.
fn mirror(trigger: (&str, Key), target: Key) -> Profile {
    let bind = Bind {
        trigger_text: trigger.0.to_owned(),
        trigger: vec![trigger.1],
        action: Action::Mirror(vec![Holdable::Key(target)]),
        tap: 0,
        gap: 0,
        loops: Loops::Once,
    };
    Profile { binds: vec![bind], ..empty() }
}

fn member(name: &str, profile: Profile) -> Member {
    Member { name: name.to_owned(), profile }
}

/// Plays an apply of one profile up to what the set holds.
fn surveyed(name: &str, profile: Profile, live: Vec<Member>) -> ApplyRun {
    let mut run = ApplyRun::new(1);
    run = run.advance(ApplyReply::Loaded(member(name, profile)));
    run = run.advance(ApplyReply::Looked(Teardown::Nothing));
    assert!(matches!(run.request(&no_names(), false), ApplyRequest::Survey));
    run.advance(ApplyReply::Surveyed(live))
}

/// A circle can span profiles: it is refused before anything is linked, and both are named.
#[test]
fn a_circle_with_the_set_links_nothing() {
    let live = vec![member("p2.toml", mirror(("F9", Key::F9), Key::F8))];
    let run = surveyed("p4.toml", mirror(("F8", Key::F8), Key::F9), live);
    assert!(run.placed.is_empty());
    assert!(matches!(run.request(&no_names(), false), ApplyRequest::Over));
    let ApplyStage::Over(Err(error)) = run.stage else {
        panic!("a circle must be refused");
    };
    let said = error.message();
    assert!(said.contains("circle"), "{said}");
    assert!(said.contains("p2.toml::F9") && said.contains("p4.toml::F8"), "{said}");
    assert_eq!(error.exit_code(), exit::USAGE);
}

/// What goes nowhere is no circle, and a profile does not meet the version that it replaces.
#[test]
fn a_profile_without_a_circle_is_linked() {
    let live = vec![member("p2.toml", mirror(("F9", Key::F9), Key::C))];
    let run = surveyed("p4.toml", mirror(("F8", Key::F8), Key::F9), live);
    assert!(matches!(run.request(&no_names(), false), ApplyRequest::Link(0)));
    let live = vec![member("p4.toml", mirror(("F9", Key::F9), Key::F8))];
    let run = surveyed("p4.toml", mirror(("F8", Key::F8), Key::F9), live);
    assert!(matches!(run.request(&no_names(), false), ApplyRequest::Link(0)));
}

/// What a running manager is told of one profile after another.
fn attached(kinds: &[Applied]) -> Vec<String> {
    let mut run = ApplyRun::new(kinds.len());
    for i in 0..kinds.len() {
        run = run.advance(ApplyReply::Loaded(member(&format!("{i}.toml"), empty())));
    }
    run = run.advance(ApplyReply::Looked(Teardown::Nothing));
    run = run.advance(ApplyReply::Surveyed(Vec::new()));
    for (i, applied) in kinds.iter().enumerate() {
        run = run.advance(ApplyReply::Linked(Placed {
            applied: *applied,
            link: format!("/c/{i}"),
            name: format!("{i}.toml"),
        }));
    }
    run = run.advance(ApplyReply::Locked(Custody::Theirs(7)));
    match run.request(&no_names(), false) {
        ApplyRequest::Print(lines) => lines,
        other => panic!("{other:?}"),
    }
}

/// A re-apply says that it updates.
#[test]
fn a_reapply_says_that_it_updates() {
    let adding = "adding to an existing manager (PID 7)";
    let updating = "updating (re-applying) onto an existing manager (PID 7)";
    assert_eq!(attached(&[Applied::Linked]), vec!["applied: /c/0 (0 binds)", adding]);
    assert_eq!(attached(&[Applied::Reapplied]), vec!["already applied: /c/0", updating]);
    assert_eq!(
        attached(&[Applied::Linked, Applied::Reapplied]),
        vec!["applied: /c/0 (0 binds)", "already applied: /c/1", adding, updating]
    );
}
