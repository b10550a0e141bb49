//! Saying whether a binds file is sound, without applying it, and tidying it on request.
use vstd::prelude::*;

use crate::exit;
use crate::input::{Holdable, Key};
use crate::names::Lexicon;
use crate::text::{decimal, decimal_of, same, texts};

use super::circle::{bindings_of, feeds_round, names_along, trigger_cycle, Named};
use super::claims::{bracket, bracketed};
use super::manager::{circle_reason, circle_text};
use super::model::{
    steps_view, Action, ActionModel, Bind, BindModel, Profile, ProfileModel, Step, StepModel,
};
use super::reformat::{reformat, reformatted};

verus! {

// ------------------------------------------------------------------------------- lock keys

/// Whether a key toggles a lock of the whole server.
pub open spec fn locks(key: Key) -> bool {
    key == Key::CapsLock || key == Key::NumLock
}

/// The first lock key of a trigger from a place on.
pub open spec fn lock_among_keys(keys: Seq<Key>) -> Option<Key>
    decreases keys.len(),
{
    if keys.len() == 0 {
        None
    } else if locks(keys[0]) {
        Some(keys[0])
    } else {
        lock_among_keys(keys.skip(1))
    }
}

/// The first lock key among targets.
pub open spec fn lock_among_targets(targets: Seq<Holdable>) -> Option<Key>
    decreases targets.len(),
{
    if targets.len() == 0 {
        None
    } else {
        match targets[0] {
            Holdable::Key(key) if locks(key) => Some(key),
            _ => lock_among_targets(targets.skip(1)),
        }
    }
}

/// The first lock key that a step presses.
pub open spec fn lock_in_step(step: StepModel) -> Option<Key> {
    match step {
        StepModel::Tap(targets) => lock_among_targets(targets),
        StepModel::Hold(targets) => lock_among_targets(targets),
        _ => None,
    }
}

/// The first lock key that a sequence presses.
pub open spec fn lock_in_steps(steps: Seq<StepModel>) -> Option<Key>
    decreases steps.len(),
{
    if steps.len() == 0 {
        None
    } else {
        match lock_in_step(steps[0]) {
            Some(key) => Some(key),
            None => lock_in_steps(steps.skip(1)),
        }
    }
}

/// The first lock key of a binding, as trigger or as target.
pub open spec fn lock_of(bind: BindModel) -> Option<Key> {
    match lock_among_keys(bind.trigger) {
        Some(key) => Some(key),
        None => match bind.action {
            ActionModel::Mirror(targets) => lock_among_targets(targets),
            ActionModel::Sequence(steps) => lock_in_steps(steps),
        },
    }
}

/// The warning for a binding with a lock key.
pub open spec fn lock_warning(lexicon: &Lexicon, bind: BindModel) -> Option<Seq<char>> {
    match lock_of(bind) {
        None => None,
        Some(key) => Some(
            bracketed(bind.trigger_text) + ": "@ + lexicon.name(Holdable::Key(key))
                + " is a lock key: it toggles state that no grab intercepts and no teardown undoes; pick another key"@,
        ),
    }
}

/// The warnings for the lock keys of a list of bindings, in their order.
pub open spec fn all_lock_warnings(lexicon: &Lexicon, binds: Seq<BindModel>) -> Seq<Seq<char>>
    decreases binds.len(),
{
    if binds.len() == 0 {
        seq![]
    } else {
        let before = all_lock_warnings(lexicon, binds.drop_last());
        match lock_warning(lexicon, binds.last()) {
            Some(text) => before.push(text),
            None => before,
        }
    }
}

fn is_lock(key: Key) -> (r: bool)
    ensures
        r == locks(key),
{
    key == Key::CapsLock || key == Key::NumLock
}

fn find_lock_key(keys: &Vec<Key>) -> (r: Option<Key>)
    ensures
        r == lock_among_keys(keys@),
{
    let mut i: usize = 0;
    assert(keys@.skip(0) =~= keys@);
    while i < keys.len()
        invariant
            i <= keys@.len(),
            lock_among_keys(keys@) == lock_among_keys(keys@.skip(i as int)),
        decreases keys@.len() - i,
    {
        assert(keys@.skip(i as int).skip(1) =~= keys@.skip(i + 1));
        if is_lock(keys[i]) {
            return Some(keys[i]);
        }
        i += 1;
    }
    None
}

fn find_lock_target(targets: &Vec<Holdable>) -> (r: Option<Key>)
    ensures
        r == lock_among_targets(targets@),
{
    let mut i: usize = 0;
    assert(targets@.skip(0) =~= targets@);
    while i < targets.len()
        invariant
            i <= targets@.len(),
            lock_among_targets(targets@) == lock_among_targets(targets@.skip(i as int)),
        decreases targets@.len() - i,
    {
        assert(targets@.skip(i as int).skip(1) =~= targets@.skip(i + 1));
        if let Holdable::Key(key) = targets[i] {
            if is_lock(key) {
                return Some(key);
            }
        }
        i += 1;
    }
    None
}

fn find_lock_step(steps: &Vec<Step>) -> (r: Option<Key>)
    ensures
        r == lock_in_steps(steps_view(steps@)),
{
    let ghost all = steps_view(steps@);
    let mut i: usize = 0;
    assert(all.skip(0) =~= all);
    while i < steps.len()
        invariant
            i <= steps@.len(),
            all == steps_view(steps@),
            lock_in_steps(all) == lock_in_steps(all.skip(i as int)),
        decreases steps@.len() - i,
    {
        assert(all.skip(i as int).skip(1) =~= all.skip(i + 1));
        assert(all.skip(i as int)[0] == steps@[i as int]@);
        let found = match &steps[i] {
            Step::Tap(targets) => find_lock_target(targets),
            Step::Hold(targets) => find_lock_target(targets),
            _ => None,
        };
        if found.is_some() {
            return found;
        }
        i += 1;
    }
    None
}

fn find_lock(bind: &Bind) -> (r: Option<Key>)
    ensures
        r == lock_of(bind@),
{
    if let Some(key) = find_lock_key(&bind.trigger) {
        return Some(key);
    }
    match &bind.action {
        Action::Mirror(targets) => find_lock_target(targets),
        Action::Sequence(steps) => find_lock_step(steps),
    }
}

/// Warnings for the bindings that press a lock key, as trigger or as target.
pub fn lock_warnings(lexicon: &Lexicon, profile: &Profile) -> (out: Vec<String>)
    ensures
        texts(out@) == all_lock_warnings(lexicon, profile@.binds),
{
    let ghost all = profile@.binds;
    let mut out: Vec<String> = Vec::new();
    let mut i: usize = 0;
    proof {
        assert(all.take(0) =~= seq![]);
        assert(texts(out@) =~= seq![]);
    }
    while i < profile.binds.len()
        invariant
            i <= profile.binds@.len(),
            all == profile@.binds,
            texts(out@) == all_lock_warnings(lexicon, all.take(i as int)),
        decreases profile.binds@.len() - i,
    {
        proof {
            assert(all.take(i + 1).drop_last() =~= all.take(i as int));
            assert(all.take(i + 1).last() == profile.binds@[i as int]@);
        }
        if let Some(key) = find_lock(&profile.binds[i]) {
            let mut text = bracket(profile.binds[i].trigger_text.as_str());
            text.append(": ");
            text.append(lexicon.name_of(Holdable::Key(key)).as_str());
            text.append(
                " is a lock key: it toggles state that no grab intercepts and no teardown undoes; pick another key",
            );
            let ghost before = texts(out@);
            let ghost said = text@;
            out.push(text);
            assert(texts(out@) =~= before.push(said));
        }
        i += 1;
    }
    assert(all.take(all.len() as int) =~= all);
    out
}

// -------------------------------------------------------------------------------- one file

/// What is said of one file.
#[derive(Debug)]
pub struct FileReport {
    /// The lines to print.
    pub lines: Vec<String>,
    /// What the file is to be overwritten with, if with anything.
    pub rewrite: Option<String>,
    /// Whether the file was refused.
    pub bad: bool,
}

/// A line about a file.
pub open spec fn about(path: Seq<char>, text: Seq<char>) -> Seq<char> {
    path + ": "@ + text
}

/// The warnings about a file, each on its line.
pub open spec fn warned(path: Seq<char>, warnings: Seq<Seq<char>>) -> Seq<Seq<char>> {
    warnings.map_values(|text: Seq<char>| about(path, "warning: "@ + text))
}

/// The verdict on a sound file that is not to be tidied.
pub open spec fn soundness(profile: ProfileModel) -> Seq<char> {
    let start = "ok ("@ + decimal(profile.binds.len()) + " binds"@;
    match profile.program {
        Some(program) => start + ", for program "@ + program + ")"@,
        None => start + ")"@,
    }
}

/// What a file is to be overwritten with where it is tidied: nothing where it is tidy.
pub open spec fn tidied(lexicon: &Lexicon, text: Seq<char>) -> Option<Seq<char>> {
    match reformatted(lexicon, text) {
        Some(tidy) if tidy != text => Some(tidy),
        _ => None,
    }
}

/// The first line about a sound file.
pub open spec fn verdict_line(
    lexicon: &Lexicon,
    path: Seq<char>,
    text: Seq<char>,
    profile: ProfileModel,
    format: bool,
) -> Seq<char> {
    about(
        path,
        if !format {
            soundness(profile)
        } else if tidied(lexicon, text) is Some {
            "ok, reformatted"@
        } else {
            "ok, already tidy"@
        },
    )
}

/// The bindings of one profile, named by the path of its file.
pub open spec fn own_bindings(path: Seq<char>, profile: ProfileModel) -> Seq<
    (Seq<char>, BindModel),
> {
    profile.binds.map_values(|bind: BindModel| (path, bind))
}

fn line_about(path: &str, text: &str) -> (out: String)
    ensures
        out@ == about(path@, text@),
{
    let mut out: String = path.to_owned();
    out.append(": ");
    out.append(text);
    out
}

fn sound_text(profile: &Profile) -> (out: String)
    ensures
        out@ == soundness(profile@),
{
    let mut out: String = "ok (".to_owned();
    out.append(decimal_of(profile.binds.len() as u64).as_str());
    out.append(" binds");
    if let Some(program) = &profile.program {
        out.append(", for program ");
        out.append(program.as_str());
    }
    out.append(")");
    out
}

fn own_circle(path: &str, profile: &Profile) -> (r: Option<Vec<String>>)
    ensures
        match r {
            Some(names) => exists|round: Seq<int>|
                #[trigger] feeds_round(own_bindings(path@, profile@), round) && texts(names@)
                    == names_along(own_bindings(path@, profile@), round),
            None => forall|round: Seq<int>| !feeds_round(own_bindings(path@, profile@), round),
        },
{
    let mut named: Vec<Named<'_>> = Vec::new();
    named.push(Named { name: path, profile });
    proof {
        assert(named@.drop_last() =~= seq![]);
        assert(bindings_of(named@.drop_last()) =~= seq![]);
        assert(bindings_of(named@) =~= own_bindings(path@, profile@));
    }
    trigger_cycle(&named)
}

fn push_warnings(lines: &mut Vec<String>, path: &str, warnings: &Vec<String>)
    ensures
        texts(final(lines)@) == texts(old(lines)@) + warned(path@, texts(warnings@)),
{
    let ghost first = texts(lines@);
    let ghost meant = warned(path@, texts(warnings@));
    let mut i: usize = 0;
    assert(first + meant.take(0) =~= first);
    while i < warnings.len()
        invariant
            i <= warnings@.len(),
            meant == warned(path@, texts(warnings@)),
            texts(lines@) == first + meant.take(i as int),
        decreases warnings@.len() - i,
    {
        let mut text: String = "warning: ".to_owned();
        text.append(warnings[i].as_str());
        let line = line_about(path, text.as_str());
        let ghost said = line@;
        let ghost before = texts(lines@);
        lines.push(line);
        proof {
            assert(texts(lines@) =~= before.push(said));
            assert(meant[i as int] == said);
            assert(first + meant.take(i + 1) =~= before.push(said));
        }
        i += 1;
    }
    assert(meant.take(meant.len() as int) =~= meant);
}

/// Says whether one file is sound, what to warn of, and what to overwrite it with where it is to
/// be tidied. A file that does not parse, or whose bindings go round in a circle, is refused and
/// left alone.
pub fn check_file(
    lexicon: &Lexicon,
    path: &str,
    text: &str,
    parsed: &Result<Profile, String>,
    format: bool,
) -> (report: FileReport)
    ensures
        match *parsed {
            Err(detail) => report.bad && report.rewrite is None && texts(report.lines@) == seq![
                about(path@, detail@),
            ],
            Ok(profile) => {
                let own = own_bindings(path@, profile@);
                if report.bad {
                    report.rewrite is None && exists|round: Seq<int>| #[trigger]
                        feeds_round(own, round) && texts(report.lines@) == seq![
                            about(path@, circle_reason(names_along(own, round))),
                        ]
                } else {
                    &&& forall|round: Seq<int>| !feeds_round(own, round)
                    &&& texts(report.lines@) == seq![
                        verdict_line(lexicon, path@, text@, profile@, format),
                    ] + warned(path@, all_lock_warnings(lexicon, profile@.binds))
                    &&& super::slots::text_of_option(report.rewrite) == (if format {
                        tidied(lexicon, text@)
                    } else {
                        None
                    })
                }
            },
        },
{
    let mut lines: Vec<String> = Vec::new();
    let profile = match parsed {
        Err(detail) => {
            lines.push(line_about(path, detail.as_str()));
            assert(texts(lines@) =~= seq![about(path@, detail@)]);
            return FileReport { lines, rewrite: None, bad: true };
        },
        Ok(profile) => profile,
    };
    if let Some(names) = own_circle(path, profile) {
        let line = line_about(path, circle_text(&names).as_str());
        let ghost said = line@;
        lines.push(line);
        proof {
            let own = own_bindings(path@, profile@);
            let round = choose|round: Seq<int>|
                #[trigger] feeds_round(own, round) && texts(names@) == names_along(own, round);
            assert(texts(lines@) =~= seq![said]);
            assert(feeds_round(own, round) && texts(lines@) == seq![
                about(path@, circle_reason(names_along(own, round))),
            ]);
        }
        return FileReport { lines, rewrite: None, bad: true };
    }
    let mut rewrite: Option<String> = None;
    let first = if !format {
        line_about(path, sound_text(profile).as_str())
    } else {
        if let Some(tidy) = reformat(lexicon, text) {
            if !same(tidy.as_str(), text) {
                rewrite = Some(tidy);
            }
        }
        if rewrite.is_some() {
            line_about(path, "ok, reformatted")
        } else {
            line_about(path, "ok, already tidy")
        }
    };
    let ghost said = first@;
    lines.push(first);
    assert(texts(lines@) =~= seq![said]);
    push_warnings(&mut lines, path, &lock_warnings(lexicon, profile));
    FileReport { lines, rewrite, bad: false }
}

/// The exit code of a check: a failure where any file was refused.
pub fn check_verdict(bad: u32) -> (code: u8)
    ensures
        code == (if bad == 0 {
            exit::OK
        } else {
            exit::FAILURE
        }),
{
    if bad == 0 {
        exit::OK
    } else {
        exit::FAILURE
    }
}

/// A sound file is said to be, with how many bindings it has and the program it is for, where it is
/// for one.
pub proof fn law_a_sound_file_is_said_to_be(profile: ProfileModel, program: Seq<char>)
    ensures
        profile.program is None ==> soundness(profile) == "ok ("@ + decimal(profile.binds.len())
            + " binds"@ + ")"@,
        profile.program == Some(program) ==> soundness(profile) == "ok ("@ + decimal(
            profile.binds.len(),
        ) + " binds"@ + ", for program "@ + program + ")"@,
{
}

/// Every binding with a lock key is warned about, in order, and no other.
pub proof fn law_every_lock_key_is_warned_about(
    lexicon: &Lexicon,
    binds: Seq<BindModel>,
    bind: BindModel,
)
    ensures
        all_lock_warnings(lexicon, Seq::empty()).len() == 0,
        lock_of(bind) is None ==> all_lock_warnings(lexicon, binds.push(bind))
            == all_lock_warnings(lexicon, binds),
        lock_of(bind) is Some ==> all_lock_warnings(lexicon, binds.push(bind)).len()
            == all_lock_warnings(lexicon, binds).len() + 1,
{
    assert(binds.push(bind).drop_last() =~= binds);
}

/// A file that is only checked is said to be sound; one that is to be tidied is said to have been
/// reformatted where that changed it, and to be tidy already where it did not.
pub proof fn law_a_checked_file_is_said_to_be_what_it_is(
    lexicon: &Lexicon,
    path: Seq<char>,
    text: Seq<char>,
    profile: ProfileModel,
)
    ensures
        verdict_line(lexicon, path, text, profile, false) == path + ": "@ + soundness(profile),
        match reformatted(lexicon, text) {
            Some(tidy) => {
                &&& tidy != text ==> tidied(lexicon, text) == Some(tidy) && verdict_line(
                    lexicon,
                    path,
                    text,
                    profile,
                    true,
                ) == path + ": "@ + "ok, reformatted"@
                &&& tidy == text ==> tidied(lexicon, text) is None && verdict_line(
                    lexicon,
                    path,
                    text,
                    profile,
                    true,
                ) == path + ": "@ + "ok, already tidy"@
            },
            None => tidied(lexicon, text) is None,
        },
{
}

} // verus!
