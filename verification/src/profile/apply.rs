//! Applying and unapplying: which profiles are meant, and what is said of them.
use vstd::prelude::*;

use crate::error::Error;
use crate::exit;
use crate::names::Lexicon;
use crate::style;
use crate::text::{decimal, decimal_of, join, joined, same, texts};

use super::circle::{bindings_of, feeds_round, names_along, trigger_cycle, Named};
use super::manager::{
    announce, announcement, attached_line, circle_reason, circle_text, reattached_line,
    stop_hint_text, Applied,
};
use super::model::{BindModel, Profile, ProfileModel};
use super::select::{all_resolved, parse_selection, resolve_names, selection};
use super::state::{Custody, Teardown};

verus! {

/// What is said where the set is empty.
pub const NOTHING_APPLIED: &'static str = "nothing is applied.";

/// What the picker asks.
pub const PICKER_PROMPT: &'static str = "unapply which? (numbers or names, 'all'):";

/// What errors about unapplying are about.
pub const UNAPPLY: &'static str = "profile-unapply";

/// How an unapply goes on.
#[derive(Debug)]
pub enum UnapplyPlan {
    /// Nothing is applied.
    Nothing,
    /// These are to be removed.
    Remove(Vec<String>),
    /// The picker is to ask.
    Ask,
    /// It cannot be done.
    Refused(Error),
}

/// Why the picker cannot ask.
pub open spec fn no_terminal_text(names: Seq<Seq<char>>) -> Seq<char> {
    "no names given and no terminal for the picker; applied: "@ + joined(names, ", "@)
}

/// Whether an error is about unapplying, and says this.
pub open spec fn is_unapply_error(error: Error, detail: Seq<char>) -> bool {
    error matches Error::Profile { path, detail: said } && path@ == UNAPPLY@ && said@ == detail
}

/// How an unapply goes on: with names, those; without, the picker asks where there is a terminal
/// to ask on.
pub fn plan_unapply(
    names: &Vec<String>,
    given: &Vec<String>,
    terminal: bool,
    colour: bool,
) -> (plan: UnapplyPlan)
    ensures
        match plan {
            UnapplyPlan::Nothing => names@.len() == 0,
            UnapplyPlan::Ask => names@.len() > 0 && given@.len() == 0 && terminal,
            UnapplyPlan::Remove(chosen) => names@.len() > 0 && given@.len() > 0 && all_resolved(
                texts(given@),
                texts(names@),
                colour,
            ) == Ok::<Seq<Seq<char>>, Seq<char>>(texts(chosen@)),
            UnapplyPlan::Refused(error) => names@.len() > 0 && (if given@.len() == 0 {
                !terminal && is_unapply_error(error, no_terminal_text(texts(names@)))
            } else {
                all_resolved(texts(given@), texts(names@), colour) is Err && is_unapply_error(
                    error,
                    all_resolved(texts(given@), texts(names@), colour)->Err_0,
                )
            }),
        },
{
    if names.len() == 0 {
        return UnapplyPlan::Nothing;
    }
    if given.len() == 0 {
        if terminal {
            return UnapplyPlan::Ask;
        }
        let mut detail: String =
            "no names given and no terminal for the picker; applied: ".to_owned();
        detail.append(join(names, ", ").as_str());
        return UnapplyPlan::Refused(Error::Profile { path: UNAPPLY.to_owned(), detail });
    }
    match resolve_names(given, names, colour) {
        Ok(chosen) => UnapplyPlan::Remove(chosen),
        Err(detail) => UnapplyPlan::Refused(Error::Profile { path: UNAPPLY.to_owned(), detail }),
    }
}

/// What the picker's answer means.
pub fn picked(line: &str, names: &Vec<String>, colour: bool) -> (r: Result<Vec<String>, Error>)
    ensures
        match r {
            Ok(chosen) => selection(line@, texts(names@), colour) == Ok::<
                Seq<Seq<char>>,
                Seq<char>,
            >(texts(chosen@)),
            Err(error) => selection(line@, texts(names@), colour) is Err && is_unapply_error(
                error,
                selection(line@, texts(names@), colour)->Err_0,
            ),
        },
{
    match parse_selection(line, names, colour) {
        Ok(chosen) => Ok(chosen),
        Err(detail) => Err(Error::Profile { path: UNAPPLY.to_owned(), detail }),
    }
}

/// What is said of a profile that was removed.
pub fn unapplied_line(name: &str) -> (out: String)
    ensures
        out@ == "unapplied: "@ + name@,
{
    let mut out: String = "unapplied: ".to_owned();
    out.append(name);
    out
}

/// What is said where a manager runs.
pub fn removal_notice(pid: u32) -> (out: String)
    ensures
        out@ == "the manager (PID "@ + decimal(pid as nat)
            + ") picks up removals within a moment."@,
{
    let mut out: String = "the manager (PID ".to_owned();
    out.append(decimal_of(pid as u64).as_str());
    out.append(") picks up removals within a moment.");
    out
}

// ------------------------------------------------------------------------------- applying

/// What errors about applying are about, where they are not about one file.
pub const APPLY: &'static str = "profile-apply";

/// A profile with its name in the set.
#[derive(Debug)]
pub struct Member {
    pub name: String,
    pub profile: Profile,
}

/// A profile with its name in the set, as a mathematical value.
pub type MemberModel = (Seq<char>, ProfileModel);

impl View for Member {
    type V = MemberModel;

    open spec fn view(&self) -> MemberModel {
        (self.name@, self.profile@)
    }
}

/// The mathematical values of a list of profiles.
pub open spec fn members_view(members: Seq<Member>) -> Seq<MemberModel> {
    members.map_values(|member: Member| member@)
}

/// The bindings of profiles, with their names.
pub open spec fn members_bindings(members: Seq<MemberModel>) -> Seq<(Seq<char>, BindModel)>
    decreases members.len(),
{
    if members.len() == 0 {
        seq![]
    } else {
        let last = members.last();
        members_bindings(members.drop_last()) + last.1.binds.map_values(
            |bind: BindModel| (last.0, bind),
        )
    }
}

/// Whether a name is that of a profile.
pub open spec fn is_named(members: Seq<MemberModel>, name: Seq<char>) -> bool {
    exists|i: int| 0 <= i < members.len() && (#[trigger] members[i]).0 == name
}

/// The profiles that stay in the set beside those that are applied: one of the same name is
/// replaced.
pub open spec fn beside(live: Seq<MemberModel>, applied: Seq<MemberModel>) -> Seq<MemberModel>
    decreases live.len(),
{
    if live.len() == 0 {
        seq![]
    } else if is_named(applied, live.last().0) {
        beside(live.drop_last(), applied)
    } else {
        beside(live.drop_last(), applied).push(live.last())
    }
}

/// The bindings that there would be, were the profiles applied.
pub open spec fn bindings_then(live: Seq<MemberModel>, applied: Seq<MemberModel>) -> Seq<
    (Seq<char>, BindModel),
> {
    members_bindings(beside(live, applied) + applied)
}

/// Whether bindings fire each other in a circle.
pub open spec fn has_circle(all: Seq<(Seq<char>, BindModel)>) -> bool {
    exists|path: Seq<int>| feeds_round(all, path)
}

fn has_name(members: &Vec<Member>, name: &str) -> (r: bool)
    ensures
        r == is_named(members_view(members@), name@),
{
    let ghost all = members_view(members@);
    let mut i: usize = 0;
    while i < members.len()
        invariant
            i <= members@.len(),
            all == members_view(members@),
            forall|k: int| 0 <= k < i ==> (#[trigger] all[k]).0 != name@,
        decreases members@.len() - i,
    {
        assert(all[i as int] == members@[i as int]@);
        if same(members[i].name.as_str(), name) {
            return true;
        }
        i += 1;
    }
    false
}

/// A circle that there would be, were the profiles applied, by the names of its bindings.
fn circle_then(live: &Vec<Member>, applied: &Vec<Member>) -> (r: Option<Vec<String>>)
    ensures
        ({
            let all = bindings_then(members_view(live@), members_view(applied@));
            match r {
                Some(names) => exists|path: Seq<int>|
                    #[trigger] feeds_round(all, path) && texts(names@) == names_along(all, path),
                None => !has_circle(all),
            }
        }),
{
    let ghost there = members_view(live@);
    let ghost mine = members_view(applied@);
    let mut named: Vec<Named<'_>> = Vec::new();
    let mut i: usize = 0;
    assert(named@ =~= seq![]);
    assert(there.take(0) =~= seq![]);
    while i < live.len()
        invariant
            i <= live@.len(),
            there == members_view(live@),
            mine == members_view(applied@),
            bindings_of(named@) == members_bindings(beside(there.take(i as int), mine)),
        decreases live@.len() - i,
    {
        proof {
            assert(there.take(i + 1).drop_last() =~= there.take(i as int));
            assert(there.take(i + 1).last() == live@[i as int]@);
        }
        if !has_name(applied, live[i].name.as_str()) {
            let ghost before = named@;
            let ghost kept = beside(there.take(i as int), mine);
            named.push(Named { name: live[i].name.as_str(), profile: &live[i].profile });
            proof {
                assert(named@.drop_last() =~= before);
                assert(kept.push(live@[i as int]@).drop_last() =~= kept);
            }
        }
        i += 1;
    }
    let ghost kept = beside(there, mine);
    let mut k: usize = 0;
    proof {
        assert(there.take(there.len() as int) =~= there);
        assert(kept + mine.take(0) =~= kept);
    }
    while k < applied.len()
        invariant
            k <= applied@.len(),
            mine == members_view(applied@),
            kept == beside(there, mine),
            there == members_view(live@),
            bindings_of(named@) == members_bindings(kept + mine.take(k as int)),
        decreases applied@.len() - k,
    {
        let ghost before = named@;
        named.push(Named { name: applied[k].name.as_str(), profile: &applied[k].profile });
        proof {
            assert(named@.drop_last() =~= before);
            assert((kept + mine.take(k + 1)).drop_last() =~= kept + mine.take(k as int));
            assert((kept + mine.take(k + 1)).last() == applied@[k as int]@);
        }
        k += 1;
    }
    let ghost all = bindings_then(there, mine);
    proof {
        assert(mine.take(mine.len() as int) =~= mine);
        assert(bindings_of(named@) == all);
    }
    let found = trigger_cycle(&named);
    proof {
        if found is None {
            assert(forall|path: Seq<int>| !feeds_round(all, path));
        }
    }
    found
}

/// A link that was put in place.
#[derive(Debug)]
pub struct Placed {
    pub applied: Applied,
    /// The path of the link.
    pub link: String,
    /// Its name in the set.
    pub name: String,
}

/// A link that was put in place, as a mathematical value.
pub type PlacedModel = (Applied, Seq<char>, Seq<char>);

impl View for Placed {
    type V = PlacedModel;

    open spec fn view(&self) -> PlacedModel {
        (self.applied, self.link@, self.name@)
    }
}

/// What an apply asks for.
#[derive(Debug)]
pub enum ApplyRequest {
    /// Read and parse the file at this place.
    Load(usize),
    /// Say whether a manager is tearing down.
    Look,
    /// Read and parse the profiles of the set.
    Survey,
    /// Drop the marker of one that is gone.
    DropMarker,
    /// Wait a moment.
    Pause,
    /// Link the file at this place into the set.
    Link(usize),
    /// Take the manager's lock.
    Lock,
    /// Print these lines.
    Print(Vec<String>),
    /// Manage the set until it is done.
    Manage,
    /// Remove these links.
    Clear(Vec<String>),
    /// Nothing: the apply is over.
    Over,
}

/// What an apply is told.
#[derive(Debug)]
pub enum ApplyReply {
    Loaded(Member),
    Looked(Teardown),
    /// The profiles of the set that are sound.
    Surveyed(Vec<Member>),
    Linked(Placed),
    Locked(Custody),
    Done,
    Managed(u8),
    Failed(Error),
}

/// Where an apply stands.
#[derive(Debug)]
pub enum ApplyStage {
    Loading,
    Looking,
    Dropping,
    Pausing,
    /// Nobody is tearing down, so the set is what the profiles will stand beside.
    Surveying,
    Linking,
    Locking,
    /// The links are announced, to a manager that runs already where there is one.
    Announcing(Option<u32>),
    Managing,
    /// What was linked is removed again, for the manager failed.
    Clearing(Error),
    Over(Result<u8, Error>),
}

/// An apply.
#[derive(Debug)]
pub struct ApplyRun {
    /// How many files there are.
    pub count: usize,
    pub profiles: Vec<Member>,
    pub placed: Vec<Placed>,
    pub stage: ApplyStage,
}

/// An apply, as a mathematical value.
#[verifier::ext_equal]
pub struct ApplyState {
    pub count: nat,
    pub profiles: Seq<MemberModel>,
    pub placed: Seq<PlacedModel>,
    pub stage: ApplyStage,
}

impl View for ApplyRun {
    type V = ApplyState;

    open spec fn view(&self) -> ApplyState {
        ApplyState {
            count: self.count as nat,
            profiles: members_view(self.profiles@),
            placed: self.placed@.map_values(|placed: Placed| placed@),
            stage: self.stage,
        }
    }
}

impl ApplyState {
    /// Whether an apply is one that can come up: every file is loaded before any is linked, and
    /// every one is linked before the lock is asked for.
    pub open spec fn well_formed(self) -> bool {
        &&& self.placed.len() <= self.count
        &&& self.profiles.len() <= self.count
        &&& self.placed.len() > 0 ==> self.profiles.len() == self.count
        &&& match self.stage {
            ApplyStage::Loading => self.placed.len() == 0 && self.profiles.len() < self.count,
            ApplyStage::Looking
            | ApplyStage::Dropping
            | ApplyStage::Pausing => self.placed.len() == 0 && self.profiles.len() == self.count,
            ApplyStage::Surveying => self.placed.len() == 0 && self.profiles.len() == self.count
                && self.count > 0,
            ApplyStage::Linking => self.placed.len() < self.count && self.profiles.len()
                == self.count,
            ApplyStage::Locking
            | ApplyStage::Announcing(_)
            | ApplyStage::Managing
            | ApplyStage::Clearing(_) => self.placed.len() == self.count && self.profiles.len()
                == self.count,
            ApplyStage::Over(_) => true,
        }
    }

    /// The apply at another stage.
    pub open spec fn at(self, stage: ApplyStage) -> ApplyState {
        ApplyState { stage, ..self }
    }

    /// Whether a circle of bindings was found, and the apply refused for it: the circle is named.
    pub open spec fn is_refused_for(self, all: Seq<(Seq<char>, BindModel)>, after: ApplyState) -> bool {
        &&& after == self.at(after.stage)
        &&& after.stage matches ApplyStage::Over(Err(Error::Profile { path: about, detail }))
        &&& about@ == APPLY@
        &&& exists|path: Seq<int>|
            #[trigger] feeds_round(all, path) && detail@ == circle_reason(names_along(all, path))
    }

    /// Whether a state comes after a reply. Profiles that would close a circle with those of the set
    /// are refused; there may be several circles, and any of them is named.
    pub open spec fn leads_to(self, reply: ApplyReply, after: ApplyState) -> bool {
        match (self.stage, reply) {
            (ApplyStage::Surveying, ApplyReply::Surveyed(live)) => {
                let all = bindings_then(members_view(live@), self.profiles);
                if has_circle(all) {
                    self.is_refused_for(all, after)
                } else {
                    after == self.at(ApplyStage::Linking)
                }
            },
            _ => after == self.next(reply),
        }
    }

    /// The apply after a reply, other than to the question what is in the set. A failure ends it,
    /// except that a manager which fails leaves its links to be removed. A reply that does not
    /// answer what was asked changes nothing.
    pub open spec fn next(self, reply: ApplyReply) -> ApplyState {
        match (self.stage, reply) {
            (ApplyStage::Managing, ApplyReply::Failed(error)) => self.at(
                ApplyStage::Clearing(error),
            ),
            (ApplyStage::Clearing(error), ApplyReply::Done | ApplyReply::Failed(_)) => self.at(
                ApplyStage::Over(Err(error)),
            ),
            (ApplyStage::Over(_), ApplyReply::Failed(_)) => self,
            (_, ApplyReply::Failed(error)) => self.at(ApplyStage::Over(Err(error))),
            (ApplyStage::Loading, ApplyReply::Loaded(member)) => ApplyState {
                profiles: self.profiles.push(member@),
                stage: if self.profiles.len() + 1 == self.count {
                    ApplyStage::Looking
                } else {
                    ApplyStage::Loading
                },
                ..self
            },
            (ApplyStage::Looking, ApplyReply::Looked(teardown)) => self.at(
                match teardown {
                    Teardown::Nothing => if self.count == 0 {
                        ApplyStage::Locking
                    } else {
                        ApplyStage::Surveying
                    },
                    Teardown::Stale => ApplyStage::Dropping,
                    Teardown::Wait => ApplyStage::Pausing,
                },
            ),
            (ApplyStage::Dropping | ApplyStage::Pausing, ApplyReply::Done) => self.at(
                ApplyStage::Looking,
            ),
            (ApplyStage::Linking, ApplyReply::Linked(placed)) => ApplyState {
                placed: self.placed.push(placed@),
                stage: if self.placed.len() + 1 == self.count {
                    ApplyStage::Locking
                } else {
                    ApplyStage::Linking
                },
                ..self
            },
            (ApplyStage::Locking, ApplyReply::Locked(custody)) => self.at(
                match custody {
                    Custody::Ours => ApplyStage::Announcing(None),
                    Custody::Theirs(pid) => ApplyStage::Announcing(Some(pid)),
                },
            ),
            (ApplyStage::Announcing(pid), ApplyReply::Done) => self.at(
                match pid {
                    Some(_) => ApplyStage::Over(Ok(exit::OK)),
                    None => ApplyStage::Managing,
                },
            ),
            (ApplyStage::Managing, ApplyReply::Managed(code)) => self.at(
                ApplyStage::Over(Ok(code)),
            ),
            _ => self,
        }
    }
}

/// The announcements of the first `n` links. Where a manager runs already its own would land in
/// another window, so the hint how to stop each is given here.
pub open spec fn announcements(
    state: ApplyState,
    n: int,
    lexicon: &Lexicon,
    with_hint: bool,
    colour: bool,
) -> Seq<Seq<char>>
    decreases n,
{
    if n <= 0 {
        seq![]
    } else {
        announcements(state, n - 1, lexicon, with_hint, colour) + announcement(
            state.placed[n - 1].0,
            state.placed[n - 1].1,
            state.profiles[n - 1].1.binds.len(),
            if with_hint {
                stop_hint_text(lexicon, state.profiles[n - 1].1.emergency_stop, colour)
            } else {
                None
            },
        )
    }
}

/// The line for profiles that a manager which runs already takes over.
pub open spec fn attached_text(pid: u32, colour: bool) -> Seq<char> {
    style::painted(style::HIGHLIGHT@, "adding"@, colour) + " to an "@ + style::painted(
        style::HIGHLIGHT@,
        "existing"@,
        colour,
    ) + " manager (PID "@ + decimal(pid as nat) + ")"@
}

/// The line for profiles that a manager which runs already loads anew.
pub open spec fn reattached_text(pid: u32, colour: bool) -> Seq<char> {
    style::painted(style::HIGHLIGHT@, "updating (re-applying)"@, colour) + " onto an "@
        + style::painted(style::HIGHLIGHT@, "existing"@, colour) + " manager (PID "@ + decimal(
        pid as nat,
    ) + ")"@
}

/// Whether a link was replaced by one to the same file.
pub open spec fn some_reapplied(placed: Seq<PlacedModel>) -> bool {
    exists|i: int| 0 <= i < placed.len() && (#[trigger] placed[i]).0 is Reapplied
}

/// Whether each link was replaced by one to the same file, and there is one.
pub open spec fn all_reapplied(placed: Seq<PlacedModel>) -> bool {
    placed.len() > 0 && forall|i: int|
        0 <= i < placed.len() ==> (#[trigger] placed[i]).0 is Reapplied
}

/// What is said of a manager that runs already: that profiles are added to it, that profiles are
/// updated, or both.
pub open spec fn attached_lines(placed: Seq<PlacedModel>, pid: u32, colour: bool) -> Seq<Seq<char>> {
    (if all_reapplied(placed) {
        Seq::<Seq<char>>::empty()
    } else {
        seq![attached_text(pid, colour)]
    }) + (if some_reapplied(placed) {
        seq![reattached_text(pid, colour)]
    } else {
        Seq::<Seq<char>>::empty()
    })
}

/// What is printed once it is known whose the set is.
pub open spec fn apply_lines(
    state: ApplyState,
    pid: Option<u32>,
    lexicon: &Lexicon,
    colour: bool,
) -> Seq<Seq<char>> {
    announcements(state, state.placed.len() as int, lexicon, pid is Some, colour) + (match pid {
        Some(pid) => attached_lines(state.placed, pid, colour),
        None => Seq::<Seq<char>>::empty(),
    })
}

/// The names of the links that were put in place.
pub open spec fn placed_names(state: ApplyState) -> Seq<Seq<char>> {
    state.placed.map_values(|placed: PlacedModel| placed.2)
}

/// Whether a request is the one that a state makes.
pub open spec fn is_asked(
    request: ApplyRequest,
    state: ApplyState,
    lexicon: &Lexicon,
    colour: bool,
) -> bool {
    match state.stage {
        ApplyStage::Loading => request matches ApplyRequest::Load(i) && i == state.profiles.len(),
        ApplyStage::Looking => request is Look,
        ApplyStage::Surveying => request is Survey,
        ApplyStage::Dropping => request is DropMarker,
        ApplyStage::Pausing => request is Pause,
        ApplyStage::Linking => request matches ApplyRequest::Link(i) && i == state.placed.len(),
        ApplyStage::Locking => request is Lock,
        ApplyStage::Announcing(pid) => request matches ApplyRequest::Print(lines) && texts(lines@)
            == apply_lines(state, pid, lexicon, colour),
        ApplyStage::Managing => request is Manage,
        ApplyStage::Clearing(_) => request matches ApplyRequest::Clear(names) && texts(names@)
            == placed_names(state),
        ApplyStage::Over(_) => request is Over,
    }
}

impl ApplyRun {
    /// An apply of so many files.
    pub fn new(count: usize) -> (run: ApplyRun)
        ensures
            run@.well_formed(),
            run@ == fresh_apply(count as nat),
    {
        let run = ApplyRun {
            count,
            profiles: Vec::new(),
            placed: Vec::new(),
            stage: if count == 0 {
                ApplyStage::Looking
            } else {
                ApplyStage::Loading
            },
        };
        proof {
            assert(run@.profiles =~= seq![]);
            assert(run@.placed =~= seq![]);
        }
        run
    }

    fn lines(&self, pid: Option<u32>, lexicon: &Lexicon, colour: bool) -> (out: Vec<String>)
        requires
            self.placed@.len() <= self.profiles@.len(),
        ensures
            texts(out@) == apply_lines(self@, pid, lexicon, colour),
    {
        let with_hint = pid.is_some();
        let mut out: Vec<String> = Vec::new();
        let mut i: usize = 0;
        assert(texts(out@) =~= seq![]);
        while i < self.placed.len()
            invariant
                i <= self.placed@.len() <= self.profiles@.len(),
                texts(out@) == announcements(self@, i as int, lexicon, with_hint, colour),
            decreases self.placed@.len() - i,
        {
            proof {
                assert(self@.placed[i as int] == self.placed@[i as int]@);
                assert(self@.profiles[i as int] == self.profiles@[i as int]@);
            }
            let mut more = announce(
                self.placed[i].applied,
                self.placed[i].link.as_str(),
                &self.profiles[i].profile,
                with_hint,
                lexicon,
                colour,
            );
            let ghost before = out@;
            let ghost added = more@;
            out.append(&mut more);
            assert(out@ =~= before + added);
            assert(texts(out@) =~= texts(before) + texts(added));
            i += 1;
        }
        let ghost head = texts(out@);
        if let Some(pid) = pid {
            let (some_linked, some_again) = self.kinds();
            if some_linked || !some_again {
                let line = attached_line(pid, colour);
                let ghost said = line@;
                out.push(line);
                assert(texts(out@) =~= head.push(said));
            }
            let ghost middle = texts(out@);
            if some_again {
                let line = reattached_line(pid, colour);
                let ghost said = line@;
                out.push(line);
                assert(texts(out@) =~= middle.push(said));
            }
        }
        assert(texts(out@) =~= apply_lines(self@, pid, lexicon, colour));
        out
    }

    /// Whether a link was created, and whether one was replaced.
    fn kinds(&self) -> (r: (bool, bool))
        ensures
            r.1 == some_reapplied(self@.placed),
            (r.0 || !r.1) == !all_reapplied(self@.placed),
    {
        let ghost all = self@.placed;
        let mut linked = false;
        let mut again = false;
        let mut i: usize = 0;
        while i < self.placed.len()
            invariant
                i <= self.placed@.len(),
                all == self@.placed,
                linked == (exists|k: int| 0 <= k < i && (#[trigger] all[k]).0 is Linked),
                again == (exists|k: int| 0 <= k < i && (#[trigger] all[k]).0 is Reapplied),
            decreases self.placed@.len() - i,
        {
            assert(all[i as int] == self.placed@[i as int]@);
            match self.placed[i].applied {
                Applied::Linked => {
                    linked = true;
                },
                Applied::Reapplied => {
                    again = true;
                },
            }
            i += 1;
        }
        proof {
            if all.len() > 0 {
                assert(all[0].0 is Linked || all[0].0 is Reapplied);
            }
        }
        (linked, again)
    }

    fn names(&self) -> (out: Vec<String>)
        ensures
            texts(out@) == placed_names(self@),
    {
        let mut out: Vec<String> = Vec::new();
        let mut i: usize = 0;
        assert(texts(out@) =~= placed_names(self@).take(0));
        while i < self.placed.len()
            invariant
                i <= self.placed@.len(),
                texts(out@) == placed_names(self@).take(i as int),
            decreases self.placed@.len() - i,
        {
            let ghost before = texts(out@);
            out.push(self.placed[i].name.clone());
            proof {
                assert(self@.placed[i as int] == self.placed@[i as int]@);
                assert(texts(out@) =~= before.push(self.placed@[i as int].name@));
                assert(placed_names(self@).take(i + 1) =~= before.push(
                    self.placed@[i as int].name@,
                ));
            }
            i += 1;
        }
        assert(placed_names(self@).take(self.placed@.len() as int) =~= placed_names(self@));
        out
    }

    /// What the apply asks for.
    pub fn request(&self, lexicon: &Lexicon, colour: bool) -> (request: ApplyRequest)
        requires
            self@.well_formed(),
        ensures
            is_asked(request, self@, lexicon, colour),
    {
        match &self.stage {
            ApplyStage::Loading => ApplyRequest::Load(self.profiles.len()),
            ApplyStage::Looking => ApplyRequest::Look,
            ApplyStage::Surveying => ApplyRequest::Survey,
            ApplyStage::Dropping => ApplyRequest::DropMarker,
            ApplyStage::Pausing => ApplyRequest::Pause,
            ApplyStage::Linking => ApplyRequest::Link(self.placed.len()),
            ApplyStage::Locking => ApplyRequest::Lock,
            ApplyStage::Announcing(pid) => ApplyRequest::Print(self.lines(*pid, lexicon, colour)),
            ApplyStage::Managing => ApplyRequest::Manage,
            ApplyStage::Clearing(_) => ApplyRequest::Clear(self.names()),
            ApplyStage::Over(_) => ApplyRequest::Over,
        }
    }

    /// The apply after a reply. One that does not answer what was asked changes nothing.
    pub fn advance(self, reply: ApplyReply) -> (run: ApplyRun)
        requires
            self@.well_formed(),
        ensures
            self@.leads_to(reply, run@),
            run@.well_formed(),
    {
        let ghost state = self@;
        let ApplyRun { count, profiles, placed, stage } = self;
        let mut profiles = profiles;
        let mut placed = placed;
        let ghost old_profiles = profiles@;
        let ghost old_placed = placed@;
        let after: ApplyStage = match (stage, reply) {
            (ApplyStage::Managing, ApplyReply::Failed(error)) => ApplyStage::Clearing(error),
            (ApplyStage::Clearing(error), ApplyReply::Done | ApplyReply::Failed(_)) =>
                ApplyStage::Over(Err(error)),
            (ApplyStage::Over(outcome), ApplyReply::Failed(_)) => ApplyStage::Over(outcome),
            (_, ApplyReply::Failed(error)) => ApplyStage::Over(Err(error)),
            (ApplyStage::Loading, ApplyReply::Loaded(member)) => {
                profiles.push(member);
                assert(members_view(profiles@) =~= members_view(old_profiles).push(member@));
                if profiles.len() == count {
                    ApplyStage::Looking
                } else {
                    ApplyStage::Loading
                }
            },
            (ApplyStage::Looking, ApplyReply::Looked(teardown)) => match teardown {
                Teardown::Nothing => if count == 0 {
                    ApplyStage::Locking
                } else {
                    ApplyStage::Surveying
                },
                Teardown::Stale => ApplyStage::Dropping,
                Teardown::Wait => ApplyStage::Pausing,
            },
            (ApplyStage::Dropping, ApplyReply::Done) => ApplyStage::Looking,
            (ApplyStage::Pausing, ApplyReply::Done) => ApplyStage::Looking,
            (ApplyStage::Surveying, ApplyReply::Surveyed(live)) => match circle_then(
                &live,
                &profiles,
            ) {
                Some(circle) => ApplyStage::Over(
                    Err(Error::Profile { path: APPLY.to_owned(), detail: circle_text(&circle) }),
                ),
                None => ApplyStage::Linking,
            },
            (ApplyStage::Linking, ApplyReply::Linked(link)) => {
                placed.push(link);
                assert(placed@.map_values(|p: Placed| p@) =~= old_placed.map_values(
                    |p: Placed| p@,
                ).push(link@));
                if placed.len() == count {
                    ApplyStage::Locking
                } else {
                    ApplyStage::Linking
                }
            },
            (ApplyStage::Locking, ApplyReply::Locked(custody)) => match custody {
                Custody::Ours => ApplyStage::Announcing(None),
                Custody::Theirs(pid) => ApplyStage::Announcing(Some(pid)),
            },
            (ApplyStage::Announcing(pid), ApplyReply::Done) => match pid {
                Some(_) => ApplyStage::Over(Ok(exit::OK)),
                None => ApplyStage::Managing,
            },
            (ApplyStage::Managing, ApplyReply::Managed(code)) => ApplyStage::Over(Ok(code)),
            (stage, _) => stage,
        };
        let run = ApplyRun { count, profiles, placed, stage: after };
        proof {
            assert(run@.placed =~= state.placed || reply is Linked);
            assert(run@.profiles =~= state.profiles || reply is Loaded);
            if !(state.stage is Surveying && reply is Surveyed) {
                assert(run@ =~= state.next(reply));
            } else if after is Linking {
                assert(run@ =~= state.at(ApplyStage::Linking));
            } else {
                assert(run@ =~= state.at(run@.stage));
            }
        }
        run
    }
}

/// An apply that is about to begin.
pub open spec fn fresh_apply(count: nat) -> ApplyState {
    ApplyState {
        count,
        profiles: seq![],
        placed: seq![],
        stage: if count == 0 {
            ApplyStage::Looking
        } else {
            ApplyStage::Loading
        },
    }
}

/// Whether states follow each other over a list of replies, from the beginning of an apply on.
pub open spec fn is_history(count: nat, replies: Seq<ApplyReply>, states: Seq<ApplyState>) -> bool {
    &&& states.len() == replies.len() + 1
    &&& states[0] == fresh_apply(count)
    &&& forall|i: int|
        0 <= i < replies.len() ==> (#[trigger] states[i]).leads_to(replies[i], states[i + 1])
}

/// Whether the profiles of an apply were held against the set at some reply, and no circle found.
pub open spec fn is_cleared(replies: Seq<ApplyReply>, states: Seq<ApplyState>) -> bool {
    exists|i: int|
        0 <= i < replies.len() && (#[trigger] states[i]).stage is Surveying
            && states[i].profiles.len() == states[i].count && (replies[i] matches
            ApplyReply::Surveyed(live) && !has_circle(
            bindings_then(members_view(live@), states[i].profiles),
        ))
}

/// Whether an apply is past the question what is in the set.
pub open spec fn is_past_survey(state: ApplyState) -> bool {
    state.placed.len() > 0 || state.stage is Linking
}

proof fn lemma_shorter_history(count: nat, replies: Seq<ApplyReply>, states: Seq<ApplyState>)
    requires
        replies.len() > 0,
        is_history(count, replies, states),
    ensures
        is_history(count, replies.drop_last(), states.drop_last()),
        is_cleared(replies.drop_last(), states.drop_last()) ==> is_cleared(replies, states),
        states.drop_last().last().leads_to(replies.last(), states.last()),
{
    let r = replies.drop_last();
    let t = states.drop_last();
    assert forall|i: int| 0 <= i < r.len() implies (#[trigger] t[i]).leads_to(r[i], t[i + 1]) by {
        assert(states[i].leads_to(replies[i], states[i + 1]));
    }
    if is_cleared(r, t) {
        let i = choose|i: int|
            0 <= i < r.len() && (#[trigger] t[i]).stage is Surveying && t[i].profiles.len()
                == t[i].count && (r[i] matches ApplyReply::Surveyed(live) && !has_circle(
                bindings_then(members_view(live@), t[i].profiles),
            ));
        assert(states[i] == t[i] && replies[i] == r[i]);
    }
    assert(states[replies.len() - 1].leads_to(
        replies[replies.len() - 1],
        states[replies.len() - 1 + 1],
    ));
}

/// Nothing is linked unless every file was read and is sound, and unless the profiles were held
/// against the set and close no circle with it.
pub proof fn law_nothing_is_linked_before_all_is_sound(
    count: nat,
    replies: Seq<ApplyReply>,
    states: Seq<ApplyState>,
)
    requires
        is_history(count, replies, states),
    ensures
        states.last().well_formed(),
        states.last().count == count,
        states.last().placed.len() > 0 ==> states.last().profiles.len() == count,
        is_past_survey(states.last()) ==> is_cleared(replies, states),
    decreases replies.len(),
{
    if replies.len() > 0 {
        lemma_shorter_history(count, replies, states);
        law_nothing_is_linked_before_all_is_sound(
            count,
            replies.drop_last(),
            states.drop_last(),
        );
        let n = replies.len() - 1;
        let before = states.drop_last().last();
        let after = states.last();
        assert(before == states[n]);
        if is_past_survey(after) && !is_past_survey(before) {
            assert(before.stage is Surveying && replies.last() is Surveyed);
            assert(states[n].stage is Surveying);
        }
    }
}

/// A circle links nothing: where the profiles would close one with those of the set, the apply is
/// over, has linked nothing, and stays that way; what it says names the circle.
pub proof fn law_a_circle_links_nothing(
    state: ApplyState,
    live: Vec<Member>,
    after: ApplyState,
    reply: ApplyReply,
    later: ApplyState,
)
    requires
        state.well_formed(),
        state.stage is Surveying,
        has_circle(bindings_then(members_view(live@), state.profiles)),
        state.leads_to(ApplyReply::Surveyed(live), after),
        after.leads_to(reply, later),
    ensures
        after.placed.len() == 0,
        state.is_refused_for(bindings_then(members_view(live@), state.profiles), after),
        later == after,
{
}

/// Links do not outlive a manager that failed: before such an apply is over, all that it linked
/// is asked to be removed.
pub proof fn law_a_manager_that_fails_leaves_no_links(state: ApplyState, error: Error, reply: ApplyReply)
    requires
        state.stage is Managing,
        reply is Done,
    ensures
        ({
            let failed = state.next(ApplyReply::Failed(error));
            &&& state.leads_to(ApplyReply::Failed(error), failed)
            &&& failed.stage == ApplyStage::Clearing(error)
            &&& failed.placed == state.placed
            &&& failed.leads_to(reply, failed.at(ApplyStage::Over(Err(error))))
        }),
{
}

} // verus!
