//! The profile set on disk, and the lock that decides who runs it.
//!
//! The directory is the set: applying adds a link, unapplying removes one, and applying again
//! replaces the link, which is the running manager's cue to load it anew. What is decided here is
//! which links may be made, how one is put in place without its name ever being absent, which
//! ones may be removed, and whose the set is.
use vstd::prelude::*;

use crate::error::Error;
use crate::text::{
    decimal, decimal_of, number_of, number_value, position_of, same, texts, trim, trimmed,
};

use super::manager::Applied;
use super::select::{
    at_or_before, comes_first, lemma_order_is_total, lemma_order_is_transitive,
};
use super::slots::text_of_option;

verus! {

// --------------------------------------------------------------------------- where it is kept

/// Below what the state is kept.
#[derive(Debug, Clone, Copy, PartialEq, Eq, Structural)]
pub enum ConfigDir {
    /// In the directory that was given for it.
    Given,
    /// Below the configuration directory of the desktop.
    Xdg,
    /// Below the home directory.
    Home,
}

/// The directory of the applied profiles, below that of the configuration.
pub const ACTIVE: &'static str = "active";

/// The lock file of the manager, below the configuration.
pub const LOCK: &'static str = "manager.pid";

/// What a manager that is stopping leaves there meanwhile.
pub const STOPPING: &'static str = "manager.stopping";

/// What is said where there is no place for the state.
pub const NO_HOME: &'static str = "no HOME to keep state under; set SEQUENCER_CONFIG_DIR";

/// Where the state is kept, given whether a directory for it, a configuration directory that is
/// not empty, and a home directory are named.
pub fn config_dir(given: bool, xdg: bool, home: bool) -> (r: Result<ConfigDir, Error>)
    ensures
        match r {
            Ok(place) => place == (if given {
                ConfigDir::Given
            } else if xdg {
                ConfigDir::Xdg
            } else {
                ConfigDir::Home
            }) && (given || xdg || home),
            Err(Error::NotImplemented(text)) => !given && !xdg && !home && text@ == NO_HOME@,
            Err(_) => false,
        },
{
    if given {
        Ok(ConfigDir::Given)
    } else if xdg {
        Ok(ConfigDir::Xdg)
    } else if home {
        Ok(ConfigDir::Home)
    } else {
        Err(Error::NotImplemented(NO_HOME.to_owned()))
    }
}

impl ConfigDir {
    /// The directories below the place that was named, outermost first.
    pub open spec fn parts(self) -> Seq<Seq<char>> {
        match self {
            ConfigDir::Given => seq![],
            ConfigDir::Xdg => seq!["sequencer"@],
            ConfigDir::Home => seq![".config"@, "sequencer"@],
        }
    }

    /// The directories below the place that was named, outermost first.
    pub fn below(self) -> (out: Vec<&'static str>)
        ensures
            out@.map_values(|part: &'static str| part@) == self.parts(),
    {
        let mut out: Vec<&'static str> = Vec::new();
        match self {
            ConfigDir::Given => {},
            ConfigDir::Xdg => {
                out.push("sequencer");
            },
            ConfigDir::Home => {
                out.push(".config");
                out.push("sequencer");
            },
        }
        assert(out@.map_values(|part: &'static str| part@) =~= self.parts());
        out
    }
}

// --------------------------------------------------------------------------------- linking

/// What holds the name of a link that is to be made.
#[derive(Debug)]
pub enum Occupant {
    /// Nothing, or a link that leads nowhere.
    Nothing,
    /// A link to the same file.
    Same,
    /// A link to another file, whose path this is.
    Other(String),
}

/// Why a name cannot be taken.
pub open spec fn taken_text(name: Seq<char>, other: Seq<char>) -> Seq<char> {
    "the name "@ + name + " is already applied from "@ + other + "; rename one of the files"@
}

/// Whether a file may be linked into the set: it needs a name, and a name that another file holds
/// is refused. Applying the same file again replaces its link.
pub fn link_into(name: Option<&str>, source: &str, link: &str, occupant: &Occupant) -> (r: Result<
    Applied,
    Error,
>)
    ensures
        match r {
            Ok(applied) => name is Some && !(occupant is Other) && (applied is Reapplied
                <==> occupant is Same) && (applied is Linked <==> occupant is Nothing),
            Err(Error::Profile { path, detail }) => match name {
                None => path@ == source@ && detail@ == "a profile needs a file name"@,
                Some(name) => match *occupant {
                    Occupant::Other(other) => path@ == link@ && detail@ == taken_text(
                        name@,
                        other@,
                    ),
                    _ => false,
                },
            },
            Err(_) => false,
        },
{
    let name = match name {
        None => {
            return Err(
                Error::Profile {
                    path: source.to_owned(),
                    detail: "a profile needs a file name".to_owned(),
                },
            );
        },
        Some(name) => name,
    };
    match occupant {
        Occupant::Nothing => Ok(Applied::Linked),
        Occupant::Same => Ok(Applied::Reapplied),
        Occupant::Other(other) => {
            let mut detail: String = "the name ".to_owned();
            detail.append(name);
            detail.append(" is already applied from ");
            detail.append(other.as_str());
            detail.append("; rename one of the files");
            Err(Error::Profile { path: link.to_owned(), detail })
        },
    }
}

/// The name that a link is built under, beside the set and not in it.
pub fn staging_name(pid: u32, name: &str) -> (out: String)
    ensures
        out@ == ".sequencer-relink-"@ + decimal(pid as nat) + "-"@ + name@,
{
    let mut out: String = ".sequencer-relink-".to_owned();
    out.append(decimal_of(pid as u64).as_str());
    out.append("-");
    out.append(name);
    out
}

/// One step of putting a link in place.
#[derive(Debug, Clone, Copy, PartialEq, Eq, Structural)]
pub enum PlaceStep {
    /// Remove what an earlier run may have left beside the set, whatever comes of it.
    ClearStaging,
    /// Make the link beside the set.
    LinkStaging,
    /// Rename it over the name in the set.
    Rename,
    /// Remove it from beside the set, whatever comes of it, and go on to replace the link itself.
    AbandonStaging,
    /// Remove it from beside the set, whatever comes of it, and give up.
    GiveUp,
    /// Remove the old link from the set, whatever comes of it.
    RemoveOld,
    /// Make the link in the set.
    LinkDirect,
    /// The link is in place.
    Placed,
    /// It failed, at the path beside the set.
    FailedStaging,
    /// It failed, at the path in the set.
    FailedLink,
}

/// What came of a step.
#[derive(Debug, Clone, Copy, PartialEq, Eq, Structural)]
pub enum PlaceOutcome {
    Done,
    /// The set and what is beside it are on different file systems.
    CrossDevice,
    Failed,
}

/// The first step: beside the set where there is a place beside it, else in the set itself.
pub open spec fn first_place(beside: bool) -> PlaceStep {
    if beside {
        PlaceStep::ClearStaging
    } else {
        PlaceStep::RemoveOld
    }
}

/// The step after one.
pub open spec fn place_after(step: PlaceStep, outcome: PlaceOutcome) -> PlaceStep {
    match step {
        PlaceStep::ClearStaging => PlaceStep::LinkStaging,
        PlaceStep::LinkStaging => if outcome is Done {
            PlaceStep::Rename
        } else {
            PlaceStep::FailedStaging
        },
        PlaceStep::Rename => match outcome {
            PlaceOutcome::Done => PlaceStep::Placed,
            PlaceOutcome::CrossDevice => PlaceStep::AbandonStaging,
            PlaceOutcome::Failed => PlaceStep::GiveUp,
        },
        PlaceStep::AbandonStaging => PlaceStep::RemoveOld,
        PlaceStep::GiveUp => PlaceStep::FailedLink,
        PlaceStep::RemoveOld => PlaceStep::LinkDirect,
        PlaceStep::LinkDirect => if outcome is Done {
            PlaceStep::Placed
        } else {
            PlaceStep::FailedLink
        },
        PlaceStep::Placed | PlaceStep::FailedStaging | PlaceStep::FailedLink => step,
    }
}

/// The first step of putting a link in place.
pub fn place_link(beside: bool) -> (step: PlaceStep)
    ensures
        step == first_place(beside),
{
    if beside {
        PlaceStep::ClearStaging
    } else {
        PlaceStep::RemoveOld
    }
}

/// The step after one, given what came of it.
pub fn next_place_step(step: PlaceStep, outcome: PlaceOutcome) -> (next: PlaceStep)
    ensures
        next == place_after(step, outcome),
{
    let done = match outcome {
        PlaceOutcome::Done => true,
        _ => false,
    };
    match step {
        PlaceStep::ClearStaging => PlaceStep::LinkStaging,
        PlaceStep::LinkStaging => if done {
            PlaceStep::Rename
        } else {
            PlaceStep::FailedStaging
        },
        PlaceStep::Rename => match outcome {
            PlaceOutcome::Done => PlaceStep::Placed,
            PlaceOutcome::CrossDevice => PlaceStep::AbandonStaging,
            PlaceOutcome::Failed => PlaceStep::GiveUp,
        },
        PlaceStep::AbandonStaging => PlaceStep::RemoveOld,
        PlaceStep::GiveUp => PlaceStep::FailedLink,
        PlaceStep::RemoveOld => PlaceStep::LinkDirect,
        PlaceStep::LinkDirect => if done {
            PlaceStep::Placed
        } else {
            PlaceStep::FailedLink
        },
        PlaceStep::Placed | PlaceStep::FailedStaging | PlaceStep::FailedLink => step,
    }
}

/// The step after a list of outcomes.
pub open spec fn place_steps(beside: bool, outcomes: Seq<PlaceOutcome>) -> PlaceStep
    decreases outcomes.len(),
{
    if outcomes.len() == 0 {
        first_place(beside)
    } else {
        place_after(place_steps(beside, outcomes.drop_last()), outcomes.last())
    }
}

/// With a place beside the set, the name in the set is taken away only where a rename could not
/// cross to it from another file system: at every other time a manager that looks the name up
/// finds the old link or the new one.
pub proof fn law_a_relink_is_never_momentarily_absent(outcomes: Seq<PlaceOutcome>)
    requires
        forall|i: int| 0 <= i < outcomes.len() ==> !((#[trigger] outcomes[i]) is CrossDevice),
    ensures
        ({
            let step = place_steps(true, outcomes);
            &&& !(step is RemoveOld)
            &&& !(step is LinkDirect)
            &&& !(step is AbandonStaging)
        }),
    decreases outcomes.len(),
{
    if outcomes.len() > 0 {
        let rest = outcomes.drop_last();
        assert forall|i: int| 0 <= i < rest.len() implies !((#[trigger] rest[i]) is CrossDevice) by {
            assert(rest[i] == outcomes[i]);
        }
        law_a_relink_is_never_momentarily_absent(rest);
        assert(!(outcomes[outcomes.len() - 1] is CrossDevice));
    }
}

/// Putting a link in place always comes to an end, within six steps.
pub proof fn law_placing_a_link_ends(beside: bool, outcomes: Seq<PlaceOutcome>)
    requires
        outcomes.len() >= 6,
    ensures
        ({
            let step = place_steps(beside, outcomes);
            step is Placed || step is FailedStaging || step is FailedLink
        }),
    decreases outcomes.len(),
{
    reveal_with_fuel(place_steps, 7);
    if outcomes.len() > 6 {
        law_placing_a_link_ends(beside, outcomes.drop_last());
    }
}

// -------------------------------------------------------------------------------- scanning

/// One entry of the directory: its name, and the file it leads to if it leads anywhere.
#[derive(Debug)]
pub struct FoundLink {
    pub name: String,
    pub target: Option<String>,
}

/// One applied profile: the name of its link and the file it leads to.
#[derive(Debug)]
pub struct Link {
    pub name: String,
    pub target: String,
}

impl View for Link {
    type V = (Seq<char>, Seq<char>);

    open spec fn view(&self) -> (Seq<char>, Seq<char>) {
        (self.name@, self.target@)
    }
}

impl View for FoundLink {
    type V = (Seq<char>, Option<Seq<char>>);

    open spec fn view(&self) -> (Seq<char>, Option<Seq<char>>) {
        (self.name@, text_of_option(self.target))
    }
}

/// The names and targets of a list of links.
pub open spec fn links_view(links: Seq<Link>) -> Seq<(Seq<char>, Seq<char>)> {
    links.map_values(|link: Link| link@)
}

/// The names and targets of a list of entries.
pub open spec fn found_view(found: Seq<FoundLink>) -> Seq<(Seq<char>, Option<Seq<char>>)> {
    found.map_values(|link: FoundLink| link@)
}

/// A set with one more link in its place; one of the same name is replaced.
pub open spec fn placed(
    set: Seq<(Seq<char>, Seq<char>)>,
    name: Seq<char>,
    target: Seq<char>,
) -> Seq<(Seq<char>, Seq<char>)>
    decreases set.len(),
{
    if set.len() == 0 {
        seq![(name, target)]
    } else if set[0].0 == name {
        seq![(name, target)] + set.skip(1)
    } else if at_or_before(name, set[0].0) {
        seq![(name, target)] + set
    } else {
        seq![set[0]] + placed(set.skip(1), name, target)
    }
}

/// The set that a directory is: the entries that lead somewhere, in the order of their names.
pub open spec fn set_of(found: Seq<(Seq<char>, Option<Seq<char>>)>) -> Seq<(Seq<char>, Seq<char>)>
    decreases found.len(),
{
    if found.len() == 0 {
        seq![]
    } else {
        let before = set_of(found.drop_last());
        match found.last().1 {
            Some(target) => placed(before, found.last().0, target),
            None => before,
        }
    }
}

fn place_in(set: &mut Vec<Link>, name: &str, target: &str)
    ensures
        links_view(final(set)@) == placed(links_view(old(set)@), name@, target@),
{
    let ghost whole = links_view(set@);
    let mut i: usize = 0;
    assert(whole.skip(0) =~= whole);
    assert(whole.take(0) + placed(whole, name@, target@) =~= placed(whole, name@, target@));
    while i < set.len()
        invariant
            i <= set@.len(),
            set@ == old(set)@,
            whole == links_view(set@),
            placed(whole, name@, target@) == whole.take(i as int) + placed(
                whole.skip(i as int),
                name@,
                target@,
            ),
        decreases set@.len() - i,
    {
        let ghost rest = whole.skip(i as int);
        proof {
            assert(rest[0] == set@[i as int]@);
            assert(rest.skip(1) =~= whole.skip(i + 1));
        }
        if same(set[i].name.as_str(), name) {
            let ghost before = set@;
            set.set(i, Link { name: name.to_owned(), target: target.to_owned() });
            assert(links_view(set@) =~= whole.take(i as int) + (seq![(name@, target@)]
                + rest.skip(1)));
            return;
        }
        if comes_first(name, set[i].name.as_str()) {
            set.insert(i, Link { name: name.to_owned(), target: target.to_owned() });
            assert(links_view(set@) =~= whole.take(i as int) + (seq![(name@, target@)] + rest));
            return;
        }
        proof {
            assert(whole.take(i as int) + (seq![rest[0]] + placed(rest.skip(1), name@, target@))
                =~= whole.take(i + 1) + placed(whole.skip(i + 1), name@, target@));
        }
        i += 1;
    }
    set.push(Link { name: name.to_owned(), target: target.to_owned() });
    proof {
        assert(whole.skip(i as int).len() == 0);
        assert(links_view(set@) =~= whole.take(i as int) + seq![(name@, target@)]);
    }
}

/// The set that a directory is: the entries that lead somewhere, in the order of their names.
pub fn scan(found: &Vec<FoundLink>) -> (set: Vec<Link>)
    ensures
        links_view(set@) == set_of(found_view(found@)),
{
    let ghost all = found_view(found@);
    let mut set: Vec<Link> = Vec::new();
    let mut i: usize = 0;
    assert(all.take(0) =~= seq![]);
    assert(links_view(set@) =~= seq![]);
    while i < found.len()
        invariant
            i <= found@.len(),
            all == found_view(found@),
            links_view(set@) == set_of(all.take(i as int)),
        decreases found@.len() - i,
    {
        proof {
            assert(all.take(i + 1).drop_last() =~= all.take(i as int));
            assert(all.take(i + 1).last() == found@[i as int]@);
        }
        if let Some(target) = &found[i].target {
            place_in(&mut set, found[i].name.as_str(), target.as_str());
        }
        i += 1;
    }
    assert(all.take(all.len() as int) =~= all);
    set
}

/// Where a name of a set leads.
pub open spec fn target_in(set: Seq<(Seq<char>, Seq<char>)>, name: Seq<char>) -> Option<Seq<char>>
    decreases set.len(),
{
    if set.len() == 0 {
        None
    } else if set[0].0 == name {
        Some(set[0].1)
    } else {
        target_in(set.skip(1), name)
    }
}

/// Where the last entry of a name leads, of those that lead anywhere.
pub open spec fn leads_to(found: Seq<(Seq<char>, Option<Seq<char>>)>, name: Seq<char>) -> Option<
    Seq<char>,
>
    decreases found.len(),
{
    if found.len() == 0 {
        None
    } else if found.last().0 == name && found.last().1 is Some {
        found.last().1
    } else {
        leads_to(found.drop_last(), name)
    }
}

/// Whether a set is in the order of its names, each of which it holds once.
pub open spec fn is_ascending(set: Seq<(Seq<char>, Seq<char>)>) -> bool {
    forall|i: int, j: int|
        0 <= i < j < set.len() ==> at_or_before(#[trigger] set[i].0, #[trigger] set[j].0)
            && set[i].0 != set[j].0
}

proof fn lemma_placed(
    set: Seq<(Seq<char>, Seq<char>)>,
    name: Seq<char>,
    target: Seq<char>,
    asked: Seq<char>,
)
    ensures
        target_in(placed(set, name, target), asked) == (if asked == name {
            Some(target)
        } else {
            target_in(set, asked)
        }),
    decreases set.len(),
{
    let one = seq![(name, target)];
    let after = placed(set, name, target);
    if set.len() == 0 {
        assert(after.skip(1) =~= seq![]);
    } else if set[0].0 == name {
        assert((one + set.skip(1)).skip(1) =~= set.skip(1));
    } else if at_or_before(name, set[0].0) {
        assert((one + set).skip(1) =~= set);
    } else {
        let rest = placed(set.skip(1), name, target);
        assert((seq![set[0]] + rest).skip(1) =~= rest);
        lemma_placed(set.skip(1), name, target, asked);
    }
}

proof fn lemma_placed_first(set: Seq<(Seq<char>, Seq<char>)>, name: Seq<char>, target: Seq<char>, low: Seq<char>)
    requires
        forall|i: int| 0 <= i < set.len() ==> at_or_before(low, #[trigger] set[i].0) && low != set[i].0,
        at_or_before(low, name),
        low != name,
    ensures
        forall|i: int|
            0 <= i < placed(set, name, target).len() ==> at_or_before(
                low,
                #[trigger] placed(set, name, target)[i].0,
            ) && low != placed(set, name, target)[i].0,
    decreases set.len(),
{
    let after = placed(set, name, target);
    if set.len() > 0 && set[0].0 != name && !at_or_before(name, set[0].0) {
        let rest = set.skip(1);
        assert forall|i: int| 0 <= i < rest.len() implies at_or_before(low, #[trigger] rest[i].0)
            && low != rest[i].0 by {
            assert(rest[i] == set[i + 1]);
        }
        lemma_placed_first(rest, name, target, low);
        assert forall|i: int| 0 <= i < after.len() implies at_or_before(
            low,
            #[trigger] after[i].0,
        ) && low != after[i].0 by {
            if i > 0 {
                assert(after[i] == placed(rest, name, target)[i - 1]);
            } else {
                assert(after[0] == set[0]);
            }
        }
    } else {
        assert forall|i: int| 0 <= i < after.len() implies at_or_before(
            low,
            #[trigger] after[i].0,
        ) && low != after[i].0 by {
            if i > 0 {
                if set[0].0 == name {
                    assert(after[i] == set[i]);
                } else {
                    assert(after[i] == set[i - 1]);
                }
            }
        }
    }
}

proof fn lemma_antisymmetric(a: Seq<char>, b: Seq<char>)
    requires
        at_or_before(a, b),
        at_or_before(b, a),
    ensures
        a == b,
    decreases a.len(),
{
    if a.len() == 0 || b.len() == 0 {
        assert(a =~= b);
    } else {
        lemma_antisymmetric(a.skip(1), b.skip(1));
        assert(a =~= seq![a[0]] + a.skip(1));
        assert(b =~= seq![b[0]] + b.skip(1));
    }
}

proof fn lemma_placed_ascending(
    set: Seq<(Seq<char>, Seq<char>)>,
    name: Seq<char>,
    target: Seq<char>,
)
    requires
        is_ascending(set),
    ensures
        is_ascending(placed(set, name, target)),
    decreases set.len(),
{
    let after = placed(set, name, target);
    if set.len() == 0 {
    } else if set[0].0 == name {
        assert forall|i: int, j: int| 0 <= i < j < after.len() implies at_or_before(
            #[trigger] after[i].0,
            #[trigger] after[j].0,
        ) && after[i].0 != after[j].0 by {
            assert(after[j].0 == set[j].0);
            assert(after[i].0 == set[i].0);
        }
    } else if at_or_before(name, set[0].0) {
        assert forall|i: int, j: int| 0 <= i < j < after.len() implies at_or_before(
            #[trigger] after[i].0,
            #[trigger] after[j].0,
        ) && after[i].0 != after[j].0 by {
            assert(after[j] == set[j - 1]);
            if i > 0 {
                assert(after[i] == set[i - 1]);
            } else if j > 1 {
                assert(at_or_before(set[0].0, set[j - 1].0));
                lemma_order_is_transitive(name, set[0].0, set[j - 1].0);
                if name == set[j - 1].0 {
                    lemma_antisymmetric(name, set[0].0);
                }
            }
        }
    } else {
        let rest = set.skip(1);
        let low = set[0].0;
        assert forall|i: int, j: int| 0 <= i < j < rest.len() implies at_or_before(
            #[trigger] rest[i].0,
            #[trigger] rest[j].0,
        ) && rest[i].0 != rest[j].0 by {
            assert(rest[i] == set[i + 1]);
            assert(rest[j] == set[j + 1]);
        }
        lemma_placed_ascending(rest, name, target);
        lemma_order_is_total(low, name);
        assert forall|i: int| 0 <= i < rest.len() implies at_or_before(low, #[trigger] rest[i].0)
            && low != rest[i].0 by {
            assert(rest[i] == set[i + 1]);
            assert(at_or_before(set[0].0, set[i + 1].0));
        }
        lemma_placed_first(rest, name, target, low);
        let tail = placed(rest, name, target);
        assert forall|i: int, j: int| 0 <= i < j < after.len() implies at_or_before(
            #[trigger] after[i].0,
            #[trigger] after[j].0,
        ) && after[i].0 != after[j].0 by {
            assert(after[j] == tail[j - 1]);
            if i > 0 {
                assert(after[i] == tail[i - 1]);
            }
        }
    }
}

/// The directory is the set: a name is in it exactly where the directory has an entry of that
/// name that leads somewhere, and leads where that does; the names come in their order, each once.
pub proof fn law_the_directory_is_the_set(
    found: Seq<(Seq<char>, Option<Seq<char>>)>,
    name: Seq<char>,
)
    ensures
        target_in(set_of(found), name) == leads_to(found, name),
        is_ascending(set_of(found)),
    decreases found.len(),
{
    if found.len() > 0 {
        law_the_directory_is_the_set(found.drop_last(), name);
        let before = set_of(found.drop_last());
        if let Some(target) = found.last().1 {
            lemma_placed(before, found.last().0, target, name);
            lemma_placed_ascending(before, found.last().0, target);
        }
    }
}

// ------------------------------------------------------------------------------- removing

/// What becomes of an entry of the directory where named ones are removed.
#[derive(Debug, Clone, Copy, PartialEq, Eq, Structural)]
pub enum Clearing {
    /// It was not named: its owner is whoever manages next.
    Leave,
    /// It is a link of ours.
    Remove,
    /// It was put there by hand and is not ours to delete.
    Spare,
}

/// What becomes of an entry of the directory where named ones are removed: only those that were
/// named, and of those only the links.
pub fn clear(names: &Vec<String>, entry: &str, is_link: bool) -> (r: Clearing)
    ensures
        r == (if !texts(names@).contains(entry@) {
            Clearing::Leave
        } else if is_link {
            Clearing::Remove
        } else {
            Clearing::Spare
        }),
{
    match position_of(names, entry) {
        Some(at) => {
            assert(texts(names@)[at as int] == entry@);
            if is_link {
                Clearing::Remove
            } else {
                Clearing::Spare
            }
        },
        None => Clearing::Leave,
    }
}

// ------------------------------------------------------------------------------- the lock

/// Who manages the active set.
#[derive(Debug, Clone, Copy, PartialEq, Eq, Structural)]
pub enum Custody {
    /// This process took the lock and must manage.
    Ours,
    /// A live manager already runs; the number of its process, for the report.
    Theirs(u32),
}

/// The number of a process that a file names.
pub open spec fn pid_in(text: Option<Seq<char>>) -> Option<u32> {
    match text {
        None => None,
        Some(text) => match number_value(trimmed(text), u32::MAX as nat) {
            Some(pid) => Some(pid as u32),
            None => None,
        },
    }
}

/// The number of a process that a file names, where it could be read.
pub fn read_pid(text: &Option<String>) -> (r: Option<u32>)
    ensures
        r == pid_in(text_of_option(*text)),
{
    match text {
        None => None,
        Some(text) => match number_of(trim(text.as_str()).as_str(), 4_294_967_295) {
            Some(pid) => Some(pid as u32),
            None => None,
        },
    }
}

/// Whose the set is: it goes by who holds the lock, and what the lock file says is only a label.
pub fn custody(locked: bool, label: &Option<String>) -> (r: Custody)
    ensures
        r == (if locked {
            Custody::Ours
        } else {
            match pid_in(text_of_option(*label)) {
                Some(pid) => Custody::Theirs(pid),
                None => Custody::Theirs(0),
            }
        }),
{
    if locked {
        return Custody::Ours;
    }
    match read_pid(label) {
        Some(pid) => Custody::Theirs(pid),
        None => Custody::Theirs(0),
    }
}

/// What came of probing the lock with a shared one.
#[derive(Debug, Clone, Copy, PartialEq, Eq, Structural)]
pub enum Probe {
    /// There is no lock file.
    Absent,
    /// Nobody holds the lock.
    Free,
    /// Someone holds it.
    Held,
}

/// The manager that holds the lock, if one does: a live process that the file names is not a
/// manager unless the lock is held.
pub fn lock_holder(probe: Probe, label: &Option<String>) -> (r: Option<u32>)
    ensures
        r == (if probe is Held {
            pid_in(text_of_option(*label))
        } else {
            None
        }),
{
    match probe {
        Probe::Held => read_pid(label),
        _ => None,
    }
}

/// The manager that is tearing down, if one says that it is.
pub fn stopping_at(marked: bool, label: &Option<String>) -> (r: Option<u32>)
    ensures
        r == (if !marked {
            None
        } else {
            match pid_in(text_of_option(*label)) {
                Some(pid) => Some(pid),
                None => Some(0),
            }
        }),
{
    if !marked {
        return None;
    }
    match read_pid(label) {
        Some(pid) => Some(pid),
        None => Some(0),
    }
}

/// What an apply does about a teardown.
#[derive(Debug, Clone, Copy, PartialEq, Eq, Structural)]
pub enum Teardown {
    /// There is none: go on.
    Nothing,
    /// The manager that began it is gone: drop its marker and go on.
    Stale,
    /// It is under way: wait and look again.
    Wait,
}

/// What an apply does about a teardown: one that is under way is waited for, and a marker whose
/// manager is gone is dropped.
pub fn see_teardown(stopping: Option<u32>, manager: Option<u32>) -> (r: Teardown)
    ensures
        r == (if stopping is None {
            Teardown::Nothing
        } else if manager is None {
            Teardown::Stale
        } else {
            Teardown::Wait
        }),
{
    match (stopping, manager) {
        (None, _) => Teardown::Nothing,
        (Some(_), None) => Teardown::Stale,
        (Some(_), Some(_)) => Teardown::Wait,
    }
}

} // verus!
