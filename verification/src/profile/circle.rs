//! Bindings that would set each other off in a circle.
//!
//! What a binding sends passes through the grabs like any other key, so one binding can fire
//! another, in its own profile or in another one. A circle of those never comes to rest.
use vstd::prelude::*;

use crate::input::{
    both, class_of, decorates, no_mods, remove_last, without_last, Holdable, Key, Mods,
};
use crate::text::texts;

use super::claims::Signature;
use super::model::{
    lemma_push_contains, steps_view, target_mods, wanted, Action, ActionModel, Bind, BindModel,
    Profile, Step, StepModel,
};
use super::run::{fires, trigger_matches};

verus! {

// ---------------------------------------------------------------------- circles in a graph

/// Whether a table of edges is square.
pub open spec fn is_square(edges: Seq<Vec<bool>>) -> bool {
    forall|i: int| 0 <= i < edges.len() ==> (#[trigger] edges[i])@.len() == edges.len()
}

/// Whether an edge leads from one node to another.
pub open spec fn leads(edges: Seq<Vec<bool>>, from: int, to: int) -> bool {
    0 <= from < edges.len() && 0 <= to < edges.len() && edges[from]@[to]
}

/// The place after one on a circle.
pub open spec fn after_on(path: Seq<int>, i: int) -> int {
    if i + 1 < path.len() {
        path[i + 1]
    } else {
        path[0]
    }
}

/// Whether a path of nodes goes round in a circle.
pub open spec fn is_circle(edges: Seq<Vec<bool>>, path: Seq<int>) -> bool {
    &&& path.len() > 0
    &&& forall|i: int| 0 <= i < path.len() ==> leads(edges, #[trigger] path[i], after_on(path, i))
}

/// The indices of a path.
pub open spec fn indices(path: Seq<usize>) -> Seq<int> {
    path.map_values(|i: usize| i as int)
}

/// The first node that is alive and that an edge leads to.
fn live_successor(edges: &Vec<Vec<bool>>, alive: &Vec<bool>, from: usize) -> (r: Option<usize>)
    requires
        is_square(edges@),
        alive@.len() == edges@.len(),
        from < edges@.len(),
    ensures
        match r {
            Some(to) => leads(edges@, from as int, to as int) && alive@[to as int],
            None => forall|to: int| leads(edges@, from as int, to) ==> !alive@[to],
        },
{
    let mut to: usize = 0;
    while to < edges.len()
        invariant
            to <= edges@.len(),
            is_square(edges@),
            alive@.len() == edges@.len(),
            from < edges@.len(),
            forall|k: int| 0 <= k < to && leads(edges@, from as int, k) ==> !alive@[k],
        decreases edges@.len() - to,
    {
        assert(edges@[from as int]@.len() == edges@.len());
        if edges[from][to] && alive[to] {
            return Some(to);
        }
        to += 1;
    }
    None
}

/// How many of the first nodes are alive.
spec fn living(alive: Seq<bool>) -> nat
    decreases alive.len(),
{
    if alive.len() == 0 {
        0
    } else {
        living(alive.drop_last()) + (if alive.last() {
            1nat
        } else {
            0
        })
    }
}

proof fn lemma_living_update(alive: Seq<bool>, i: int)
    requires
        0 <= i < alive.len(),
        alive[i],
    ensures
        living(alive.update(i, false)) + 1 == living(alive),
    decreases alive.len(),
{
    let after = alive.update(i, false);
    if i == alive.len() - 1 {
        assert(after.drop_last() =~= alive.drop_last());
    } else {
        assert(after.drop_last() =~= alive.drop_last().update(i, false));
        lemma_living_update(alive.drop_last(), i);
    }
}

/// The nodes of every circle are alive.
spec fn spares_circles(edges: Seq<Vec<bool>>, alive: Seq<bool>) -> bool {
    forall|path: Seq<int>, i: int|
        #![trigger is_circle(edges, path), path[i]]
        is_circle(edges, path) && 0 <= i < path.len() ==> alive[path[i]]
}

/// Takes away one node that leads to nothing alive, if there is one.
fn wither(edges: &Vec<Vec<bool>>, alive: &mut Vec<bool>) -> (changed: bool)
    requires
        is_square(edges@),
        old(alive)@.len() == edges@.len(),
        spares_circles(edges@, old(alive)@),
    ensures
        final(alive)@.len() == edges@.len(),
        spares_circles(edges@, final(alive)@),
        changed ==> living(final(alive)@) < living(old(alive)@),
        !changed ==> final(alive)@ == old(alive)@,
        !changed ==> forall|i: int|
            0 <= i < final(alive)@.len() && #[trigger] final(alive)@[i] ==> exists|to: int|
                leads(edges@, i, to) && #[trigger] final(alive)@[to],
{
    let mut i: usize = 0;
    while i < edges.len()
        invariant
            i <= edges@.len(),
            is_square(edges@),
            alive@ == old(alive)@,
            alive@.len() == edges@.len(),
            spares_circles(edges@, alive@),
            forall|k: int|
                0 <= k < i && #[trigger] alive@[k] ==> exists|to: int|
                    leads(edges@, k, to) && #[trigger] alive@[to],
        decreases edges@.len() - i,
    {
        if alive[i] {
            match live_successor(edges, alive, i) {
                Some(to) => {
                    assert(leads(edges@, i as int, to as int) && alive@[to as int]);
                },
                None => {
                    let ghost before = alive@;
                    alive.set(i, false);
                    proof {
                        lemma_living_update(before, i as int);
                        assert forall|path: Seq<int>, k: int|
                            #![trigger is_circle(edges@, path), path[k]]
                            is_circle(edges@, path) && 0 <= k < path.len() implies alive@[path[k]] by {
                            assert(before[path[k]]);
                            assert(leads(edges@, path[k], after_on(path, k)));
                            let next = if k + 1 < path.len() {
                                k + 1
                            } else {
                                0
                            };
                            assert(before[path[next]]);
                            if path[k] == i {
                                assert(leads(edges@, i as int, path[next]));
                            }
                        }
                    }
                    return true;
                },
            }
        }
        i += 1;
    }
    false
}

/// The first node that is alive.
fn first_alive(alive: &Vec<bool>) -> (r: Option<usize>)
    ensures
        match r {
            Some(i) => i < alive@.len() && alive@[i as int],
            None => forall|i: int| 0 <= i < alive@.len() ==> !alive@[i],
        },
{
    let mut i: usize = 0;
    while i < alive.len()
        invariant
            i <= alive@.len(),
            forall|k: int| 0 <= k < i ==> !alive@[k],
        decreases alive@.len() - i,
    {
        if alive[i] {
            return Some(i);
        }
        i += 1;
    }
    None
}

/// Where a node stands on a path.
fn place_on(path: &Vec<usize>, node: usize) -> (r: Option<usize>)
    ensures
        match r {
            Some(i) => i < path@.len() && path@[i as int] == node,
            None => !path@.contains(node),
        },
{
    let mut i: usize = 0;
    while i < path.len()
        invariant
            i <= path@.len(),
            forall|k: int| 0 <= k < i ==> path@[k] != node,
        decreases path@.len() - i,
    {
        if path[i] == node {
            return Some(i);
        }
        i += 1;
    }
    None
}

proof fn lemma_short_path(path: Seq<usize>, n: nat)
    requires
        path.no_duplicates(),
        forall|i: int| 0 <= i < path.len() ==> path[i] < n,
    ensures
        path.len() <= n,
{
    let ints = indices(path);
    assert(ints.no_duplicates()) by {
        assert forall|i: int, j: int| 0 <= i < ints.len() && 0 <= j < ints.len() && i != j implies
            ints[i] != ints[j] by {
            assert(path[i] != path[j]);
        }
    }
    ints.unique_seq_to_set();
    vstd::set_lib::lemma_int_range(0, n as int);
    let range = vstd::set_lib::set_int_range(0, n as int);
    assert(ints.to_set().subset_of(range)) by {
        assert forall|x: int| ints.to_set().contains(x) implies range.contains(x) by {
            assert(ints.contains(x));
            let i = choose|i: int| 0 <= i < ints.len() && ints[i] == x;
            assert(path[i] < n);
        }
    }
    vstd::set_lib::lemma_len_subset(ints.to_set(), range);
}

/// Finds a circle in a graph; there is none exactly where none is found.
pub fn find_circle(edges: &Vec<Vec<bool>>) -> (r: Option<Vec<usize>>)
    requires
        is_square(edges@),
    ensures
        match r {
            Some(path) => is_circle(edges@, indices(path@)),
            None => forall|path: Seq<int>| !is_circle(edges@, path),
        },
{
    let mut alive: Vec<bool> = Vec::new();
    let mut n: usize = 0;
    while n < edges.len()
        invariant
            n <= edges@.len(),
            alive@.len() == n,
            forall|i: int| 0 <= i < n ==> alive@[i],
        decreases edges@.len() - n,
    {
        alive.push(true);
        n += 1;
    }
    proof {
        assert forall|path: Seq<int>, i: int|
            #![trigger is_circle(edges@, path), path[i]]
            is_circle(edges@, path) && 0 <= i < path.len() implies alive@[path[i]] by {
            assert(leads(edges@, path[i], after_on(path, i)));
        }
    }
    let mut changed = true;
    while changed
        invariant
            is_square(edges@),
            alive@.len() == edges@.len(),
            spares_circles(edges@, alive@),
            !changed ==> forall|i: int|
                0 <= i < alive@.len() && #[trigger] alive@[i] ==> exists|to: int|
                    leads(edges@, i, to) && #[trigger] alive@[to],
        decreases living(alive@), (if changed {
            1int
        } else {
            0
        }),
    {
        changed = wither(edges, &mut alive);
    }
    match first_alive(&alive) {
        None => {
            proof {
                assert forall|path: Seq<int>| !is_circle(edges@, path) by {
                    if is_circle(edges@, path) {
                        assert(leads(edges@, path[0], after_on(path, 0)));
                        assert(alive@[path[0]]);
                    }
                }
            }
            None
        },
        Some(start) => Some(walk(edges, &alive, start)),
    }
}

/// Walks along edges between living nodes until the path meets itself, and gives the part that
/// goes round.
fn walk(edges: &Vec<Vec<bool>>, alive: &Vec<bool>, start: usize) -> (r: Vec<usize>)
    requires
        is_square(edges@),
        alive@.len() == edges@.len(),
        start < alive@.len(),
        alive@[start as int],
        forall|i: int|
            0 <= i < alive@.len() && #[trigger] alive@[i] ==> exists|to: int|
                leads(edges@, i, to) && #[trigger] alive@[to],
    ensures
        is_circle(edges@, indices(r@)),
{
    let mut path: Vec<usize> = Vec::new();
    path.push(start);
    loop
        invariant
            is_square(edges@),
            alive@.len() == edges@.len(),
            path@.len() > 0,
            path@.no_duplicates(),
            forall|i: int| 0 <= i < path@.len() ==> path@[i] < edges@.len(),
            alive@[path@.last() as int],
            forall|i: int|
                0 <= i < path@.len() - 1 ==> leads(
                    edges@,
                    #[trigger] path@[i] as int,
                    path@[i + 1] as int,
                ),
            forall|i: int|
                0 <= i < alive@.len() && #[trigger] alive@[i] ==> exists|to: int|
                    leads(edges@, i, to) && #[trigger] alive@[to],
        decreases edges@.len() - path@.len(),
    {
        let last = path[path.len() - 1];
        match live_successor(edges, alive, last) {
            None => {
                proof {
                    assert(alive@[last as int]);
                    let to = choose|to: int| leads(edges@, last as int, to) && #[trigger] alive@[to];
                    assert(!alive@[to]);
                    assert(false);
                }
                return path;
            },
            Some(next) => {
                match place_on(&path, next) {
                    Some(k) => {
                        let mut round: Vec<usize> = Vec::new();
                        let mut i: usize = k;
                        while i < path.len()
                            invariant
                                k <= i <= path@.len(),
                                round@ == path@.subrange(k as int, i as int),
                            decreases path@.len() - i,
                        {
                            round.push(path[i]);
                            i += 1;
                            assert(round@ =~= path@.subrange(k as int, i as int));
                        }
                        proof {
                            let c = indices(round@);
                            assert forall|i: int| 0 <= i < c.len() implies leads(
                                edges@,
                                #[trigger] c[i],
                                after_on(c, i),
                            ) by {
                                assert(c[i] == path@[k + i]);
                                if i + 1 < c.len() {
                                    assert(leads(edges@, path@[k + i] as int, path@[k + i + 1] as int));
                                }
                            }
                        }
                        return round;
                    },
                    None => {
                        let ghost before = path@;
                        path.push(next);
                        proof {
                            lemma_short_path(before, edges@.len());
                            assert forall|i: int, j: int|
                                0 <= i < path@.len() && 0 <= j < path@.len() && i != j implies path@[i]
                                != path@[j] by {
                                if i < before.len() && j < before.len() {
                                    assert(before[i] != before[j]);
                                } else if i < before.len() {
                                    assert(before.contains(before[i]));
                                } else {
                                    assert(before.contains(before[j]));
                                }
                            }
                            lemma_short_path(path@, edges@.len());
                        }
                    },
                }
            },
        }
    }
}

// ------------------------------------------------------------------------ what a binding sends

/// The triggers that pressing a list of inputs together amounts to, with modifiers standing from
/// before: each ordinary key as it goes down, with what was pressed before it, and as it repeats
/// once the whole list is down.
pub open spec fn struck(targets: Seq<Holdable>, standing: Mods, n: int) -> Seq<Signature>
    decreases n,
{
    if n <= 0 {
        seq![]
    } else {
        let before = struck(targets, standing, n - 1);
        match targets[n - 1] {
            Holdable::Key(key) => if decorates(key) {
                before
            } else {
                before.push((key, both(standing, wanted(targets.take(n - 1))))).push(
                    (key, both(standing, wanted(targets))),
                )
            },
            Holdable::Button(_) => before,
        }
    }
}

/// The triggers that a sequence amounts to, and what it still presses afterwards.
pub open spec fn sequence_strikes(steps: Seq<StepModel>) -> (Seq<Signature>, Seq<Holdable>)
    decreases steps.len(),
{
    if steps.len() == 0 {
        (seq![], seq![])
    } else {
        let (out, held) = sequence_strikes(steps.drop_last());
        match steps.last() {
            StepModel::Tap(targets) => (
                out + struck(targets, wanted(held), targets.len() as int),
                held,
            ),
            StepModel::Hold(targets) => (
                out + struck(targets, wanted(held), targets.len() as int),
                held + targets,
            ),
            StepModel::Release(targets) => (out, without_all(held, targets)),
            _ => (out, held),
        }
    }
}

/// A ledger after releasing a list, one after the other.
pub open spec fn without_all(held: Seq<Holdable>, targets: Seq<Holdable>) -> Seq<Holdable>
    decreases targets.len(),
{
    if targets.len() == 0 {
        held
    } else {
        without_last(without_all(held, targets.drop_last()), targets.last())
    }
}

/// The triggers that what a binding sends amounts to.
pub open spec fn strikes(bind: BindModel) -> Seq<Signature> {
    match bind.action {
        ActionModel::Mirror(targets) => struck(
            targets,
            no_mods(),
            targets.len() as int,
        ),
        ActionModel::Sequence(steps) => sequence_strikes(steps).0,
    }
}

/// Whether what one binding sends fires another.
pub open spec fn feeds(a: BindModel, b: BindModel) -> bool {
    exists|i: int|
        0 <= i < strikes(a).len() && fires(b, (#[trigger] strikes(a)[i]).0, strikes(a)[i].1)
}

/// The modifier classes of a list with one more input at its end.
pub proof fn lemma_wanted_push(list: Seq<Holdable>, input: Holdable)
    ensures
        wanted(list.push(input)) == both(
            wanted(list),
            match input {
                Holdable::Key(key) => class_of(key),
                Holdable::Button(_) => no_mods(),
            },
        ),
{
    lemma_push_contains(list, input, Holdable::Key(Key::LeftShift));
    lemma_push_contains(list, input, Holdable::Key(Key::RightShift));
    lemma_push_contains(list, input, Holdable::Key(Key::LeftCtrl));
    lemma_push_contains(list, input, Holdable::Key(Key::RightCtrl));
    lemma_push_contains(list, input, Holdable::Key(Key::LeftAlt));
    lemma_push_contains(list, input, Holdable::Key(Key::RightAlt));
    lemma_push_contains(list, input, Holdable::Key(Key::LeftMeta));
    lemma_push_contains(list, input, Holdable::Key(Key::RightMeta));
}

fn join(a: Mods, b: Mods) -> (r: Mods)
    ensures
        r == both(a, b),
{
    Mods {
        shift: a.shift || b.shift,
        ctrl: a.ctrl || b.ctrl,
        alt: a.alt || b.alt,
        ralt: a.ralt || b.ralt,
        meta: a.meta || b.meta,
    }
}

fn push_struck(out: &mut Vec<Signature>, targets: &Vec<Holdable>, standing: Mods)
    ensures
        final(out)@ == old(out)@ + struck(targets@, standing, targets@.len() as int),
{
    let joint = join(standing, target_mods(targets));
    let mut so_far: Mods = standing;
    let mut i: usize = 0;
    assert(out@ =~= old(out)@ + struck(targets@, standing, 0));
    assert(targets@.take(0) =~= seq![]);
    while i < targets.len()
        invariant
            i <= targets@.len(),
            joint == both(standing, wanted(targets@)),
            so_far == both(standing, wanted(targets@.take(i as int))),
            out@ == old(out)@ + struck(targets@, standing, i as int),
        decreases targets@.len() - i,
    {
        proof {
            assert(targets@.take(i + 1) =~= targets@.take(i as int).push(targets@[i as int]));
            lemma_wanted_push(targets@.take(i as int), targets@[i as int]);
        }
        match targets[i] {
            Holdable::Key(key) => match Mods::of_key(key) {
                Some(class) => {
                    so_far = join(so_far, class);
                },
                None => {
                    out.push((key, so_far));
                    out.push((key, joint));
                },
            },
            Holdable::Button(_) => {},
        }
        i += 1;
        assert(out@ =~= old(out)@ + struck(targets@, standing, i as int));
    }
}

fn strikes_of(bind: &Bind) -> (out: Vec<Signature>)
    ensures
        out@ == strikes(bind@),
{
    let mut out: Vec<Signature> = Vec::new();
    match &bind.action {
        Action::Mirror(targets) => {
            push_struck(&mut out, targets, Mods::none());
            assert(out@ =~= strikes(bind@));
        },
        Action::Sequence(steps) => {
            let ghost model = steps_view(steps@);
            let mut held: Vec<Holdable> = Vec::new();
            let mut i: usize = 0;
            assert(model.take(0) =~= seq![]);
            while i < steps.len()
                invariant
                    i <= steps@.len(),
                    model == steps_view(steps@),
                    sequence_strikes(model.take(i as int)) == (out@, held@),
                decreases steps@.len() - i,
            {
                proof {
                    assert(model.take(i + 1).drop_last() =~= model.take(i as int));
                    assert(model.take(i + 1).last() == steps@[i as int]@);
                }
                match &steps[i] {
                    Step::Tap(targets) => {
                        let standing = target_mods(&held);
                        push_struck(&mut out, targets, standing);
                    },
                    Step::Hold(targets) => {
                        let standing = target_mods(&held);
                        push_struck(&mut out, targets, standing);
                        push_all(&mut held, targets);
                    },
                    Step::Release(targets) => {
                        remove_all(&mut held, targets);
                    },
                    _ => {},
                }
                i += 1;
            }
            assert(model.take(model.len() as int) =~= model);
        },
    }
    out
}

fn push_all(held: &mut Vec<Holdable>, targets: &Vec<Holdable>)
    ensures
        final(held)@ == old(held)@ + targets@,
{
    let mut i: usize = 0;
    assert(held@ =~= old(held)@ + targets@.take(0));
    while i < targets.len()
        invariant
            i <= targets@.len(),
            held@ == old(held)@ + targets@.take(i as int),
        decreases targets@.len() - i,
    {
        held.push(targets[i]);
        i += 1;
        assert(held@ =~= old(held)@ + targets@.take(i as int));
    }
    assert(targets@.take(targets@.len() as int) =~= targets@);
}

fn remove_all(held: &mut Vec<Holdable>, targets: &Vec<Holdable>)
    ensures
        final(held)@ == without_all(old(held)@, targets@),
{
    let mut i: usize = 0;
    assert(targets@.take(0) =~= seq![]);
    while i < targets.len()
        invariant
            i <= targets@.len(),
            held@ == without_all(old(held)@, targets@.take(i as int)),
        decreases targets@.len() - i,
    {
        remove_last(held, targets[i]);
        i += 1;
        assert(targets@.take(i as int).drop_last() =~= targets@.take(i - 1));
        assert(targets@.take(i as int).last() == targets@[i - 1]);
    }
    assert(targets@.take(targets@.len() as int) =~= targets@);
}

fn does_feed(sent: &Vec<Signature>, b: &Bind, Ghost(a): Ghost<BindModel>) -> (r: bool)
    requires
        sent@ == strikes(a),
    ensures
        r == feeds(a, b@),
{
    let mut i: usize = 0;
    while i < sent.len()
        invariant
            i <= sent@.len(),
            sent@ == strikes(a),
            forall|k: int|
                0 <= k < i ==> !fires(b@, (#[trigger] strikes(a)[k]).0, strikes(a)[k].1),
        decreases sent@.len() - i,
    {
        if trigger_matches(&b.trigger, sent[i].0, sent[i].1) {
            assert(fires(b@, strikes(a)[i as int].0, strikes(a)[i as int].1));
            return true;
        }
        i += 1;
    }
    false
}

// --------------------------------------------------------------------------- trigger circles

/// A profile with its name.
pub struct Named<'a> {
    pub name: &'a str,
    pub profile: &'a Profile,
}

/// A binding with the name of its profile.
pub open spec fn bindings_of(profiles: Seq<Named<'_>>) -> Seq<(Seq<char>, BindModel)>
    decreases profiles.len(),
{
    if profiles.len() == 0 {
        seq![]
    } else {
        let last = profiles.last();
        bindings_of(profiles.drop_last()) + last.profile@.binds.map_values(
            |bind: BindModel| (last.name@, bind),
        )
    }
}

/// What a binding is called among several profiles.
pub open spec fn place_name(name: Seq<char>, bind: BindModel) -> Seq<char> {
    name + "::"@ + bind.trigger_text
}

/// Whether places of a list of bindings go round in a circle, each feeding the next.
pub open spec fn feeds_round(all: Seq<(Seq<char>, BindModel)>, path: Seq<int>) -> bool {
    &&& path.len() > 0
    &&& forall|i: int|
        0 <= i < path.len() ==> 0 <= #[trigger] path[i] < all.len() && 0 <= after_on(path, i)
            < all.len() && feeds(all[path[i]].1, all[after_on(path, i)].1)
}

/// The bindings of profiles with their names, one list each.
pub open spec fn lists_bindings(
    names: Seq<String>,
    binds: Seq<&Bind>,
    all: Seq<(Seq<char>, BindModel)>,
) -> bool {
    &&& names.len() == all.len()
    &&& binds.len() == all.len()
    &&& forall|i: int| 0 <= i < all.len() ==> (#[trigger] binds[i])@ == all[i].1
    &&& forall|i: int|
        0 <= i < all.len() ==> (#[trigger] names[i])@ == place_name(all[i].0, all[i].1)
}

fn push_bindings<'a>(names: &mut Vec<String>, binds: &mut Vec<&'a Bind>, named: &Named<'a>, Ghost(
    before,
): Ghost<Seq<(Seq<char>, BindModel)>>)
    requires
        lists_bindings(old(names)@, old(binds)@, before),
    ensures
        lists_bindings(
            final(names)@,
            final(binds)@,
            before + named.profile@.binds.map_values(|bind: BindModel| (named.name@, bind)),
        ),
{
    let profile = named.profile;
    let ghost mine = profile@.binds.map_values(|bind: BindModel| (named.name@, bind));
    let mut b: usize = 0;
    assert(before + mine.take(0) =~= before);
    while b < profile.binds.len()
        invariant
            b <= profile.binds@.len(),
            profile == named.profile,
            mine == profile@.binds.map_values(|bind: BindModel| (named.name@, bind)),
            lists_bindings(names@, binds@, before + mine.take(b as int)),
        decreases profile.binds@.len() - b,
    {
        let mut name: String = named.name.to_owned();
        name.append("::");
        name.append(profile.binds[b].trigger_text.as_str());
        let ghost old_names = names@;
        let ghost old_binds = binds@;
        let ghost old_all = before + mine.take(b as int);
        names.push(name);
        binds.push(&profile.binds[b]);
        proof {
            let all = before + mine.take(b + 1);
            assert(mine[b as int] == (named.name@, profile.binds@[b as int]@));
            assert(all =~= old_all.push(mine[b as int]));
            assert forall|i: int| 0 <= i < all.len() implies (#[trigger] binds@[i])@ == all[i].1 by {
                if i < old_all.len() {
                    assert(old_binds[i]@ == old_all[i].1);
                }
            }
            assert forall|i: int| 0 <= i < all.len() implies (#[trigger] names@[i])@ == place_name(
                all[i].0,
                all[i].1,
            ) by {
                if i < old_all.len() {
                    assert(old_names[i]@ == place_name(old_all[i].0, old_all[i].1));
                }
            }
        }
        b += 1;
    }
    assert(mine.take(mine.len() as int) =~= mine);
}

proof fn lemma_circles_agree(
    edges: Seq<Vec<bool>>,
    names: Seq<String>,
    binds: Seq<&Bind>,
    all: Seq<(Seq<char>, BindModel)>,
    path: Seq<int>,
)
    requires
        lists_bindings(names, binds, all),
        edges.len() == binds.len(),
        forall|i: int, j: int|
            0 <= i < binds.len() && 0 <= j < binds.len() ==> #[trigger] edges[i]@[j] == feeds(
                binds[i]@,
                binds[j]@,
            ),
    ensures
        is_circle(edges, path) == feeds_round(all, path),
{
    if is_circle(edges, path) {
        assert forall|i: int| 0 <= i < path.len() implies 0 <= #[trigger] path[i] < all.len() && 0
            <= after_on(path, i) < all.len() && feeds(
            all[path[i]].1,
            all[after_on(path, i)].1,
        ) by {
            assert(leads(edges, path[i], after_on(path, i)));
            assert(binds[path[i]]@ == all[path[i]].1);
            assert(binds[after_on(path, i)]@ == all[after_on(path, i)].1);
            assert(edges[path[i]]@[after_on(path, i)]);
        }
    }
    if feeds_round(all, path) {
        assert forall|i: int| 0 <= i < path.len() implies leads(
            edges,
            #[trigger] path[i],
            after_on(path, i),
        ) by {
            assert(binds[path[i]]@ == all[path[i]].1);
            assert(binds[after_on(path, i)]@ == all[after_on(path, i)].1);
            assert(edges[path[i]]@[after_on(path, i)] == feeds(
                binds[path[i]]@,
                binds[after_on(path, i)]@,
            ));
        }
    }
}

/// The names of the places of a path.
pub open spec fn names_along(all: Seq<(Seq<char>, BindModel)>, path: Seq<int>) -> Seq<Seq<char>> {
    path.map_values(|i: int| place_name(all[i].0, all[i].1))
}

fn name_places(names: &Vec<String>, path: &Vec<usize>, Ghost(all): Ghost<
    Seq<(Seq<char>, BindModel)>,
>) -> (out: Vec<String>)
    requires
        names@.len() == all.len(),
        forall|i: int|
            0 <= i < all.len() ==> (#[trigger] names@[i])@ == place_name(all[i].0, all[i].1),
        feeds_round(all, indices(path@)),
    ensures
        texts(out@) == names_along(all, indices(path@)),
{
    let mut out: Vec<String> = Vec::new();
    let mut i: usize = 0;
    let ghost round = indices(path@);
    let ghost meant = names_along(all, round);
    assert(texts(out@) =~= meant.take(0));
    while i < path.len()
        invariant
            i <= path@.len(),
            round == indices(path@),
            meant == names_along(all, round),
            feeds_round(all, round),
            names@.len() == all.len(),
            forall|k: int|
                0 <= k < all.len() ==> (#[trigger] names@[k])@ == place_name(all[k].0, all[k].1),
            texts(out@) == meant.take(i as int),
        decreases path@.len() - i,
    {
        assert(0 <= round[i as int] < all.len());
        let ghost before = texts(out@);
        let name = names[path[i]].clone();
        let ghost word = name@;
        out.push(name);
        i += 1;
        assert(texts(out@) =~= before.push(word));
        assert(meant.take(i as int) =~= before.push(meant[i - 1]));
    }
    assert(meant.take(meant.len() as int) =~= meant);
    out
}

/// The first circle of bindings that would set each other off, by their names; there is none
/// exactly where none is given.
pub fn trigger_cycle(profiles: &Vec<Named<'_>>) -> (r: Option<Vec<String>>)
    ensures
        match r {
            Some(names) => exists|path: Seq<int>|
                #[trigger] feeds_round(bindings_of(profiles@), path) && texts(names@)
                    == names_along(bindings_of(profiles@), path),
            None => forall|path: Seq<int>| !feeds_round(bindings_of(profiles@), path),
        },
{
    let ghost all = bindings_of(profiles@);
    let mut names: Vec<String> = Vec::new();
    let mut binds: Vec<&Bind> = Vec::new();
    let mut p: usize = 0;
    assert(profiles@.take(0) =~= seq![]);
    while p < profiles.len()
        invariant
            p <= profiles@.len(),
            lists_bindings(names@, binds@, bindings_of(profiles@.take(p as int))),
        decreases profiles@.len() - p,
    {
        push_bindings(
            &mut names,
            &mut binds,
            &profiles[p],
            Ghost(bindings_of(profiles@.take(p as int))),
        );
        proof {
            assert(profiles@.take(p + 1).drop_last() =~= profiles@.take(p as int));
            assert(profiles@.take(p + 1).last() == profiles@[p as int]);
        }
        p += 1;
    }
    assert(profiles@.take(profiles@.len() as int) =~= profiles@);
    let edges = edges_between(&binds);
    match find_circle(&edges) {
        None => {
            proof {
                assert forall|path: Seq<int>| !feeds_round(all, path) by {
                    lemma_circles_agree(edges@, names@, binds@, all, path);
                }
            }
            None
        },
        Some(path) => {
            proof {
                lemma_circles_agree(edges@, names@, binds@, all, indices(path@));
            }
            Some(name_places(&names, &path, Ghost(all)))
        },
    }
}

/// The table of which binding feeds which.
fn edges_between(binds: &Vec<&Bind>) -> (edges: Vec<Vec<bool>>)
    ensures
        is_square(edges@),
        edges@.len() == binds@.len(),
        forall|i: int, j: int|
            0 <= i < binds@.len() && 0 <= j < binds@.len() ==> #[trigger] edges@[i]@[j] == feeds(
                binds@[i]@,
                binds@[j]@,
            ),
{
    let mut edges: Vec<Vec<bool>> = Vec::new();
    let mut i: usize = 0;
    while i < binds.len()
        invariant
            i <= binds@.len(),
            edges@.len() == i,
            forall|a: int| 0 <= a < i ==> (#[trigger] edges@[a])@.len() == binds@.len(),
            forall|a: int, b: int|
                0 <= a < i && 0 <= b < binds@.len() ==> #[trigger] edges@[a]@[b] == feeds(
                    binds@[a]@,
                    binds@[b]@,
                ),
        decreases binds@.len() - i,
    {
        let sent = strikes_of(binds[i]);
        let mut row: Vec<bool> = Vec::new();
        let mut j: usize = 0;
        while j < binds.len()
            invariant
                i < binds@.len(),
                j <= binds@.len(),
                sent@ == strikes(binds@[i as int]@),
                row@.len() == j,
                forall|b: int|
                    0 <= b < j ==> #[trigger] row@[b] == feeds(binds@[i as int]@, binds@[b]@),
            decreases binds@.len() - j,
        {
            row.push(does_feed(&sent, binds[j], Ghost(binds@[i as int]@)));
            j += 1;
        }
        edges.push(row);
        i += 1;
    }
    edges
}

} // verus!
