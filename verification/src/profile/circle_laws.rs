//! What a binding is said to strike is what it sends.
use vstd::prelude::*;

use crate::input::{both, decorates, no_mods, without_last, EmitAction, Holdable, Key};

use super::block_laws::{
    act_work, closing, doing, doing_often, done, done_by, is_lost, is_program, is_under_way,
    lemma_iteration, lemma_iteration_start, lemma_lost, owes, rolled, stands, written, Around,
    Program,
};
use super::circle::{
    after_on, bindings_of, feeds, feeds_round, lemma_wanted_push, names_along, sequence_strikes,
    strikes, struck, without_all, Named,
};
use super::claims::Signature;
use super::format_laws::{balance_after, carried_by, settles};
use super::model::{primary, wanted, ActionModel, BindModel, StepModel};
use super::run::{
    asking, downs, gap_work, iterating, step_work, tap_work, ups, Context, Op, Reply, Request,
    State,
};
use super::run_laws::play;
use super::steps::releasing;
use super::work_laws::{
    ledger_after, lemma_ledger_concat, lemma_ledger_downs, lemma_ledger_ups,
};

verus! {

// ------------------------------------------------------------------------------ the trace

/// The triggers that work strikes as it is done: each press of an ordinary key, with the modifier
/// classes that are in the ledger at that moment.
pub open spec fn struck_by(held: Seq<Holdable>, work: Seq<Op>) -> Seq<Signature>
    decreases work.len(),
{
    if work.len() == 0 {
        seq![]
    } else {
        (match work[0] {
            Op::Down(Holdable::Key(key)) => if decorates(key) {
                Seq::<Signature>::empty()
            } else {
                seq![(key, wanted(held))]
            },
            _ => Seq::<Signature>::empty(),
        }) + struck_by(ledger_after(held, work.take(1)), work.skip(1))
    }
}

/// Whether whatever is in one list is in the other.
pub open spec fn within(some: Seq<Signature>, all: Seq<Signature>) -> bool {
    forall|x: Signature| #[trigger] some.contains(x) ==> all.contains(x)
}

proof fn lemma_contains_concat(a: Seq<Signature>, b: Seq<Signature>, x: Signature)
    ensures
        (a + b).contains(x) <==> a.contains(x) || b.contains(x),
{
    if a.contains(x) {
        let i = choose|i: int| 0 <= i < a.len() && a[i] == x;
        assert((a + b)[i] == x);
    }
    if b.contains(x) {
        let i = choose|i: int| 0 <= i < b.len() && b[i] == x;
        assert((a + b)[a.len() + i] == x);
    }
    if (a + b).contains(x) {
        let i = choose|i: int| 0 <= i < (a + b).len() && (a + b)[i] == x;
        if i < a.len() {
            assert(a[i] == x);
        } else {
            assert(b[i - a.len()] == x);
        }
    }
}

proof fn lemma_within_concat(
    a: Seq<Signature>,
    b: Seq<Signature>,
    c: Seq<Signature>,
    d: Seq<Signature>,
)
    requires
        within(a, c),
        within(b, d),
    ensures
        within(a + b, c + d),
{
    assert forall|x: Signature| #[trigger] (a + b).contains(x) implies (c + d).contains(x) by {
        lemma_contains_concat(a, b, x);
        lemma_contains_concat(c, d, x);
    }
}

proof fn lemma_struck_concat(held: Seq<Holdable>, a: Seq<Op>, b: Seq<Op>)
    ensures
        struck_by(held, a + b) == struck_by(held, a) + struck_by(ledger_after(held, a), b),
    decreases a.len(),
{
    if a.len() == 0 {
        assert(a + b =~= b);
        assert(struck_by(held, a) + struck_by(held, b) =~= struck_by(held, b));
    } else {
        let rest = a.skip(1);
        assert((a + b).skip(1) =~= rest + b);
        assert((a + b).take(1) =~= a.take(1));
        assert(a =~= a.take(1) + rest);
        let now = ledger_after(held, a.take(1));
        lemma_ledger_concat(held, a.take(1), rest);
        lemma_struck_concat(now, rest, b);
        assert(struck_by(held, a + b) =~= struck_by(held, a) + struck_by(ledger_after(held, a), b));
    }
}

proof fn lemma_one(held: Seq<Holdable>, op: Op)
    ensures
        ledger_after(held, seq![op]) == (match op {
            Op::Down(h) => held.push(h),
            Op::Up(h) => without_last(held, h),
            _ => held,
        }),
        struck_by(held, seq![op]) == (match op {
            Op::Down(Holdable::Key(key)) => if decorates(key) {
                Seq::<Signature>::empty()
            } else {
                seq![(key, wanted(held))]
            },
            _ => Seq::<Signature>::empty(),
        }),
{
    reveal_with_fuel(ledger_after, 2);
    reveal_with_fuel(struck_by, 2);
    assert(seq![op].skip(1) =~= seq![]);
    let none: Seq<Signature> = seq![];
    assert(struck_by(held, seq![op]) =~= (match op {
        Op::Down(Holdable::Key(key)) => if decorates(key) {
            none
        } else {
            seq![(key, wanted(held))]
        },
        _ => none,
    }));
}

proof fn lemma_wanted_concat(a: Seq<Holdable>, b: Seq<Holdable>)
    ensures
        wanted(a + b) == both(wanted(a), wanted(b)),
    decreases b.len(),
{
    if b.len() == 0 {
        assert(a + b =~= a);
    } else {
        let fewer = b.drop_last();
        assert(b =~= fewer.push(b.last()));
        assert(a + b =~= (a + fewer).push(b.last()));
        lemma_wanted_concat(a, fewer);
        lemma_wanted_push(a + fewer, b.last());
        lemma_wanted_push(fewer, b.last());
    }
}

// --------------------------------------------------------------------------------- chords

/// Pressing a chord strikes what it is said to strike.
proof fn lemma_downs_strike(held: Seq<Holdable>, targets: Seq<Holdable>, n: int)
    requires
        0 <= n <= targets.len(),
    ensures
        within(struck_by(held, downs(targets.take(n))), struck(targets, wanted(held), n)),
    decreases n,
{
    if n == 0 {
        assert(downs(targets.take(0)) =~= seq![]);
    } else {
        let before = targets.take(n - 1);
        let op = Op::Down(targets[n - 1]);
        lemma_downs_strike(held, targets, n - 1);
        assert(downs(targets.take(n)) =~= downs(before) + seq![op]);
        lemma_struck_concat(held, downs(before), seq![op]);
        lemma_ledger_downs(held, before);
        lemma_one(held + before, op);
        lemma_wanted_concat(held, before);
        let out = struck(targets, wanted(held), n - 1);
        let added = match targets[n - 1] {
            Holdable::Key(key) => if decorates(key) {
                Seq::<Signature>::empty()
            } else {
                seq![
                    (key, both(wanted(held), wanted(before))),
                    (key, both(wanted(held), wanted(targets))),
                ]
            },
            Holdable::Button(_) => Seq::<Signature>::empty(),
        };
        assert(struck(targets, wanted(held), n) =~= out + added);
        let here = struck_by(held + before, seq![op]);
        assert(within(here, added)) by {
            assert forall|x: Signature| #[trigger] here.contains(x) implies added.contains(x) by {
                assert(added[0] == x);
            }
        }
        lemma_within_concat(struck_by(held, downs(before)), here, out, added);
    }
}

proof fn lemma_ups_strike_nothing(held: Seq<Holdable>, targets: Seq<Holdable>)
    ensures
        struck_by(held, ups(targets)) == Seq::<Signature>::empty(),
        ledger_after(held, ups(targets)) == without_all(held, targets),
    decreases targets.len(),
{
    if targets.len() == 0 {
        assert(ups(targets) =~= seq![]);
    } else {
        let fewer = targets.drop_last();
        let op = Op::Up(targets.last());
        lemma_ups_strike_nothing(held, fewer);
        assert(ups(targets) =~= ups(fewer) + seq![op]);
        lemma_struck_concat(held, ups(fewer), seq![op]);
        lemma_ledger_concat(held, ups(fewer), seq![op]);
        lemma_one(without_all(held, fewer), op);
        assert(struck_by(held, ups(targets)) =~= seq![]);
    }
}

// ---------------------------------------------------------------------------------- steps

/// What a list of steps strikes, and what it still presses afterwards, where something was pressed
/// before it.
spec fn onward(held: Seq<Holdable>, steps: Seq<StepModel>) -> (Seq<Signature>, Seq<Holdable>)
    decreases steps.len(),
{
    if steps.len() == 0 {
        (seq![], held)
    } else {
        let (out, now) = onward(held, steps.drop_last());
        match steps.last() {
            StepModel::Tap(targets) => (
                out + struck(targets, wanted(now), targets.len() as int),
                now,
            ),
            StepModel::Hold(targets) => (
                out + struck(targets, wanted(now), targets.len() as int),
                now + targets,
            ),
            StepModel::Release(targets) => (out, without_all(now, targets)),
            _ => (out, now),
        }
    }
}

proof fn lemma_onward_from_nothing(steps: Seq<StepModel>)
    ensures
        onward(seq![], steps) == sequence_strikes(steps),
    decreases steps.len(),
{
    if steps.len() > 0 {
        lemma_onward_from_nothing(steps.drop_last());
    }
}

proof fn lemma_onward_concat(held: Seq<Holdable>, a: Seq<StepModel>, b: Seq<StepModel>)
    ensures
        onward(held, a + b).0 == onward(held, a).0 + onward(onward(held, a).1, b).0,
        onward(held, a + b).1 == onward(onward(held, a).1, b).1,
    decreases b.len(),
{
    if b.len() == 0 {
        assert(a + b =~= a);
        assert(onward(held, a).0 + Seq::<Signature>::empty() =~= onward(held, a).0);
    } else {
        let fewer = b.drop_last();
        assert((a + b).drop_last() =~= a + fewer);
        assert((a + b).last() == b.last());
        lemma_onward_concat(held, a, fewer);
        let first = onward(held, a);
        let then_on = onward(first.1, fewer);
        assert(onward(held, a + b).0 =~= first.0 + onward(first.1, b).0);
    }
}

proof fn lemma_onward_one(held: Seq<Holdable>, step: StepModel)
    ensures
        onward(held, seq![step]) == (match step {
            StepModel::Tap(targets) => (
                struck(targets, wanted(held), targets.len() as int),
                held,
            ),
            StepModel::Hold(targets) => (
                struck(targets, wanted(held), targets.len() as int),
                held + targets,
            ),
            StepModel::Release(targets) => (
                Seq::<Signature>::empty(),
                without_all(held, targets),
            ),
            _ => (Seq::<Signature>::empty(), held),
        }),
{
    reveal_with_fuel(onward, 2);
    assert(seq![step].drop_last() =~= seq![]);
    match step {
        StepModel::Tap(targets) | StepModel::Hold(targets) => {
            let out = struck(targets, wanted(held), targets.len() as int);
            assert(Seq::<Signature>::empty() + out =~= out);
        },
        _ => {},
    }
}

/// Doing a step strikes what it is said to strike.
proof fn lemma_act_strikes(bind: BindModel, step: StepModel, gap: bool, held: Seq<Holdable>)
    ensures
        within(struck_by(held, act_work(bind, step, gap)), onward(held, seq![step]).0),
        ledger_after(held, act_work(bind, step, gap)) == onward(held, seq![step]).1,
{
    lemma_onward_one(held, step);
    if let StepModel::Wait(pause) = step {
        lemma_one(held, Op::Pause(pause));
    } else {
        let wait = gap_work(gap, bind.gap);
        let work = step_work(step, bind.tap);
        assert(ledger_after(held, wait) == held && struck_by(held, wait) =~= seq![]) by {
            if gap {
                lemma_one(held, Op::Pause(bind.gap));
            }
        }
        lemma_struck_concat(held, wait, work);
        lemma_ledger_concat(held, wait, work);
        assert(struck_by(held, wait) + struck_by(held, work) =~= struck_by(held, work));
        match step {
            StepModel::Tap(targets) => {
                let down = downs(targets);
                let pause = seq![Op::Pause(bind.tap)];
                let up = ups(targets.reverse());
                assert(targets.take(targets.len() as int) =~= targets);
                lemma_downs_strike(held, targets, targets.len() as int);
                lemma_ledger_downs(held, targets);
                lemma_one(held + targets, Op::Pause(bind.tap));
                lemma_ups_strike_nothing(held + targets, targets.reverse());
                lemma_ledger_ups(held, targets);
                lemma_struck_concat(held, down + pause, up);
                lemma_struck_concat(held, down, pause);
                lemma_ledger_concat(held, down + pause, up);
                lemma_ledger_concat(held, down, pause);
                assert(struck_by(held, work) =~= struck_by(held, down));
            },
            StepModel::Hold(targets) => {
                assert(targets.take(targets.len() as int) =~= targets);
                lemma_downs_strike(held, targets, targets.len() as int);
                lemma_ledger_downs(held, targets);
            },
            StepModel::Release(targets) => {
                lemma_ups_strike_nothing(held, targets);
            },
            _ => {},
        }
    }
}

// ------------------------------------------------------------------------------- programs

/// Whether every block of a program lets go of what it presses, and releases nothing that it did
/// not press.
pub open spec fn is_steady(program: Program) -> bool
    decreases program,
{
    match program {
        Program::End => true,
        Program::Act(_, rest) => is_steady(*rest),
        Program::Chance(_, body, rest) => settles(written(*body)) && is_steady(*body) && is_steady(
            *rest,
        ),
        Program::Repeat(_, body, rest) => settles(written(*body)) && is_steady(*body) && is_steady(
            *rest,
        ),
    }
}

proof fn lemma_without_last_part(held: Seq<Holdable>, list: Seq<Holdable>, item: Holdable)
    requires
        list.contains(item),
    ensures
        without_last(held + list, item) == held + without_last(list, item),
    decreases list.len(),
{
    let i = choose|i: int| 0 <= i < list.len() && list[i] == item;
    assert((held + list).last() == list.last());
    assert((held + list).drop_last() =~= held + list.drop_last());
    if list.last() != item {
        assert(list.drop_last()[i] == item);
        lemma_without_last_part(held, list.drop_last(), item);
        assert(without_last(held + list, item) =~= held + without_last(list, item));
    }
}

proof fn lemma_without_all_first(held: Seq<Holdable>, targets: Seq<Holdable>)
    requires
        targets.len() > 0,
    ensures
        without_all(held, targets) == without_all(
            without_last(held, targets[0]),
            targets.skip(1),
        ),
    decreases targets.len(),
{
    reveal_with_fuel(without_all, 2);
    if targets.len() > 1 {
        let fewer = targets.drop_last();
        lemma_without_all_first(held, fewer);
        assert(targets.skip(1).drop_last() =~= fewer.skip(1));
        assert(targets.skip(1).last() == targets.last());
    } else {
        assert(targets.drop_last() =~= seq![]);
        assert(targets.skip(1) =~= seq![]);
    }
}

proof fn lemma_releasing_part(held: Seq<Holdable>, list: Seq<Holdable>, targets: Seq<Holdable>)
    requires
        releasing(list, targets) is Ok,
    ensures
        without_all(held + list, targets) == held + releasing(list, targets)->Ok_0,
    decreases targets.len(),
{
    if targets.len() > 0 {
        lemma_without_all_first(held + list, targets);
        lemma_without_last_part(held, list, targets[0]);
        lemma_releasing_part(held, without_last(list, targets[0]), targets.skip(1));
    }
}

/// Steps that keep their own balance leave what was pressed before them alone.
proof fn lemma_onward_balance(held: Seq<Holdable>, steps: Seq<StepModel>)
    requires
        balance_after(steps) is Some,
    ensures
        onward(held, steps).1 == held + balance_after(steps)->0.held,
    decreases steps.len(),
{
    if steps.len() == 0 {
        assert(held + Seq::<Holdable>::empty() =~= held);
    } else {
        let before = balance_after(steps.drop_last())->0;
        assert(carried_by(before, steps.last()) is Some);
        lemma_onward_balance(held, steps.drop_last());
        match steps.last() {
            StepModel::Hold(targets) => {
                assert(held + before.held + targets =~= held + (before.held + targets));
            },
            StepModel::Release(targets) => {
                lemma_releasing_part(held, before.held, targets);
            },
            _ => {},
        }
    }
}

proof fn lemma_settled_keeps(held: Seq<Holdable>, steps: Seq<StepModel>)
    requires
        settles(steps),
    ensures
        onward(held, steps).1 == held,
{
    lemma_onward_balance(held, steps);
    assert(held + Seq::<Holdable>::empty() =~= held);
}

/// Doing a program strikes what its steps are said to strike, whatever is rolled.
proof fn lemma_program_strikes(
    bind: BindModel,
    program: Program,
    gap: bool,
    rolls: Seq<u64>,
    held: Seq<Holdable>,
)
    requires
        is_program(program),
        is_steady(program),
    ensures
        ({
            let work = doing(bind, program, gap, rolls).work;
            &&& within(struck_by(held, work), onward(held, written(program)).0)
            &&& ledger_after(held, work) == onward(held, written(program)).1
        }),
    decreases program, 0nat,
{
    match program {
        Program::End => {},
        Program::Act(step, rest) => {
            let first = act_work(bind, step, gap);
            let after = doing(bind, *rest, !(step is Wait), rolls).work;
            let mid = onward(held, seq![step]);
            lemma_act_strikes(bind, step, gap, held);
            lemma_program_strikes(bind, *rest, !(step is Wait), rolls, mid.1);
            lemma_struck_concat(held, first, after);
            lemma_ledger_concat(held, first, after);
            lemma_onward_concat(held, seq![step], written(*rest));
            lemma_within_concat(
                struck_by(held, first),
                struck_by(mid.1, after),
                mid.0,
                onward(mid.1, written(*rest)).0,
            );
        },
        Program::Chance(chance, body, rest) => {
            let opening = StepModel::Rng(chance);
            let ending = StepModel::RngEnd;
            lemma_block_steps(held, opening, *body, ending, *rest);
            let inner = onward(held, written(*body)).0;
            let outer = onward(held, written(*rest)).0;
            if rolls[0] < chance {
                let block = doing(bind, *body, gap, rolls.skip(1));
                let after = doing(bind, *rest, block.gap, block.rolls);
                lemma_program_strikes(bind, *body, gap, rolls.skip(1), held);
                lemma_program_strikes(bind, *rest, block.gap, block.rolls, held);
                lemma_settled_keeps(held, written(*body));
                lemma_struck_concat(held, block.work, after.work);
                lemma_ledger_concat(held, block.work, after.work);
                lemma_within_concat(
                    struck_by(held, block.work),
                    struck_by(held, after.work),
                    inner,
                    outer,
                );
            } else {
                let after = doing(bind, *rest, gap, rolls.skip(1));
                lemma_program_strikes(bind, *rest, gap, rolls.skip(1), held);
                assert(doing(bind, program, gap, rolls).work =~= after.work);
                let none: Seq<Signature> = seq![];
                lemma_within_concat(none, struck_by(held, after.work), inner, outer);
                assert(none + struck_by(held, after.work) =~= struck_by(held, after.work));
            }
        },
        Program::Repeat(times, body, rest) => {
            let opening = StepModel::Loop(times);
            let ending = StepModel::LoopEnd;
            lemma_block_steps(held, opening, *body, ending, *rest);
            let inner = onward(held, written(*body)).0;
            let outer = onward(held, written(*rest)).0;
            let runs = if times == 0 {
                1nat
            } else {
                times as nat
            };
            let block = doing_often(bind, runs, *body, gap, rolls);
            let after = doing(bind, *rest, block.gap, block.rolls);
            lemma_often_strikes(bind, runs, *body, gap, rolls, held);
            lemma_program_strikes(bind, *rest, block.gap, block.rolls, held);
            lemma_struck_concat(held, block.work, after.work);
            lemma_ledger_concat(held, block.work, after.work);
            lemma_within_concat(
                struck_by(held, block.work),
                struck_by(held, after.work),
                inner,
                outer,
            );
        },
    }
}

proof fn lemma_often_strikes(
    bind: BindModel,
    runs: nat,
    program: Program,
    gap: bool,
    rolls: Seq<u64>,
    held: Seq<Holdable>,
)
    requires
        is_program(program),
        is_steady(program),
        settles(written(program)),
    ensures
        ({
            let work = doing_often(bind, runs, program, gap, rolls).work;
            &&& within(struck_by(held, work), onward(held, written(program)).0)
            &&& ledger_after(held, work) == held
        }),
    decreases program, runs + 1,
{
    if runs > 0 {
        let once = doing(bind, program, gap, rolls);
        let again = doing_often(bind, (runs - 1) as nat, program, once.gap, once.rolls);
        lemma_program_strikes(bind, program, gap, rolls, held);
        lemma_settled_keeps(held, written(program));
        lemma_often_strikes(bind, (runs - 1) as nat, program, once.gap, once.rolls, held);
        lemma_struck_concat(held, once.work, again.work);
        lemma_ledger_concat(held, once.work, again.work);
        let a = struck_by(held, once.work);
        let b = struck_by(held, again.work);
        let all = onward(held, written(program)).0;
        assert forall|x: Signature| #[trigger] (a + b).contains(x) implies all.contains(x) by {
            lemma_contains_concat(a, b, x);
        }
    }
}

proof fn lemma_block_steps(
    held: Seq<Holdable>,
    opening: StepModel,
    body: Program,
    ending: StepModel,
    rest: Program,
)
    requires
        opening is Rng || opening is Loop,
        ending is RngEnd || ending is LoopEnd,
        settles(written(body)),
    ensures
        ({
            let all = seq![opening] + (written(body) + (seq![ending] + written(rest)));
            &&& onward(held, all).0 == onward(held, written(body)).0 + onward(
                held,
                written(rest),
            ).0
            &&& onward(held, all).1 == onward(held, written(rest)).1
        }),
{
    let tail = seq![ending] + written(rest);
    lemma_onward_one(held, opening);
    lemma_onward_one(held, ending);
    lemma_settled_keeps(held, written(body));
    lemma_onward_concat(held, seq![opening], written(body) + tail);
    lemma_onward_concat(held, written(body), tail);
    lemma_onward_concat(held, seq![ending], written(rest));
    let none: Seq<Signature> = seq![];
    let inner = onward(held, written(body)).0;
    let outer = onward(held, written(rest)).0;
    assert(none + outer =~= outer);
    assert(none + (inner + outer) =~= inner + outer);
}

// ----------------------------------------------------------------------------- iterations

/// The ledger has what the work that was done leaves in it.
proof fn lemma_held(
    c: Context,
    s: State,
    steps: Seq<StepModel>,
    program: Program,
    replies: Seq<Reply>,
)
    requires
        c.profile.binds[s.bind].action == ActionModel::Sequence(steps),
        steps.len() <= usize::MAX,
        stands(steps, s, program, Around::Nothing),
        is_under_way(s, Around::Nothing),
        forall|n: int|
            0 <= n < replies.len() ==> !((#[trigger] play(c, s, replies.take(n))).todo
                == closing()),
    ensures
        is_lost(play(c, s, replies)) || play(c, s, replies).held == ledger_after(
            s.held,
            done(c, s, replies),
        ),
    decreases replies.len(),
{
    if replies.len() > 0 {
        let most = replies.drop_last();
        let reply = replies.last();
        let mid = play(c, s, most);
        let t = play(c, s, replies);
        assert forall|n: int| 0 <= n < most.len() implies !((#[trigger] play(
            c,
            s,
            most.take(n),
        )).todo == closing()) by {
            assert(most.take(n) =~= replies.take(n));
        }
        assert(replies.take(most.len() as int) =~= most);
        lemma_held(c, s, steps, program, most);
        let place = lemma_iteration(c, s, steps, program, Around::Nothing, most, seq![]);
        if is_lost(mid) {
            lemma_lost(c, mid, reply);
        } else {
            assert(is_under_way(mid, place.1));
            let work = done_by(mid, t);
            lemma_ledger_concat(s.held, done(c, s, most), work);
            lemma_one(mid.held, mid.todo[0]);
            assert(mid.todo.take(1) =~= seq![mid.todo[0]]);
            assert(t.held == ledger_after(mid.held, work));
        }
    }
}

proof fn lemma_struck_at(held: Seq<Holdable>, work: Seq<Op>, i: int, key: Key)
    requires
        0 <= i < work.len(),
        work[i] == Op::Down(Holdable::Key(key)),
        !decorates(key),
    ensures
        struck_by(held, work).contains((key, wanted(ledger_after(held, work.take(i))))),
{
    let before = work.take(i);
    let after = work.skip(i);
    assert(work =~= before + after);
    lemma_struck_concat(held, before, after);
    let now = ledger_after(held, before);
    let rest = struck_by(now, after);
    assert(after[0] == work[i]);
    assert(rest[0] == (key, wanted(now)));
    assert(rest.contains((key, wanted(now))));
    lemma_contains_concat(struck_by(held, before), rest, (key, wanted(now)));
}

/// Whatever a sequence presses is among what its binding is said to strike: at every moment of an
/// iteration at which the press of an ordinary key is asked for, by a tap or by a PRESS, the key
/// with the modifier classes that are in the ledger at that moment is a trigger that the binding
/// strikes, and the binding feeds every binding with that trigger. This is so whatever was heard
/// and rolled, of every sequence whose blocks each let go of what they press.
pub proof fn law_whatever_a_sequence_presses_it_strikes(
    c: Context,
    s: State,
    remaining: int,
    first: Seq<Op>,
    program: Program,
    replies: Seq<Reply>,
    key: Key,
    fed: BindModel,
)
    requires
        is_program(program),
        is_steady(program),
        c.profile.binds[s.bind].action == ActionModel::Sequence(written(program)),
        written(program).len() <= usize::MAX,
        first.len() == 0 || first == seq![Op::Pause(c.profile.binds[s.bind].gap)],
        s.held.len() == 0,
        ({
            let start = iterating(c.profile.binds[s.bind], s, remaining, first);
            &&& forall|n: int|
                0 <= n < replies.len() ==> !((#[trigger] play(c, start, replies.take(n))).todo
                    == closing())
            &&& asking(c, play(c, start, replies)) == Request::Emit(EmitAction::KeyDown(key))
        }),
        !decorates(key),
    ensures
        ({
            let bind = c.profile.binds[s.bind];
            let held = play(c, iterating(bind, s, remaining, first), replies).held;
            &&& strikes(bind).contains((key, wanted(held)))
            &&& primary(fed.trigger) == Some(key) && crate::input::classes(fed.trigger) == wanted(
                held,
            ) ==> feeds(bind, fed)
        }),
{
    let bind = c.profile.binds[s.bind];
    let start = iterating(bind, s, remaining, first);
    let t = play(c, start, replies);
    let steps = written(program);
    let rolls = rolled(c, start, replies);
    let none: Seq<u64> = seq![];
    assert(rolls + none =~= rolls);
    lemma_iteration_start(c, s, remaining, first, program, rolls);
    let place = lemma_iteration(c, start, steps, program, Around::Nothing, replies, none);
    lemma_held(c, start, steps, program, replies);
    assert(t.todo.len() > 0 && t.todo[0] == Op::Down(Holdable::Key(key)));
    assert(!is_lost(t));
    let past = done(c, start, replies);
    let work = first + doing(bind, program, false, rolls).work;
    let left = owes(bind, t, place.0, place.1, none).work;
    assert(t.todo.len() > 1);
    assert(left[0] == t.todo[0]);
    assert(work =~= past + left);
    assert(work[past.len() as int] == t.todo[0]);
    assert(work.take(past.len() as int) =~= past);
    let empty: Seq<Holdable> = seq![];
    assert(start.held =~= empty);
    lemma_struck_at(empty, work, past.len() as int, key);
    let said = doing(bind, program, false, rolls).work;
    lemma_program_strikes(bind, program, false, rolls, empty);
    lemma_onward_from_nothing(steps);
    lemma_struck_concat(empty, first, said);
    if first.len() > 0 {
        lemma_one(empty, first[0]);
        assert(first =~= seq![first[0]]);
    }
    assert(struck_by(empty, work) =~= struck_by(empty, said));
    let struck_then = (key, wanted(t.held));
    assert(strikes(bind).contains(struck_then));
    let i = choose|i: int| 0 <= i < strikes(bind).len() && strikes(bind)[i] == struck_then;
    assert(strikes(bind)[i].0 == key);
}

/// A sequence that settles begins each of its iterations with nothing pressed: an iteration that
/// began so ends so.
pub proof fn law_an_iteration_ends_with_nothing_pressed(
    c: Context,
    s: State,
    remaining: int,
    first: Seq<Op>,
    program: Program,
    replies: Seq<Reply>,
)
    requires
        is_program(program),
        is_steady(program),
        settles(written(program)),
        c.profile.binds[s.bind].action == ActionModel::Sequence(written(program)),
        written(program).len() <= usize::MAX,
        first.len() == 0 || first == seq![Op::Pause(c.profile.binds[s.bind].gap)],
        s.held.len() == 0,
        super::block_laws::is_first_end(
            c,
            iterating(c.profile.binds[s.bind], s, remaining, first),
            replies,
        ),
    ensures
        play(c, iterating(c.profile.binds[s.bind], s, remaining, first), replies).held.len() == 0,
{
    let bind = c.profile.binds[s.bind];
    let start = iterating(bind, s, remaining, first);
    let steps = written(program);
    let rolls = rolled(c, start, replies);
    super::block_laws::law_an_iteration_does_what_its_steps_say(
        c,
        s,
        remaining,
        first,
        program,
        replies,
    );
    lemma_iteration_start(c, s, remaining, first, program, rolls);
    lemma_held(c, start, steps, program, replies);
    let empty: Seq<Holdable> = seq![];
    assert(start.held =~= empty);
    let said = doing(bind, program, false, rolls).work;
    lemma_program_strikes(bind, program, false, rolls, empty);
    lemma_settled_keeps(empty, steps);
    lemma_ledger_concat(empty, first, said);
    if first.len() > 0 {
        lemma_one(empty, first[0]);
        assert(first =~= seq![first[0]]);
    }
}

// -------------------------------------------------------------------------------- mirrors

/// Whatever a mirror presses it strikes: each press of an ordinary key by the tap of its targets,
/// with the modifier classes that are in the ledger at that moment, and each of its ordinary
/// targets with the classes of the targets before it, whether they are pressed or the hand
/// supplies them.
pub proof fn law_whatever_a_mirror_presses_it_strikes(
    bind: BindModel,
    targets: Seq<Holdable>,
    tap: u64,
    i: int,
    key: Key,
    fed: BindModel,
)
    requires
        bind.action == ActionModel::Mirror(targets),
        0 <= i < targets.len(),
        targets[i] == Holdable::Key(key),
        !decorates(key),
    ensures
        within(struck_by(seq![], tap_work(targets, tap)), strikes(bind)),
        strikes(bind).contains((key, wanted(targets.take(i)))),
        primary(fed.trigger) == Some(key) && crate::input::classes(fed.trigger) == wanted(
            targets.take(i),
        ) ==> feeds(bind, fed),
{
    let empty: Seq<Holdable> = seq![];
    let n = targets.len() as int;
    let down = downs(targets);
    let nap = seq![Op::Nap(tap)];
    let up = ups(targets.reverse());
    let flush = seq![Op::Flush];
    assert(targets.take(n) =~= targets);
    assert(wanted(empty) == no_mods());
    lemma_downs_strike(empty, targets, n);
    lemma_ledger_downs(empty, targets);
    assert(empty + targets =~= targets);
    lemma_one(targets, Op::Nap(tap));
    lemma_ups_strike_nothing(targets, targets.reverse());
    lemma_one(ledger_after(targets, up), Op::Flush);
    lemma_struck_concat(empty, down + nap + up, flush);
    lemma_struck_concat(empty, down + nap, up);
    lemma_struck_concat(empty, down, nap);
    lemma_ledger_concat(empty, down + nap, up);
    lemma_ledger_concat(empty, down, nap);
    assert(struck_by(empty, tap_work(targets, tap)) =~= struck_by(empty, down));
    lemma_struck_at(empty, down, i, key);
    assert(down.take(i) =~= downs(targets.take(i)));
    lemma_ledger_downs(empty, targets.take(i));
    assert(empty + targets.take(i) =~= targets.take(i));
    let now = (key, wanted(targets.take(i)));
    assert(strikes(bind).contains(now));
    let k = choose|k: int| 0 <= k < strikes(bind).len() && strikes(bind)[k] == now;
    assert(strikes(bind)[k].0 == key);
}

// ---------------------------------------------------------------------------- nothing more

/// Whether a trigger is that of pressing a list of inputs on top of others: an ordinary key of the
/// list, with the classes of what was pressed before and of the list up to the key or as a whole.
pub open spec fn is_pressed_by(
    trigger: Signature,
    targets: Seq<Holdable>,
    held: Seq<Holdable>,
) -> bool {
    exists|i: int|
        0 <= i < targets.len() && #[trigger] targets[i] == Holdable::Key(trigger.0) && !decorates(
            trigger.0,
        ) && (trigger.1 == wanted(held + targets.take(i)) || trigger.1 == wanted(held + targets))
}

proof fn lemma_struck_only(targets: Seq<Holdable>, held: Seq<Holdable>, n: int, x: Signature)
    requires
        0 <= n <= targets.len(),
        struck(targets, wanted(held), n).contains(x),
    ensures
        is_pressed_by(x, targets, held),
    decreases n,
{
    let all = struck(targets, wanted(held), n);
    let k = choose|k: int| 0 <= k < all.len() && all[k] == x;
    if n > 0 {
        let before = struck(targets, wanted(held), n - 1);
        if k < before.len() {
            assert(before[k] == x);
            lemma_struck_only(targets, held, n - 1, x);
        } else {
            lemma_wanted_concat(held, targets.take(n - 1));
            lemma_wanted_concat(held, targets);
            assert(targets[n - 1] == Holdable::Key(x.0));
        }
    }
}

/// A binding strikes nothing but what it presses: each trigger that a settled sequence is said to
/// strike is that of a tap or a PRESS among its steps, on top of what the steps before have
/// pressed and not released.
pub proof fn law_a_sequence_strikes_nothing_else(
    bind: BindModel,
    steps: Seq<StepModel>,
    trigger: Signature,
) -> (at: int)
    requires
        bind.action == ActionModel::Sequence(steps),
        balance_after(steps) is Some,
        strikes(bind).contains(trigger),
    ensures
        0 <= at < steps.len(),
        balance_after(steps.take(at)) is Some,
        match steps[at] {
            StepModel::Tap(targets) | StepModel::Hold(targets) => is_pressed_by(
                trigger,
                targets,
                balance_after(steps.take(at))->0.held,
            ),
            _ => false,
        },
{
    lemma_onward_from_nothing(steps);
    lemma_strike_place(steps, trigger)
}

proof fn lemma_strike_place(steps: Seq<StepModel>, trigger: Signature) -> (at: int)
    requires
        balance_after(steps) is Some,
        onward(seq![], steps).0.contains(trigger),
    ensures
        0 <= at < steps.len(),
        balance_after(steps.take(at)) is Some,
        match steps[at] {
            StepModel::Tap(targets) | StepModel::Hold(targets) => is_pressed_by(
                trigger,
                targets,
                balance_after(steps.take(at))->0.held,
            ),
            _ => false,
        },
    decreases steps.len(),
{
    let fewer = steps.drop_last();
    let empty: Seq<Holdable> = seq![];
    if onward(empty, fewer).0.contains(trigger) {
        let at = lemma_strike_place(fewer, trigger);
        assert(fewer.take(at) =~= steps.take(at));
        at
    } else {
        let at = fewer.len() as int;
        assert(steps.take(at) =~= fewer);
        lemma_onward_balance(empty, fewer);
        let now = onward(empty, fewer).1;
        assert(empty + balance_after(fewer)->0.held =~= balance_after(fewer)->0.held);
        match steps.last() {
            StepModel::Tap(targets) | StepModel::Hold(targets) => {
                let out = struck(targets, wanted(now), targets.len() as int);
                lemma_contains_concat(onward(empty, fewer).0, out, trigger);
                lemma_struck_only(targets, now, targets.len() as int, trigger);
            },
            _ => {},
        }
        at
    }
}

/// Every tap and every PRESS of a sequence strikes: each of its ordinary keys, as it goes down on
/// top of what the steps before have pressed and not released, and as it repeats once the whole
/// chord is down, whatever block the step stands in.
pub proof fn law_every_tap_and_press_strikes(
    bind: BindModel,
    steps: Seq<StepModel>,
    at: int,
    targets: Seq<Holdable>,
    trigger: Signature,
)
    requires
        bind.action == ActionModel::Sequence(steps),
        0 <= at < steps.len(),
        balance_after(steps.take(at)) is Some,
        steps[at] == StepModel::Tap(targets) || steps[at] == StepModel::Hold(targets),
        is_pressed_by(trigger, targets, balance_after(steps.take(at))->0.held),
    ensures
        strikes(bind).contains(trigger),
{
    let empty: Seq<Holdable> = seq![];
    let before = steps.take(at);
    let after = steps.skip(at + 1);
    lemma_onward_from_nothing(steps);
    assert(steps =~= before + (seq![steps[at]] + after));
    lemma_onward_concat(empty, before, seq![steps[at]] + after);
    lemma_onward_balance(empty, before);
    let held = balance_after(before)->0.held;
    assert(empty + held =~= held);
    lemma_onward_concat(held, seq![steps[at]], after);
    lemma_onward_one(held, steps[at]);
    lemma_struck_all(targets, held, targets.len() as int, trigger);
    let here = onward(held, seq![steps[at]]);
    let later = onward(here.1, after).0;
    lemma_contains_concat(here.0, later, trigger);
    lemma_contains_concat(onward(empty, before).0, here.0 + later, trigger);
}

proof fn lemma_struck_all(targets: Seq<Holdable>, held: Seq<Holdable>, n: int, x: Signature)
    requires
        0 <= n <= targets.len(),
        exists|i: int|
            0 <= i < n && #[trigger] targets[i] == Holdable::Key(x.0) && !decorates(x.0) && (x.1
                == wanted(held + targets.take(i)) || x.1 == wanted(held + targets)),
    ensures
        struck(targets, wanted(held), n).contains(x),
    decreases n,
{
    let i = choose|i: int|
        0 <= i < n && #[trigger] targets[i] == Holdable::Key(x.0) && !decorates(x.0) && (x.1
            == wanted(held + targets.take(i)) || x.1 == wanted(held + targets));
    let all = struck(targets, wanted(held), n);
    let before = struck(targets, wanted(held), n - 1);
    if i == n - 1 {
        lemma_wanted_concat(held, targets.take(i));
        lemma_wanted_concat(held, targets);
        assert(all[before.len() as int] == (x.0, wanted(held + targets.take(i))));
        assert(all[before.len() as int + 1] == (x.0, wanted(held + targets)));
    } else {
        lemma_struck_all(targets, held, n - 1, x);
        let k = choose|k: int| 0 <= k < before.len() && before[k] == x;
        assert(all[k] == x);
    }
}

/// One binding feeds another exactly where a trigger that it strikes is the other's: the key is the
/// one that the other's grab fires on, and the modifier classes are those of its chord.
pub proof fn law_a_binding_feeds_whom_it_strikes(a: BindModel, b: BindModel)
    ensures
        feeds(a, b) <==> exists|key: Key|
            primary(b.trigger) == Some(key) && #[trigger] strikes(a).contains(
                (key, crate::input::classes(b.trigger)),
            ),
{
    if feeds(a, b) {
        let i = choose|i: int|
            0 <= i < strikes(a).len() && super::run::fires(
                b,
                (#[trigger] strikes(a)[i]).0,
                strikes(a)[i].1,
            );
        let key = strikes(a)[i].0;
        assert(strikes(a)[i] == (key, crate::input::classes(b.trigger)));
        assert(strikes(a).contains((key, crate::input::classes(b.trigger))));
    }
    if exists|key: Key|
        primary(b.trigger) == Some(key) && #[trigger] strikes(a).contains(
            (key, crate::input::classes(b.trigger)),
        ) {
        let key = choose|key: Key|
            primary(b.trigger) == Some(key) && #[trigger] strikes(a).contains(
                (key, crate::input::classes(b.trigger)),
            );
        let now = (key, crate::input::classes(b.trigger));
        let i = choose|i: int| 0 <= i < strikes(a).len() && strikes(a)[i] == now;
        assert(strikes(a)[i].0 == key);
    }
}

// --------------------------------------------------------------------------------- circles

/// A binding that feeds itself is a circle of one, and two that feed each other are a circle of
/// two; a path through places that are not there is none.
pub proof fn law_a_circle_leads_back_to_its_start(
    all: Seq<(Seq<char>, BindModel)>,
    i: int,
    j: int,
)
    requires
        0 <= i < all.len(),
        0 <= j < all.len(),
    ensures
        feeds_round(all, seq![i]) <==> feeds(all[i].1, all[i].1),
        feeds_round(all, seq![i, j]) <==> feeds(all[i].1, all[j].1) && feeds(all[j].1, all[i].1),
        !feeds_round(all, Seq::empty()),
        !feeds_round(all, seq![all.len() as int]),
        names_along(all, seq![i]) == seq![all[i].0 + "::"@ + all[i].1.trigger_text],
{
    let one = seq![i];
    assert(one[0] == i);
    assert(after_on(one, 0) == i);
    let two = seq![i, j];
    assert(two[0] == i && two[1] == j);
    assert(after_on(two, 0) == j && after_on(two, 1) == i);
    assert(names_along(all, one) =~= seq![all[i].0 + "::"@ + all[i].1.trigger_text]);
    let beyond = seq![all.len() as int];
    assert(beyond[0] == all.len());
}

/// Every binding of every profile is a place for circles, under the name of its profile.
pub proof fn law_every_binding_has_its_place(profiles: Seq<Named<'_>>, more: Named<'_>)
    ensures
        bindings_of(Seq::<Named<'_>>::empty()).len() == 0,
        bindings_of(profiles.push(more)) == bindings_of(profiles) + more.profile@.binds.map_values(
            |bind: BindModel| (more.name@, bind),
        ),
{
    assert(profiles.push(more).drop_last() =~= profiles);
}

} // verus!
