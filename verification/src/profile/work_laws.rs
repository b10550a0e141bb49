//! What a binding sends: the taps of a mirror, and the steps of a sequence in their order.
use vstd::prelude::*;

use crate::input::{without_last, EmitAction, Holdable};

use super::model::{ActionModel, BindModel, StepModel};
use super::run::{
    asking, downs, fetching, fits, gap_work, next, presses, releases, skipped, starting, step_work,
    tap_work, ups, Context, Op, Phase, Reply, State,
};
use super::run_laws::{play, sends, sent};

verus! {

/// The presses and releases of a list of work.
pub open spec fn script(work: Seq<Op>) -> Seq<EmitAction>
    decreases work.len(),
{
    if work.len() == 0 {
        seq![]
    } else {
        (match work[0] {
            Op::Down(h) => seq![h.pressed()],
            Op::Up(h) => seq![h.released()],
            _ => Seq::<EmitAction>::empty(),
        }) + script(work.skip(1))
    }
}

/// The ledger after a list of work.
pub open spec fn ledger_after(held: Seq<Holdable>, work: Seq<Op>) -> Seq<Holdable>
    decreases work.len(),
{
    if work.len() == 0 {
        held
    } else {
        ledger_after(
            match work[0] {
                Op::Down(h) => held.push(h),
                Op::Up(h) => without_last(held, h),
                _ => held,
            },
            work.skip(1),
        )
    }
}

pub proof fn lemma_script_concat(a: Seq<Op>, b: Seq<Op>)
    ensures
        script(a + b) == script(a) + script(b),
    decreases a.len(),
{
    if a.len() == 0 {
        assert(a + b =~= b);
        assert(script(a) + script(b) =~= script(b));
    } else {
        assert((a + b).skip(1) =~= a.skip(1) + b);
        lemma_script_concat(a.skip(1), b);
        assert(script(a + b) =~= script(a) + script(b));
    }
}

pub proof fn lemma_ledger_concat(held: Seq<Holdable>, a: Seq<Op>, b: Seq<Op>)
    ensures
        ledger_after(held, a + b) == ledger_after(ledger_after(held, a), b),
    decreases a.len(),
{
    if a.len() == 0 {
        assert(a + b =~= b);
    } else {
        assert((a + b).skip(1) =~= a.skip(1) + b);
        let first = match a[0] {
            Op::Down(h) => held.push(h),
            Op::Up(h) => without_last(held, h),
            _ => held,
        };
        lemma_ledger_concat(first, a.skip(1), b);
    }
}

pub proof fn lemma_script_one(op: Op)
    ensures
        script(seq![op]) == (match op {
            Op::Down(h) => seq![h.pressed()],
            Op::Up(h) => seq![h.released()],
            _ => Seq::<EmitAction>::empty(),
        }),
{
    reveal_with_fuel(script, 2);
    assert(seq![op].skip(1) =~= seq![]);
    assert(script(seq![op]) =~= (match op {
        Op::Down(h) => seq![h.pressed()],
        Op::Up(h) => seq![h.released()],
        _ => Seq::<EmitAction>::empty(),
    }));
}

proof fn lemma_ledger_one(held: Seq<Holdable>, op: Op)
    requires
        op is Nap || op is Flush,
    ensures
        ledger_after(held, seq![op]) == held,
{
    reveal_with_fuel(ledger_after, 2);
    assert(seq![op].skip(1) =~= seq![]);
}

proof fn lemma_script_downs(targets: Seq<Holdable>)
    ensures
        script(downs(targets)) == presses(targets),
    decreases targets.len(),
{
    if targets.len() > 0 {
        assert(downs(targets).skip(1) =~= downs(targets.skip(1)));
        lemma_script_downs(targets.skip(1));
        assert(presses(targets) =~= seq![targets[0].pressed()] + presses(targets.skip(1)));
    } else {
        assert(presses(targets) =~= seq![]);
    }
}

proof fn lemma_script_ups(targets: Seq<Holdable>)
    ensures
        script(ups(targets)) == releases(targets),
    decreases targets.len(),
{
    if targets.len() > 0 {
        assert(ups(targets).skip(1) =~= ups(targets.skip(1)));
        lemma_script_ups(targets.skip(1));
        assert(releases(targets) =~= seq![targets[0].released()] + releases(targets.skip(1)));
    } else {
        assert(releases(targets) =~= seq![]);
    }
}

pub proof fn lemma_ledger_downs(held: Seq<Holdable>, targets: Seq<Holdable>)
    ensures
        ledger_after(held, downs(targets)) == held + targets,
    decreases targets.len(),
{
    if targets.len() > 0 {
        assert(downs(targets).skip(1) =~= downs(targets.skip(1)));
        lemma_ledger_downs(held.push(targets[0]), targets.skip(1));
        assert(held.push(targets[0]) + targets.skip(1) =~= held + targets);
    } else {
        assert(held + targets =~= held);
    }
}

pub proof fn lemma_ledger_ups(held: Seq<Holdable>, targets: Seq<Holdable>)
    ensures
        ledger_after(held + targets, ups(targets.reverse())) == held,
    decreases targets.len(),
{
    if targets.len() > 0 {
        let list = ups(targets.reverse());
        let all = held + targets;
        assert(targets.reverse()[0] == targets.last());
        assert(list[0] == Op::Up(targets.last()));
        assert(list.skip(1) =~= ups(targets.drop_last().reverse()));
        assert(all.last() == targets.last());
        assert(without_last(all, targets.last()) =~= held + targets.drop_last());
        lemma_ledger_ups(held, targets.drop_last());
    } else {
        assert(held + targets =~= held);
        assert(ups(targets.reverse()) =~= seq![]);
    }
}

// ------------------------------------------------------------------------------- mirrors

/// Whether work is nothing but presses, releases, sleeps on the clock and deliveries.
pub open spec fn is_straight(work: Seq<Op>) -> bool {
    forall|i: int|
        0 <= i < work.len() ==> match #[trigger] work[i] {
            Op::Down(_) | Op::Up(_) | Op::Flush | Op::Nap(_) => true,
            _ => false,
        }
}

/// Whether straight work is under way.
pub open spec fn at_straight_work(s: State) -> bool {
    is_straight(s.todo) && (s.phase is Ready || (s.phase is Sleeping && s.todo.len() > 0
        && s.todo[0] is Nap))
}

proof fn lemma_straight_step(c: Context, s: State, reply: Reply)
    requires
        at_straight_work(s),
    ensures
        ({
            let t = next(c, s, reply);
            let out = sends(asking(c, s), reply);
            ||| t.phase is Failed
            ||| t.phase == Phase::Over(None) && s.todo.len() == 0 && t.held == s.held && out.len()
                == 0
            ||| at_straight_work(t) && out + script(t.todo) == script(s.todo) && ledger_after(
                t.held,
                t.todo,
            ) == ledger_after(s.held, s.todo)
        }),
{
    let t = next(c, s, reply);
    let out = sends(asking(c, s), reply);
    if fits(asking(c, s), reply) && s.todo.len() > 0 {
        assert(is_straight(s.todo.skip(1))) by {
            assert forall|i: int| 0 <= i < s.todo.skip(1).len() implies (match #[trigger] s.todo.skip(1)[i] {
                Op::Down(_) | Op::Up(_) | Op::Flush | Op::Nap(_) => true,
                _ => false,
            }) by {
                assert(s.todo.skip(1)[i] == s.todo[i + 1]);
            }
        }
        assert(match s.todo[0] {
            Op::Down(_) | Op::Up(_) | Op::Flush | Op::Nap(_) => true,
            _ => false,
        });
        if !(t.phase is Failed) {
            assert(out + script(t.todo) =~= script(s.todo));
        }
    } else {
        assert(out + script(t.todo) =~= script(t.todo));
    }
}

proof fn lemma_straight_play(c: Context, s: State, replies: Seq<Reply>)
    requires
        at_straight_work(s),
    ensures
        ({
            let t = play(c, s, replies);
            let out = sent(c, s, replies);
            ||| t.phase is Failed
            ||| t.phase == Phase::Over(None) && out == script(s.todo) && t.held == ledger_after(
                s.held,
                s.todo,
            )
            ||| at_straight_work(t) && out + script(t.todo) == script(s.todo) && ledger_after(
                t.held,
                t.todo,
            ) == ledger_after(s.held, s.todo)
        }),
    decreases replies.len(),
{
    if replies.len() == 0 {
        assert(sent(c, s, replies) + script(s.todo) =~= script(s.todo));
    } else {
        let most = replies.drop_last();
        let mid = play(c, s, most);
        lemma_straight_play(c, s, most);
        let before = sent(c, s, most);
        let out = sends(asking(c, mid), replies.last());
        let t = play(c, s, replies);
        if mid.phase is Failed {
        } else if mid.phase is Over {
            assert(before + out =~= before);
        } else {
            lemma_straight_step(c, mid, replies.last());
            if t.phase is Failed {
            } else if t.phase is Over {
                assert(script(mid.todo) =~= seq![]);
                assert(before + out =~= before + script(mid.todo));
            } else {
                assert(before + out + script(t.todo) =~= before + (out + script(t.todo)));
            }
        }
    }
}

/// The tap of a mirror presses its targets in listed order and releases them in reverse, sends
/// nothing else, and leaves the ledger as it was: whatever the surroundings answer, a tap that
/// ends without a failure has done just that.
pub proof fn law_a_tap_presses_and_releases_in_reverse(
    c: Context,
    s: State,
    targets: Seq<Holdable>,
    tap: u64,
    replies: Seq<Reply>,
)
    requires
        s.phase is Ready,
        s.todo == tap_work(targets, tap),
        play(c, s, replies).phase is Over,
    ensures
        play(c, s, replies).phase == Phase::Over(None),
        sent(c, s, replies) == presses(targets) + releases(targets.reverse()),
        play(c, s, replies).held == s.held,
{
    let a = downs(targets);
    let b = seq![Op::Nap(tap)];
    let d = ups(targets.reverse());
    let e = seq![Op::Flush];
    assert(is_straight(s.todo));
    lemma_straight_play(c, s, replies);
    lemma_script_concat(a + b + d, e);
    lemma_script_concat(a + b, d);
    lemma_script_concat(a, b);
    lemma_script_downs(targets);
    lemma_script_ups(targets.reverse());
    lemma_script_one(Op::Nap(tap));
    lemma_script_one(Op::Flush);
    assert(script(s.todo) =~= presses(targets) + releases(targets.reverse()));
    lemma_ledger_concat(s.held, a + b + d, e);
    lemma_ledger_concat(s.held, a + b, d);
    lemma_ledger_concat(s.held, a, b);
    lemma_ledger_downs(s.held, targets);
    lemma_ledger_ups(s.held, targets);
    lemma_ledger_one(s.held + targets, Op::Nap(tap));
    lemma_ledger_one(s.held, Op::Flush);
}

// ------------------------------------------------------------------------------- letting go

/// Whether a piece of work belongs to a sequence.
pub open spec fn is_sequence_op(op: Op) -> bool {
    match op {
        Op::Await | Op::Sift | Op::Lift => false,
        _ => true,
    }
}

/// Whether a sequence runs, and still owes steps, or owes only to let go, or has let go.
pub open spec fn lets_go(s: State) -> bool {
    &&& forall|i: int| 0 <= i < s.todo.len() ==> is_sequence_op(#[trigger] s.todo[i])
    &&& match s.phase {
        Phase::Probe(_, _)
        | Phase::AwaitGate
        | Phase::AwaitNow
        | Phase::AwaitWait(_) => false,
        Phase::Ready => {
            ||| s.todo.len() > 0 && (s.todo.last() is Fetch || s.todo.last() is EndIteration)
            ||| s.todo == seq![Op::Drain, Op::Flush]
            ||| s.todo == seq![Op::Flush] && s.held.len() == 0
            ||| s.todo.len() == 0 && s.held.len() == 0
        },
        Phase::Over(None) => s.held.len() == 0,
        Phase::Over(Some(_)) | Phase::Failed => true,
        _ => s.todo.len() > 1 && (s.todo.last() is Fetch || s.todo.last() is EndIteration),
    }
}

proof fn lemma_less_work(s: State)
    requires
        s.todo.len() > 0,
        forall|i: int| 0 <= i < s.todo.len() ==> is_sequence_op(#[trigger] s.todo[i]),
    ensures
        forall|i: int| 0 <= i < s.todo.skip(1).len() ==> is_sequence_op(#[trigger] s.todo.skip(1)[i]),
        s.todo.len() > 1 ==> s.todo.skip(1).len() > 0 && s.todo.skip(1).last() == s.todo.last(),
{
    assert forall|i: int| 0 <= i < s.todo.skip(1).len() implies is_sequence_op(
        #[trigger] s.todo.skip(1)[i],
    ) by {
        assert(s.todo.skip(1)[i] == s.todo[i + 1]);
    }
}

proof fn lemma_fetching(bind: BindModel, steps: Seq<StepModel>, s: State)
    ensures
        ({
            let t = fetching(bind, steps, s);
            &&& t.phase is Ready
            &&& t.todo.len() > 0
            &&& t.todo.last() is Fetch || t.todo.last() is EndIteration
            &&& forall|i: int| 0 <= i < t.todo.len() ==> is_sequence_op(#[trigger] t.todo[i])
            &&& t.bind == s.bind
        }),
{
    let t = fetching(bind, steps, s);
    if 0 <= s.index < steps.len() {
        let work = gap_work(s.wants_gap, bind.gap) + step_work(steps[s.index], bind.tap) + seq![
            Op::Fetch,
        ];
        assert(work.last() == Op::Fetch);
    }
}

proof fn lemma_letting_go(c: Context, s: State, reply: Reply)
    requires
        c.profile.binds[s.bind].action is Sequence,
        lets_go(s),
    ensures
        c.profile.binds[next(c, s, reply).bind].action is Sequence,
        lets_go(next(c, s, reply)),
{
    let bind = c.profile.binds[s.bind];
    if s.todo.len() > 0 {
        lemma_less_work(s);
        assert(is_sequence_op(s.todo[0]));
    }
    if s.todo == seq![Op::Drain, Op::Flush] {
        assert(s.todo.skip(1) =~= seq![Op::Flush]);
    }
    if s.todo == seq![Op::Flush] {
        assert(s.todo.skip(1) =~= seq![]);
    }
    if let ActionModel::Sequence(steps) = bind.action {
        lemma_fetching(bind, steps, s);
    }
    let again = seq![Op::Pause(bind.gap)].push(Op::Fetch);
    assert(again.last() == Op::Fetch);
}

/// A sequence lets go of what it pressed: whatever the surroundings answer, one that ends by
/// itself, or that its own trigger or a lost focus stopped, leaves nothing in the ledger.
pub proof fn law_a_sequence_lets_go_of_what_it_pressed(c: Context, s: State, replies: Seq<Reply>)
    requires
        c.profile.binds[s.bind].action is Sequence,
        play(c, starting(c, s), replies).phase == Phase::Over(None),
    ensures
        play(c, starting(c, s), replies).held.len() == 0,
{
    lemma_sequence_play(c, s, replies);
}

proof fn lemma_sequence_play(c: Context, s: State, replies: Seq<Reply>)
    requires
        c.profile.binds[s.bind].action is Sequence,
    ensures
        ({
            let t = play(c, starting(c, s), replies);
            &&& c.profile.binds[t.bind].action is Sequence
            &&& lets_go(t)
        }),
    decreases replies.len(),
{
    let first = starting(c, s);
    if replies.len() == 0 {
        assert(first.todo == seq![Op::Drain, Op::Flush] || first.todo =~= seq![Op::Fetch]);
    } else {
        let mid = play(c, first, replies.drop_last());
        lemma_sequence_play(c, s, replies.drop_last());
        lemma_letting_go(c, mid, replies.last());
    }
}

// ------------------------------------------------------------------------------- the steps

/// Whether the steps of a sequence are being done.
pub open spec fn at_steps(s: State) -> bool {
    &&& s.todo.len() > 0
    &&& s.todo.last() is Fetch
    &&& !(s.phase is Over)
    &&& !(s.phase is Failed)
    &&& forall|i: int|
        0 <= i < s.todo.len() - 1 ==> match #[trigger] s.todo[i] {
            Op::Down(_) | Op::Up(_) | Op::Pause(_) => true,
            _ => false,
        }
    &&& s.phase is Ready || (s.todo.len() > 1 && s.todo[0] is Pause)
    &&& 0 <= s.index
}

/// Whether a pause is under way.
pub open spec fn is_pausing(phase: Phase) -> bool {
    phase is EarsTop || phase is EarsNow || phase is EarsWait || phase is EarsLate
        || phase is Sleeping
}

/// A step sends what it names: a tap presses in order and releases in reverse, a PRESS presses and a
/// RELEASE releases in order, and a step that is no action sends nothing.
pub proof fn law_a_step_sends_what_it_names(step: StepModel, tap: u64)
    ensures
        script(step_work(step, tap)) == (match step {
            StepModel::Tap(targets) => presses(targets) + releases(targets.reverse()),
            StepModel::Hold(targets) => presses(targets),
            StepModel::Release(targets) => releases(targets),
            _ => Seq::<EmitAction>::empty(),
        }),
{
    match step {
        StepModel::Tap(targets) => {
            let a = downs(targets);
            let b = seq![Op::Pause(tap)];
            lemma_script_concat(a + b, ups(targets.reverse()));
            lemma_script_concat(a, b);
            lemma_script_one(Op::Pause(tap));
            lemma_script_downs(targets);
            lemma_script_ups(targets.reverse());
            assert(presses(targets) + Seq::<EmitAction>::empty() =~= presses(targets));
        },
        StepModel::Hold(targets) => {
            lemma_script_downs(targets);
        },
        StepModel::Release(targets) => {
            lemma_script_ups(targets);
        },
        _ => {},
    }
}

// ------------------------------------------------------------------------------- the blocks

/// How many more chance blocks open than close from one step up to another.
pub open spec fn net_open(steps: Seq<StepModel>, from: int, to: int) -> int
    decreases to - from,
{
    if to <= from {
        0
    } else {
        net_open(steps, from, to - 1) + (match steps[to - 1] {
            StepModel::Rng(_) => 1int,
            StepModel::RngEnd => -1int,
            _ => 0int,
        })
    }
}

proof fn lemma_net_open(steps: Seq<StepModel>, from: int, to: int)
    requires
        from < to,
    ensures
        net_open(steps, from, to) == net_open(steps, from + 1, to) + (match steps[from] {
            StepModel::Rng(_) => 1int,
            StepModel::RngEnd => -1int,
            _ => 0int,
        }),
    decreases to - from,
{
    if from + 1 < to {
        lemma_net_open(steps, from, to - 1);
    } else {
        reveal_with_fuel(net_open, 2);
    }
}

proof fn lemma_skipped(steps: Seq<StepModel>, from: int, depth: nat)
    requires
        0 <= from <= steps.len(),
        depth > 0,
    ensures
        ({
            let to = skipped(steps, from, depth);
            &&& from <= to <= steps.len()
            &&& forall|k: int| from <= k < to ==> #[trigger] net_open(steps, from, k) > -depth
            &&& to < steps.len() || net_open(steps, from, to) == -depth ==> net_open(
                steps,
                from,
                to,
            ) == -depth && from < to && steps[to - 1] is RngEnd
        }),
    decreases steps.len() - from,
{
    let to = skipped(steps, from, depth);
    if from < steps.len() {
        let change = match steps[from] {
            StepModel::Rng(_) => 1int,
            StepModel::RngEnd => -1int,
            _ => 0int,
        };
        if depth + change > 0 {
            lemma_skipped(steps, from + 1, (depth + change) as nat);
            assert forall|k: int| from <= k < to implies #[trigger] net_open(steps, from, k)
                > -depth by {
                if k > from {
                    lemma_net_open(steps, from, k);
                }
            }
            lemma_net_open(steps, from, to);
        } else {
            reveal_with_fuel(net_open, 2);
        }
    }
}

/// A chance that fails skips its whole block and nothing more: it goes on behind the end that
/// closes the block, past every block that stands inside it.
pub proof fn law_a_failed_chance_skips_its_whole_block(
    c: Context,
    s: State,
    steps: Seq<StepModel>,
    chance: u64,
    rolled: u64,
)
    requires
        c.profile.binds[s.bind].action == ActionModel::Sequence(steps),
        s.phase is Ready,
        s.todo.len() > 0,
        s.todo[0] == Op::Roll(chance),
        0 <= s.index <= steps.len(),
    ensures
        ({
            let t = next(c, s, Reply::Rolled(rolled));
            &&& rolled < chance ==> t.index == s.index
            &&& rolled >= chance ==> {
                &&& s.index <= t.index <= steps.len()
                &&& forall|k: int|
                    s.index <= k < t.index ==> #[trigger] net_open(steps, s.index, k) > -1
                &&& t.index < steps.len() ==> net_open(steps, s.index, t.index) == -1 && s.index
                    < t.index && steps[t.index - 1] is RngEnd
            }
        }),
{
    lemma_skipped(steps, s.index, 1);
}

/// A repeated block runs as often as it says: at its end it goes back while it owes a run, one
/// less each time, and on past its end when it owes none.
pub proof fn law_a_repeated_block_counts_its_runs(
    c: Context,
    s: State,
    steps: Seq<StepModel>,
)
    requires
        c.profile.binds[s.bind].action == ActionModel::Sequence(steps),
        s.phase is Ready,
        s.todo.len() > 0,
        s.todo[0] is Fetch,
        0 <= s.index < steps.len(),
    ensures
        ({
            let t = next(c, s, Reply::Done);
            &&& steps[s.index] matches StepModel::Loop(times) ==> times > 0 ==> t.loops.len()
                == s.loops.len() + 1 && t.loops.last().start == (s.index + 1) as usize
                && t.loops.last().left == times - 1 && t.index == s.index + 1
            &&& steps[s.index] is LoopEnd && s.loops.len() > 0 ==> {
                let left = s.loops.last().left;
                if left > 0 {
                    t.index == s.loops.last().start && t.loops.len() == s.loops.len()
                        && t.loops.last().left == left - 1 && t.loops.last().start
                        == s.loops.last().start
                } else {
                    t.index == s.index + 1 && t.loops == s.loops.drop_last()
                }
            }
        }),
{
}

} // verus!
