//! What holds of every run of a profile, whatever the surroundings answer.
use vstd::prelude::*;

use crate::input::{
    class_of, classes, decorates, lemma_without_last, without_last, EmitAction, EventKind, Holdable,
    InputEvent, Key, Mods,
};
use crate::runtime::Wake;

use super::model::{primary, wanted, ActionModel, BindModel, Loops, StepModel};
use super::run::{
    after_iteration, asking, fetching, fires, fits, handling, iterating, later, next, next_match,
    owed, skipped, starting, step_work, tap_work, Context, Op, Outcome, Phase, Reply, Request,
    State,
};
use super::session::{session_asking, session_next, SessionState, Stage};

verus! {

/// The executor after a list of replies.
pub open spec fn play(c: Context, s: State, replies: Seq<Reply>) -> State
    decreases replies.len(),
{
    if replies.len() == 0 {
        s
    } else {
        next(c, play(c, s, replies.drop_last()), replies.last())
    }
}

/// What one reply to a request means was sent: what the backend says it took, and the releases
/// whose fate does not matter.
pub open spec fn sends(request: Request, reply: Reply) -> Seq<EmitAction> {
    match request {
        Request::Emit(action) => if reply == Reply::Sent(true) {
            seq![action]
        } else {
            seq![]
        },
        Request::EmitQuiet(action) => if reply is Done {
            seq![action]
        } else {
            seq![]
        },
        _ => seq![],
    }
}

/// What was sent over a list of replies.
pub open spec fn sent(c: Context, s: State, replies: Seq<Reply>) -> Seq<EmitAction>
    decreases replies.len(),
{
    if replies.len() == 0 {
        seq![]
    } else {
        let before = play(c, s, replies.drop_last());
        sent(c, s, replies.drop_last()) + sends(asking(c, before), replies.last())
    }
}

/// A run after a list of replies.
pub open spec fn session_play(c: Context, s: SessionState, replies: Seq<Reply>) -> SessionState
    decreases replies.len(),
{
    if replies.len() == 0 {
        s
    } else {
        session_next(c, session_play(c, s, replies.drop_last()), replies.last())
    }
}

/// What a run sent over a list of replies.
pub open spec fn session_sent(c: Context, s: SessionState, replies: Seq<Reply>) -> Seq<EmitAction>
    decreases replies.len(),
{
    if replies.len() == 0 {
        seq![]
    } else {
        let before = session_play(c, s, replies.drop_last());
        session_sent(c, s, replies.drop_last()) + sends(session_asking(c, before), replies.last())
    }
}

/// Whether an input is down after what was sent: the last that was said of it is a press.
pub open spec fn is_down(trace: Seq<EmitAction>, h: Holdable) -> bool
    decreases trace.len(),
{
    if trace.len() == 0 {
        false
    } else if trace.last() == h.pressed() {
        true
    } else if trace.last() == h.released() {
        false
    } else {
        is_down(trace.drop_last(), h)
    }
}

/// The ledger has whatever is down.
pub open spec fn ledger_knows(trace: Seq<EmitAction>, held: Seq<Holdable>) -> bool {
    forall|h: Holdable| is_down(trace, h) ==> #[trigger] held.contains(h)
}

proof fn lemma_sending(trace: Seq<EmitAction>, action: EmitAction, h: Holdable)
    ensures
        is_down(trace + seq![action], h) == (action == h.pressed() || (action != h.released()
            && is_down(trace, h))),
{
    let longer = trace + seq![action];
    assert(longer.last() == action);
    assert(longer.drop_last() =~= trace);
    assert(h.pressed() != h.released());
}

proof fn lemma_press_ledger(trace: Seq<EmitAction>, held: Seq<Holdable>, h: Holdable)
    requires
        ledger_knows(trace, held),
    ensures
        ledger_knows(trace + seq![h.pressed()], held.push(h)),
{
    assert forall|x: Holdable| is_down(trace + seq![h.pressed()], x) implies #[trigger] held.push(
        h,
    ).contains(x) by {
        lemma_sending(trace, h.pressed(), x);
        if x == h {
            assert(held.push(h)[held.len() as int] == x);
        } else {
            assert(is_down(trace, x));
            assert(held.contains(x));
            let i = choose|i: int| 0 <= i < held.len() && held[i] == x;
            assert(held.push(h)[i] == x);
        }
    }
}

proof fn lemma_release_ledger(trace: Seq<EmitAction>, held: Seq<Holdable>, h: Holdable)
    requires
        ledger_knows(trace, held),
    ensures
        ledger_knows(trace + seq![h.released()], without_last(held, h)),
{
    lemma_without_last(held, h);
    assert forall|x: Holdable| is_down(trace + seq![h.released()], x) implies
        #[trigger] without_last(held, h).contains(x) by {
        lemma_sending(trace, h.released(), x);
        assert(x != h);
        assert(held.contains(x));
    }
}

proof fn lemma_drain_ledger(trace: Seq<EmitAction>, held: Seq<Holdable>)
    requires
        ledger_knows(trace, held),
        held.len() > 0,
    ensures
        ledger_knows(trace + seq![held.last().released()], held.drop_last()),
{
    lemma_release_ledger(trace, held, held.last());
    assert(without_last(held, held.last()) == held.drop_last());
}

/// One reply keeps the ledger true.
proof fn lemma_step_ledger(c: Context, s: State, reply: Reply, trace: Seq<EmitAction>)
    requires
        ledger_knows(trace, s.held),
    ensures
        ledger_knows(trace + sends(asking(c, s), reply), next(c, s, reply).held),
{
    let request = asking(c, s);
    if !fits(request, reply) {
        assert(trace + sends(request, reply) =~= trace);
    } else if s.phase is Ready && s.todo.len() > 0 && s.todo[0] is Down {
        let h = s.todo[0]->Down_0;
        if reply == Reply::Sent(true) {
            lemma_press_ledger(trace, s.held, h);
        } else {
            assert(trace + sends(request, reply) =~= trace);
        }
    } else if s.phase is Ready && s.todo.len() > 0 && s.todo[0] is Up {
        let h = s.todo[0]->Up_0;
        if reply == Reply::Sent(true) {
            lemma_release_ledger(trace, s.held, h);
        } else {
            assert(trace + sends(request, reply) =~= trace);
        }
    } else if s.phase is Ready && s.todo.len() > 0 && s.todo[0] is Drain && s.held.len() > 0 {
        lemma_drain_ledger(trace, s.held);
    } else {
        assert(trace + sends(request, reply) =~= trace);
        assert(next(c, s, reply).held == s.held);
    }
}

/// Whatever an executor was told, its ledger has every input that is down: a press that was sent
/// and not yet released is never forgotten.
pub proof fn law_the_ledger_knows_what_is_down(
    c: Context,
    s: State,
    replies: Seq<Reply>,
    before: Seq<EmitAction>,
)
    requires
        ledger_knows(before, s.held),
    ensures
        ledger_knows(before + sent(c, s, replies), play(c, s, replies).held),
    decreases replies.len(),
{
    if replies.len() == 0 {
        assert(before + sent(c, s, replies) =~= before);
    } else {
        let most = replies.drop_last();
        law_the_ledger_knows_what_is_down(c, s, most, before);
        let mid = play(c, s, most);
        lemma_step_ledger(c, mid, replies.last(), before + sent(c, s, most));
        assert(before + sent(c, s, replies) =~= before + sent(c, s, most) + sends(
            asking(c, mid),
            replies.last(),
        ));
    }
}

proof fn lemma_session_ledger(c: Context, s: SessionState, replies: Seq<Reply>)
    requires
        s.stage is Listening,
        s.inner.held.len() == 0,
    ensures
        ledger_knows(session_sent(c, s, replies), session_play(c, s, replies).inner.held),
        ({
            let stage = session_play(c, s, replies).stage;
            stage is Flushing || stage is Releasing || stage is Ended ==> session_play(
                c,
                s,
                replies,
            ).inner.held.len() == 0
        }),
    decreases replies.len(),
{
    if replies.len() > 0 {
        let most = replies.drop_last();
        let reply = replies.last();
        lemma_session_ledger(c, s, most);
        let mid = session_play(c, s, most);
        let trace = session_sent(c, s, most);
        let request = session_asking(c, mid);
        match mid.stage {
            Stage::Executing => {
                if mid.inner.phase is Over || mid.inner.phase is Failed {
                    assert(trace + sends(request, reply) =~= trace);
                } else {
                    lemma_step_ledger(c, mid.inner, reply, trace);
                }
            },
            Stage::Draining(_) => {
                if mid.inner.held.len() == 0 || !fits(request, reply) {
                    assert(trace + sends(request, reply) =~= trace);
                } else {
                    lemma_drain_ledger(trace, mid.inner.held);
                }
            },
            _ => {
                assert(trace + sends(request, reply) =~= trace);
            },
        }
    }
}

/// Nothing stays down because a run ended, however it ended and whatever happened before: every
/// press that was sent has a release after it.
pub proof fn law_nothing_stays_down(c: Context, s: SessionState, replies: Seq<Reply>, h: Holdable)
    requires
        s.stage is Listening,
        s.inner.held.len() == 0,
        session_play(c, s, replies).stage is Ended,
    ensures
        !is_down(session_sent(c, s, replies), h),
{
    lemma_session_ledger(c, s, replies);
    let end = session_play(c, s, replies);
    if is_down(session_sent(c, s, replies), h) {
        assert(end.inner.held.contains(h));
    }
}

/// An emergency stop that a wait hears ends the run at once: no press follows it.
pub proof fn law_an_emergency_stop_is_heard_in_every_wait(c: Context, s: State, event: InputEvent)
    requires
        asking(c, s) is Wait,
        event.kind is KeyDown,
        c.stops.contains((event.kind->KeyDown_0, event.mods)),
    ensures
        next(c, s, Reply::Woke(Wake::Event(event))).phase == Phase::Over(
            Some(Outcome::EmergencyStop),
        ),
        next(c, s, Reply::Woke(Wake::Event(event))).held == s.held,
{
}

/// An emergency stop outranks every binding: as an event of its own it ends the run at once.
pub proof fn law_an_emergency_stop_outranks_the_bindings(c: Context, s: State, event: InputEvent)
    requires
        event.kind is KeyDown,
        c.stops.contains((event.kind->KeyDown_0, event.mods)),
    ensures
        handling(c, s, event).phase == Phase::Over(Some(Outcome::EmergencyStop)),
{
}

/// The pauses of a running pause: each ends only by the clock having reached the deadline, by
/// sleeping up to it, or by something heard.
pub proof fn law_a_pause_keeps_its_length(c: Context, s: State, reply: Reply, deadline: u64)
    requires
        s.phase == Phase::EarsTop(deadline) || s.phase == Phase::EarsNow(deadline) || s.phase
            == Phase::EarsLate(deadline) || s.phase == Phase::Sleeping(deadline) || (s.phase
            matches Phase::EarsWait(until, _) && until == deadline),
        fits(asking(c, s), reply),
    ensures
        ({
            let then = next(c, s, reply);
            ||| then == s.after() && (asking(c, s) == Request::SleepUntil(deadline) || (reply
                matches Reply::Time(now) && now >= deadline))
            ||| then == s.stopping()
            ||| then.phase == Phase::Over(Some(Outcome::EmergencyStop))
            ||| then.phase == Phase::EarsTop(deadline) || then.phase == Phase::EarsNow(deadline)
                || then.phase == Phase::EarsLate(deadline) || then.phase == Phase::Sleeping(
                deadline,
            ) || (then.phase matches Phase::EarsWait(until, _) && until == deadline)
        }),
{
}

// ------------------------------------------------------------------------------- stopping

/// A second press of its own trigger stops a running sequence, whatever its loop count, wherever it
/// hears events: in a pause and between two iterations. What remains is to let go of what is
/// pressed and to deliver that.
pub proof fn law_a_second_press_stops_a_sequence(c: Context, s: State, event: InputEvent, key: Key)
    requires
        s.phase is EarsWait || s.phase is PollWait,
        event.kind == EventKind::KeyDown(key),
        !c.stops.contains((key, event.mods)),
        primary(c.profile.binds[s.bind].trigger) == Some(key),
        classes(c.profile.binds[s.bind].trigger) == event.mods,
    ensures
        next(c, s, Reply::Woke(Wake::Event(event))) == (State {
            todo: seq![Op::Drain, Op::Flush],
            phase: Phase::Ready,
            ..s
        }),
{
}

/// Any other event leaves a running sequence as it was: what is pressed, what is owed, and until
/// when it pauses.
pub proof fn law_nothing_else_stops_a_sequence(c: Context, s: State, event: InputEvent)
    requires
        s.phase is EarsWait || s.phase is PollWait,
        event.kind matches EventKind::KeyDown(key) ==> !c.stops.contains((key, event.mods)) && !(
        primary(c.profile.binds[s.bind].trigger) == Some(key) && classes(
            c.profile.binds[s.bind].trigger,
        ) == event.mods),
    ensures
        s.phase matches Phase::EarsWait(deadline, _) ==> next(
            c,
            s,
            Reply::Woke(Wake::Event(event)),
        ) == (State { phase: Phase::EarsTop(deadline), ..s }),
        s.phase is PollWait ==> next(c, s, Reply::Woke(Wake::Event(event))) == (State {
            phase: Phase::PollNow,
            ..s
        }),
{
}

/// As many of one reply.
pub open spec fn again(reply: Reply, times: nat) -> Seq<Reply> {
    Seq::new(times, |i: int| reply)
}

proof fn lemma_drain_one(c: Context, s: State)
    requires
        s.phase is Ready,
        s.todo == seq![Op::Drain, Op::Flush],
        s.held.len() > 0,
    ensures
        next(c, s, Reply::Done) == (State { held: s.held.drop_last(), ..s }),
        sends(asking(c, s), Reply::Done) == seq![s.held.last().released()],
{
    assert(s.todo[0] == Op::Drain);
}

#[verifier::rlimit(40)]
proof fn lemma_draining(c: Context, s: State, n: nat)
    requires
        s.phase is Ready,
        s.todo == seq![Op::Drain, Op::Flush],
        n <= s.held.len(),
    ensures
        play(c, s, again(Reply::Done, n)) == (State {
            held: s.held.take(s.held.len() - n),
            ..s
        }),
        sent(c, s, again(Reply::Done, n)) == Seq::new(
            n,
            |i: int| s.held[s.held.len() - 1 - i].released(),
        ),
    decreases n,
{
    let replies = again(Reply::Done, n);
    if n == 0 {
        assert(s.held.take(s.held.len() as int) =~= s.held);
        assert(sent(c, s, replies) =~= Seq::new(
            0,
            |i: int| s.held[s.held.len() - 1 - i].released(),
        ));
    } else {
        let most = again(Reply::Done, (n - 1) as nat);
        assert(replies.drop_last() =~= most);
        lemma_draining(c, s, (n - 1) as nat);
        let mid = play(c, s, most);
        lemma_drain_one(c, mid);
        assert(mid.held.last() == s.held[s.held.len() - n]);
        assert(mid.held.drop_last() =~= s.held.take(s.held.len() - n));
        assert(sent(c, s, replies) =~= Seq::new(
            n,
            |i: int| s.held[s.held.len() - 1 - i].released(),
        ));
    }
}

/// A sequence that was stopped lets go of all that is pressed, the last pressed first, delivers
/// that, and is over; nothing else is sent.
pub proof fn law_a_stopped_sequence_releases_in_reverse(c: Context, s: State)
    requires
        s.phase is Ready,
        s.todo == seq![Op::Drain, Op::Flush],
    ensures
        ({
            let replies = again(Reply::Done, s.held.len()) + seq![
                Reply::Done,
                Reply::Sent(true),
                Reply::Done,
            ];
            &&& play(c, s, replies).phase == Phase::Over(None)
            &&& play(c, s, replies).held.len() == 0
            &&& sent(c, s, replies) == Seq::new(
                s.held.len(),
                |i: int| s.held[s.held.len() - 1 - i].released(),
            )
        }),
{
    let drained = again(Reply::Done, s.held.len());
    lemma_draining(c, s, s.held.len());
    let one = drained + seq![Reply::Done];
    let two = drained + seq![Reply::Done, Reply::Sent(true)];
    let all = drained + seq![Reply::Done, Reply::Sent(true), Reply::Done];
    assert(one.drop_last() =~= drained);
    assert(two.drop_last() =~= one);
    assert(all.drop_last() =~= two);
    let empty = play(c, s, drained);
    assert(empty.held.len() == 0);
    lemma_letting_go_ends(c, empty);
    let out = sent(c, s, drained);
    assert(sent(c, s, one) =~= out);
    assert(sent(c, s, two) =~= out);
    assert(sent(c, s, all) =~= out);
}

proof fn lemma_letting_go_ends(c: Context, s: State)
    requires
        s.phase is Ready,
        s.todo == seq![Op::Drain, Op::Flush],
        s.held.len() == 0,
    ensures
        ({
            let one = next(c, s, Reply::Done);
            let two = next(c, one, Reply::Sent(true));
            let end = next(c, two, Reply::Done);
            &&& end.phase == Phase::Over(None)
            &&& end.held.len() == 0
            &&& sends(asking(c, s), Reply::Done).len() == 0
            &&& sends(asking(c, one), Reply::Sent(true)).len() == 0
            &&& sends(asking(c, two), Reply::Done).len() == 0
        }),
{
    let one = next(c, s, Reply::Done);
    assert(one.todo =~= seq![Op::Flush]);
    let two = next(c, one, Reply::Sent(true));
    assert(two.todo =~= seq![]);
}

// -------------------------------------------------------------------------------- starting

/// A press that is the trigger of no binding, and a release, a click, a scroll or a move, begin
/// nothing: nothing is owed for it, and the run goes on.
pub proof fn law_only_a_trigger_begins_something(c: Context, s: State, event: InputEvent)
    requires
        event.kind matches EventKind::KeyDown(key) ==> !c.stops.contains((key, event.mods))
            && forall|i: int|
            0 <= i < c.profile.binds.len() ==> !(primary((#[trigger] c.profile.binds[i]).trigger)
                == Some(key) && classes(c.profile.binds[i].trigger) == event.mods),
    ensures
        handling(c, s, event) == (State { phase: Phase::Over(None), ..s }),
{
    if let EventKind::KeyDown(key) = event.kind {
        lemma_no_match(c.profile.binds, 0, key, event.mods);
    }
}

proof fn lemma_no_match(binds: Seq<BindModel>, from: int, key: Key, mods: Mods)
    requires
        0 <= from,
        forall|i: int|
            from <= i < binds.len() ==> !(primary((#[trigger] binds[i]).trigger) == Some(key)
                && classes(binds[i].trigger) == mods),
    ensures
        next_match(binds, from, key, mods) is None,
    decreases binds.len() - from,
{
    if from < binds.len() {
        assert(!fires(binds[from], key, mods));
        lemma_no_match(binds, from + 1, key, mods);
    }
}

proof fn lemma_first_match(binds: Seq<BindModel>, from: int, at: int, key: Key, mods: Mods)
    requires
        0 <= from <= at < binds.len(),
        primary(binds[at].trigger) == Some(key),
        classes(binds[at].trigger) == mods,
        forall|i: int|
            from <= i < at ==> !(primary((#[trigger] binds[i]).trigger) == Some(key) && classes(
                binds[i].trigger,
            ) == mods),
    ensures
        next_match(binds, from, key, mods) == Some(at),
    decreases binds.len() - from,
{
    if from < at {
        assert(!fires(binds[from], key, mods));
        lemma_first_match(binds, from + 1, at, key, mods);
    }
}

/// A press that is the trigger of exactly one binding begins that binding: of a sequence that
/// repeats at all, its first step is fetched with nothing owed before it, and of a mirror its
/// targets are taken up.
pub proof fn law_a_trigger_begins_its_binding(
    c: Context,
    s: State,
    event: InputEvent,
    at: int,
    key: Key,
)
    requires
        event.kind == EventKind::KeyDown(key),
        !c.stops.contains((key, event.mods)),
        0 <= at < c.profile.binds.len(),
        primary(c.profile.binds[at].trigger) == Some(key),
        classes(c.profile.binds[at].trigger) == event.mods,
        forall|i: int|
            0 <= i < c.profile.binds.len() && i != at ==> !(primary(
                (#[trigger] c.profile.binds[i]).trigger,
            ) == Some(key) && classes(c.profile.binds[i].trigger) == event.mods),
    ensures
        ({
            let bind = c.profile.binds[at];
            let t = handling(c, s, event);
            &&& t.bind == at
            &&& t.key == key
            &&& t.phase is Ready
            &&& t.held == s.held
            &&& bind.action is Sequence && bind.loops != Loops::Times(0) ==> t.todo == seq![
                Op::Fetch,
            ] && t.index == 0 && !t.wants_gap && t.loops.len() == 0
            &&& bind.action matches ActionModel::Mirror(targets) ==> t.todo.len() > 0
                && t.todo.last() == (if wanted(targets).covering(classes(bind.trigger)) {
                Op::Sift
            } else {
                Op::Lift
            })
        }),
{
    lemma_first_match(c.profile.binds, 0, at, key, event.mods);
    lemma_no_match(c.profile.binds, at + 1, key, event.mods);
    let fetch: Seq<Op> = seq![];
    assert(fetch.push(Op::Fetch) =~= seq![Op::Fetch]);
}

// ------------------------------------------------------------------------------- repeating

/// A press owes as many iterations as the binding says: one without a count, the count where there
/// is one, and an endless number of a sequence that repeats until it is stopped. Each iteration
/// that begins takes one off, and after the last one the sequence lets go; until then the next
/// begins at the first step after the gap.
pub proof fn law_a_sequence_runs_as_often_as_it_says(bind: BindModel, s: State, count: u32)
    requires
        !s.dead,
    ensures
        bind.loops == Loops::Once ==> iterating(bind, s, owed(bind.loops), seq![]).remaining == 0,
        bind.loops == Loops::Times(count) ==> iterating(
            bind,
            s,
            owed(bind.loops),
            seq![],
        ).remaining == count - 1,
        bind.loops == Loops::Infinite ==> iterating(
            bind,
            s,
            owed(bind.loops),
            seq![],
        ).remaining > 0,
        s.remaining == 0 ==> after_iteration(bind, s) == (State {
            todo: seq![Op::Drain, Op::Flush],
            phase: Phase::Ready,
            ..s
        }),
        s.remaining > 0 ==> ({
            let t = after_iteration(bind, s);
            &&& t.todo == seq![Op::Pause(bind.gap), Op::Fetch]
            &&& t.phase is Ready
            &&& t.index == 0
            &&& t.held == s.held
            &&& t.bind == s.bind
            &&& t.remaining == (if bind.loops == Loops::Infinite {
                s.remaining
            } else {
                s.remaining - 1
            })
        }),
{
    assert(seq![Op::Pause(bind.gap)].push(Op::Fetch) =~= seq![Op::Pause(bind.gap), Op::Fetch]);
}

/// When the event source is gone, nothing could stop an endless sequence any more, so it ends the
/// run; a counted one goes on to its last iteration.
pub proof fn law_only_an_endless_sequence_ends_with_its_source(bind: BindModel, s: State)
    requires
        s.dead,
    ensures
        bind.loops == Loops::Infinite ==> after_iteration(bind, s).phase == Phase::Over(
            Some(Outcome::SourceClosed),
        ),
        bind.loops != Loops::Infinite ==> after_iteration(bind, s).phase is Ready,
{
}

// ----------------------------------------------------------------------------------- focus

/// Where focus is watched, a sequence that has lost it stops at its next pause and between two
/// iterations, and a mirror that waits for its key sends nothing any more; one that still has it
/// goes on.
pub proof fn law_a_lost_focus_stops_a_sequence(c: Context, s: State, deadline: u64)
    requires
        c.seams.gate,
    ensures
        s.phase == Phase::EarsTop(deadline) ==> next(c, s, Reply::Answer(false)) == (State {
            todo: seq![Op::Drain, Op::Flush],
            phase: Phase::Ready,
            ..s
        }) && next(c, s, Reply::Answer(true)) == (State { phase: Phase::EarsNow(deadline), ..s }),
        s.phase is Ready && s.todo.len() > 0 && s.todo[0] is Poll ==> next(
            c,
            s,
            Reply::Answer(false),
        ) == (State { todo: seq![Op::Drain, Op::Flush], phase: Phase::Ready, ..s }) && next(
            c,
            s,
            Reply::Answer(true),
        ) == (State { phase: Phase::PollNow, ..s }),
        s.phase is AwaitGate ==> next(c, s, Reply::Answer(false)) == (State {
            phase: Phase::Over(None),
            ..s
        }) && next(c, s, Reply::Answer(true)) == (State { phase: Phase::AwaitNow, ..s }),
{
}

/// Where focus is watched, no wait of a pause lasts longer than fifty milliseconds before focus is
/// asked about again, nor past the end of the pause.
pub proof fn law_a_wait_never_outlasts_the_watch(c: Context, s: State, now: u64, deadline: u64)
    requires
        s.phase == Phase::EarsNow(deadline),
        now <= deadline,
    ensures
        next(c, s, Reply::Time(now)).phase matches Phase::EarsWait(end, until) && end == deadline
            && now <= until <= deadline && until - now <= 50_000_000 && (until == deadline || until
            - now == 50_000_000),
{
}

// --------------------------------------------------------------------------------- mirrors

/// A mirror whose target has the key of its own trigger waits for that key to be let go of, where
/// that can be asked, and asks again after fifteen milliseconds; a key that is up is not waited
/// for.
pub proof fn law_a_tap_waits_for_its_own_key(c: Context, s: State, now: u64)
    requires
        s.phase is Ready,
        s.todo.len() > 0,
        s.todo[0] is Await,
        now + 15_000_000 <= u64::MAX,
        !s.dead,
    ensures
        c.seams.key_down ==> asking(c, s) == Request::KeyDown(s.key),
        c.seams.key_down ==> next(c, s, Reply::Answer(true)).phase is AwaitGate && next(
            c,
            s,
            Reply::Answer(false),
        ) == s.after(),
        !c.seams.key_down ==> next(c, s, Reply::Done) == s.after(),
        next(c, s.at(Phase::AwaitNow), Reply::Time(now)).phase == Phase::AwaitWait(
            (now + 15_000_000) as u64,
        ),
        next(c, s.at(Phase::AwaitWait(now)), Reply::Woke(Wake::Deadline)) == s,
{
}

/// Sifting the targets of a mirror drops exactly those that the hand supplies: a modifier key of a
/// class that the trigger holds, unless the surroundings can tell that the class is not held.
/// Every other target is kept, in order, and once all were looked at those that were kept are
/// tapped.
pub proof fn law_only_what_the_hand_holds_is_left_out(
    c: Context,
    s: State,
    targets: Seq<Holdable>,
    key: Key,
    held: bool,
)
    requires
        c.profile.binds[s.bind].action == ActionModel::Mirror(targets),
        s.phase is Ready,
        s.todo.len() > 0,
        s.todo[0] is Sift,
        0 <= s.sift <= targets.len(),
    ensures
        s.sift < targets.len() && targets[s.sift] == Holdable::Key(key) && !decorates(key) ==> next(
            c,
            s,
            Reply::Done,
        ) == (State { sift: s.sift + 1, kept: s.kept.push(targets[s.sift]), ..s }),
        s.sift < targets.len() && targets[s.sift] is Button ==> next(c, s, Reply::Done) == (State {
            sift: s.sift + 1,
            kept: s.kept.push(targets[s.sift]),
            ..s
        }),
        s.sift < targets.len() && targets[s.sift] == Holdable::Key(key) && decorates(key)
            && classes(c.profile.binds[s.bind].trigger).covering(class_of(key)) ==> ({
            let t = next(
                c,
                s,
                if c.seams.mods_down {
                    Reply::Answer(held)
                } else {
                    Reply::Done
                },
            );
            &&& t.sift == s.sift + 1
            &&& t.kept == (if c.seams.mods_down && !held {
                s.kept.push(targets[s.sift])
            } else {
                s.kept
            })
        }),
        s.sift < targets.len() && targets[s.sift] == Holdable::Key(key) && decorates(key)
            && !classes(c.profile.binds[s.bind].trigger).covering(class_of(key)) ==> next(
            c,
            s,
            Reply::Done,
        ) == (State { sift: s.sift + 1, kept: s.kept.push(targets[s.sift]), ..s }),
        s.sift == targets.len() ==> next(c, s, Reply::Done).todo == tap_work(
            s.kept,
            c.profile.binds[s.bind].tap,
        ),
{
}

/// Modifiers that the trigger holds and the target does not want are lifted out of the way where
/// that can be done; where it cannot, or failed, the targets are tapped as they are.
pub proof fn law_a_lift_that_fails_taps_all_the_same(c: Context, s: State)
    requires
        s.phase is Ready,
        s.todo.len() > 0,
        s.todo[0] is Lift,
    ensures
        c.seams.lift ==> asking(c, s) == (Request::Lift {
            held: classes(c.profile.binds[s.bind].trigger),
            primary: if s.kept.contains(Holdable::Key(s.key)) {
                Some(s.key)
            } else {
                None
            },
            hold: c.profile.binds[s.bind].tap,
        }),
        c.seams.lift ==> next(c, s, Reply::Answer(true)).todo.len() == 0,
        c.seams.lift ==> next(c, s, Reply::Answer(false)).todo == tap_work(
            s.kept,
            c.profile.binds[s.bind].tap,
        ),
        !c.seams.lift ==> next(c, s, Reply::Done).todo == tap_work(
            s.kept,
            c.profile.binds[s.bind].tap,
        ),
{
}

/// Sending that fails ends the binding at once, whatever was asked to be sent.
pub proof fn law_a_failed_press_ends_the_binding(c: Context, s: State)
    requires
        asking(c, s) is Emit || asking(c, s) is Flush,
    ensures
        next(c, s, Reply::Sent(false)).phase is Failed,
        next(c, s, Reply::Sent(false)).held == s.held,
{
}

// ----------------------------------------------------------------------------------- steps

/// A block of chance runs where the roll is under its chance, and is left out otherwise: never for
/// a chance of zero, always for a chance of one, and for every roll under one that it runs for.
pub proof fn law_a_roll_under_the_chance_runs_the_block(
    c: Context,
    s: State,
    steps: Seq<StepModel>,
    chance: u64,
    roll: u64,
    lower: u64,
)
    requires
        c.profile.binds[s.bind].action == ActionModel::Sequence(steps),
        s.phase is Ready,
        s.todo.len() > 0,
        s.todo[0] == Op::Roll(chance),
        roll < 0x3FF0_0000_0000_0000,
        lower <= roll,
        0 <= s.index <= steps.len(),
    ensures
        asking(c, s) is Roll,
        roll < chance ==> next(c, s, Reply::Rolled(roll)) == s.after(),
        roll >= chance ==> next(c, s, Reply::Rolled(roll)) == (State {
            index: skipped(steps, s.index, 1),
            ..s.after()
        }),
        chance == 0 ==> next(c, s, Reply::Rolled(roll)).index == skipped(steps, s.index, 1),
        chance == 0x3FF0_0000_0000_0000 ==> next(c, s, Reply::Rolled(roll)).index == s.index,
        next(c, s, Reply::Rolled(roll)) == s.after() && roll < chance ==> next(
            c,
            s,
            Reply::Rolled(lower),
        ) == s.after(),
{
}

/// An action waits out the gap exactly where an action came before it: the first one does not, nor
/// one behind a WAIT, which pauses for its own time. A block of chance or a repeated block changes
/// nothing about that.
pub proof fn law_the_gap_stands_between_two_actions(
    bind: BindModel,
    steps: Seq<StepModel>,
    s: State,
    pause: u64,
)
    requires
        0 <= s.index < steps.len(),
    ensures
        ({
            let t = fetching(bind, steps, s);
            let step = steps[s.index];
            let act = step is Tap || step is Hold || step is Release;
            &&& act ==> t.wants_gap && t.index == s.index + 1
            &&& act && s.wants_gap ==> t.todo.len() > 1 && t.todo[0] == Op::Pause(bind.gap)
                && t.todo.skip(1) == step_work(step, bind.tap).push(Op::Fetch)
            &&& act && !s.wants_gap ==> t.todo == step_work(step, bind.tap).push(Op::Fetch)
            &&& step == StepModel::Wait(pause) ==> t.todo == seq![Op::Pause(pause), Op::Fetch]
                && !t.wants_gap && t.index == s.index + 1
            &&& !act && !(step is Wait) ==> t.wants_gap == s.wants_gap
        }),
{
    let t = fetching(bind, steps, s);
    let step = steps[s.index];
    let work = step_work(step, bind.tap);
    if s.wants_gap {
        assert((seq![Op::Pause(bind.gap)] + work + seq![Op::Fetch]).skip(1) =~= work.push(
            Op::Fetch,
        ));
    } else {
        assert(Seq::<Op>::empty() + work + seq![Op::Fetch] =~= work.push(Op::Fetch));
    }
}

/// A tap presses in order, stays down for its time and lets go in reverse; a PRESS only presses and
/// a RELEASE only lets go, in order.
pub proof fn law_each_action_does_its_work(targets: Seq<Holdable>, tap: u64, i: int)
    requires
        0 <= i < targets.len(),
    ensures
        ({
            let n = targets.len() as int;
            let work = step_work(StepModel::Tap(targets), tap);
            &&& work.len() == 2 * n + 1
            &&& work[i] == Op::Down(targets[i])
            &&& work[n] == Op::Pause(tap)
            &&& work[n + 1 + i] == Op::Up(targets[n - 1 - i])
        }),
        step_work(StepModel::Hold(targets), tap).len() == targets.len(),
        step_work(StepModel::Hold(targets), tap)[i] == Op::Down(targets[i]),
        step_work(StepModel::Release(targets), tap).len() == targets.len(),
        step_work(StepModel::Release(targets), tap)[i] == Op::Up(targets[i]),
        ({
            let n = targets.len() as int;
            let work = tap_work(targets, tap);
            &&& work.len() == 2 * n + 2
            &&& work[i] == Op::Down(targets[i])
            &&& work[n] == Op::Nap(tap)
            &&& work[n + 1 + i] == Op::Up(targets[n - 1 - i])
            &&& work[2 * n + 1] == Op::Flush
        }),
{
}

/// A failed chance goes on right behind the end of its own block: blocks inside it are passed over
/// whole.
pub proof fn law_a_failed_chance_goes_on_behind_its_block(
    steps: Seq<StepModel>,
    from: int,
    depth: nat,
)
    requires
        0 <= from < steps.len(),
        depth > 0,
    ensures
        steps[from] is RngEnd && depth == 1 ==> skipped(steps, from, depth) == from + 1,
        steps[from] is RngEnd && depth > 1 ==> skipped(steps, from, depth) == skipped(
            steps,
            from + 1,
            (depth - 1) as nat,
        ),
        steps[from] is Rng ==> skipped(steps, from, depth) == skipped(steps, from + 1, depth + 1),
        !(steps[from] is Rng || steps[from] is RngEnd) ==> skipped(steps, from, depth) == skipped(
            steps,
            from + 1,
            depth,
        ),
{
}

/// Times add up, and stop at the last one there is.
pub proof fn law_a_later_time_never_wraps(at: u64, nanos: u64)
    ensures
        at + nanos <= u64::MAX ==> later(at, nanos) == at + nanos,
        at + nanos > u64::MAX ==> later(at, nanos) == u64::MAX,
{
}

// ---------------------------------------------------------------------------- left and right

/// Where several bindings have the trigger that was pressed, and it can be asked which keys are
/// down, each is tried in turn: the first whose own modifier keys are all down is begun, and the
/// first of all where none is.
pub proof fn law_the_binding_under_the_hand_is_begun(c: Context, s: State, i: usize, j: usize)
    requires
        s.phase == Phase::Probe(i, j),
        i < c.profile.binds.len(),
        j < usize::MAX,
    ensures
        ({
            let trigger = c.profile.binds[i as int].trigger;
            let others = next_match(
                c.profile.binds,
                i + 1,
                s.key,
                classes(c.profile.binds[s.bind].trigger),
            );
            &&& j >= trigger.len() ==> next(c, s, Reply::Done) == starting(
                c,
                (State { bind: i as int, ..s }),
            )
            &&& j < trigger.len() && decorates(trigger[j as int]) ==> asking(c, s)
                == Request::KeyDown(trigger[j as int]) && next(c, s, Reply::Answer(true)) == (State {
                phase: Phase::Probe(i, (j + 1) as usize),
                ..s
            }) && (others is None ==> next(c, s, Reply::Answer(false)) == starting(c, s)) && (
            others matches Some(k) ==> next(c, s, Reply::Answer(false)) == (State {
                phase: Phase::Probe(k as usize, 0),
                ..s
            }))
            &&& j < trigger.len() && !decorates(trigger[j as int]) ==> next(c, s, Reply::Done) == (
            State { phase: Phase::Probe(i, (j + 1) as usize), ..s })
        }),
{
}

} // verus!
