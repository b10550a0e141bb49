//! The profile executor: trigger events in, synthetic presses out.
//!
//! The executor owns every decision and performs nothing: it asks for one thing at a time (send
//! this press, wait until then, roll the dice) and is told what came of it. Sleeps go through the
//! event wait, so a second press of a looping trigger or an emergency stop ends a pause early.
//! When the event source is gone, the iteration that runs still completes on the bare clock.
//! Whatever is pressed stands in a ledger, and a run that ends releases it in reverse order.
use vstd::prelude::*;

use crate::input::{
    classes, copy_holdables, decorates, has_holdable, is_modifier, remove_last, without_last,
    class_of, EmitAction, EventKind, Holdable, InputEvent, Key, Mods,
};
use crate::runtime::Wake;

use super::model::{
    chord_mods, primary, primary_key, steps_view, target_mods, wanted, Action, ActionModel,
    BindModel, Loops, Profile, ProfileModel, Step, StepModel,
};

verus! {

/// Where focus is watched, a wait lasts at most this many nanoseconds before focus is asked about
/// again.
pub const CHUNK_NANOS: u64 = 50_000_000;

/// How often a tap that waits for a key to be let go of asks again, in nanoseconds.
pub const DEFER_POLL_NANOS: u64 = 15_000_000;

/// How a run ended.
#[derive(Debug, Clone, Copy, PartialEq, Eq, Structural)]
pub enum Outcome {
    /// The event source is gone.
    SourceClosed,
    /// An emergency stop was pressed.
    EmergencyStop,
}

/// What the executor asks of its surroundings.
#[derive(Debug, Clone, Copy, PartialEq, Eq, Structural)]
pub enum Request {
    /// Nothing: go on.
    Continue,
    /// Wait for an event, until the time if there is one.
    Wait(Option<u64>),
    /// Read the clock.
    Now,
    /// Sleep until the time.
    SleepUntil(u64),
    /// Whether the profile may still go on.
    Gate,
    /// Whether a key is physically down.
    KeyDown(Key),
    /// Whether any of the modifier classes is physically held.
    ModsDown(Mods),
    /// Tap the targets at hand with the held modifier classes lifted out of the way, and the
    /// trigger's own key too if it is given, holding for so many nanoseconds.
    Lift { held: Mods, primary: Option<Key>, hold: u64 },
    /// Roll the dice: a number from zero up to one, by its bits.
    Roll,
    /// Send a press or release, and tell whether it was sent.
    Emit(EmitAction),
    /// Send a release; whether it was sent does not matter.
    EmitQuiet(EmitAction),
    /// Deliver what was sent, and tell whether that worked.
    Flush,
    /// Deliver what was sent; whether that worked does not matter.
    FlushQuiet,
    /// Release whatever the backend still holds.
    ReleaseAll,
    /// The event has been dealt with, and the whole run ends if an outcome is given.
    Handled(Option<Outcome>),
    /// Sending failed.
    Failed,
}

/// What came of a request.
#[derive(Debug, Clone, Copy, PartialEq, Eq, Structural)]
pub enum Reply {
    /// It is done.
    Done,
    /// The wait ended.
    Woke(Wake),
    /// The time in nanoseconds.
    Time(u64),
    /// The answer to a question.
    Answer(bool),
    /// The bits of the number rolled.
    Rolled(u64),
    /// Whether it was sent.
    Sent(bool),
}

/// Which of the questions the surroundings can answer.
#[derive(Debug, Clone, Copy, PartialEq, Eq, Structural)]
pub struct Seams {
    pub gate: bool,
    pub mods_down: bool,
    pub key_down: bool,
    pub lift: bool,
}

/// One piece of work that is still owed.
#[derive(Debug, Clone, Copy, PartialEq, Eq, Structural)]
pub enum Op {
    /// Press, and enter in the ledger.
    Down(Holdable),
    /// Release, and take out of the ledger.
    Up(Holdable),
    /// Deliver what was sent.
    Flush,
    /// Sleep on the clock.
    Nap(u64),
    /// Sleep with an ear on the events.
    Pause(u64),
    /// Hear out the events that are already there.
    Poll,
    /// Roll against a chance and skip the block on failure.
    Roll(u64),
    /// Take the next step of the sequence.
    Fetch,
    /// Decide whether another iteration is due.
    EndIteration,
    /// Release the whole ledger in reverse order.
    Drain,
    /// Wait for the trigger's own key to be let go of.
    Await,
    /// Drop the targets that the hand supplies already.
    Sift,
    /// Have the targets tapped between lifted modifiers.
    Lift,
}

/// Where the piece of work at hand stands.
#[derive(Debug, Clone, Copy, PartialEq, Eq, Structural)]
pub enum Phase {
    /// It has not begun.
    Ready,
    /// A pause is about to ask about focus.
    EarsTop(u64),
    /// A pause found that it may go on.
    EarsNow(u64),
    /// A pause waits, until the second time at first.
    EarsWait(u64, u64),
    /// A pause woke at a deadline.
    EarsLate(u64),
    /// Sleeping on the bare clock.
    Sleeping(u64),
    /// A poll is about to look.
    PollNow,
    /// A poll looks.
    PollWait(u64),
    /// The key is still down.
    AwaitGate,
    /// The key is still down and the tap may go on.
    AwaitNow,
    /// Waiting before asking again.
    AwaitWait(u64),
    /// Asking which of several bindings the hand is on: the binding and the trigger key.
    Probe(usize, usize),
    /// The event has been dealt with.
    Over(Option<Outcome>),
    /// Sending failed.
    Failed,
}

/// An open repeated block: where its body starts, and how many runs it still owes.
#[derive(Debug, Clone, Copy, PartialEq, Eq, Structural)]
pub struct Lap {
    pub start: usize,
    pub left: u32,
}

/// What a pause heard.
#[derive(Debug, Clone, Copy, PartialEq, Eq, Structural)]
pub enum Heard {
    /// Nothing of note.
    Nothing,
    /// The running binding's own trigger went down again.
    StopBind,
    /// An emergency stop went down.
    Emergency,
}

// ------------------------------------------------------------------------ the model

/// What stays the same during a run.
#[verifier::ext_equal]
pub struct Context {
    pub profile: ProfileModel,
    pub stops: Seq<(Key, Mods)>,
    pub seams: Seams,
}

/// What changes during a run.
#[verifier::ext_equal]
pub struct State {
    /// What is pressed, in the order in which it was.
    pub held: Seq<Holdable>,
    /// The event source is gone.
    pub dead: bool,
    pub phase: Phase,
    /// The work owed, first things first.
    pub todo: Seq<Op>,
    /// The running binding.
    pub bind: int,
    /// The key that fired it.
    pub key: Key,
    /// The targets of a mirror that are to be tapped.
    pub kept: Seq<Holdable>,
    /// How many targets have been looked at for that.
    pub sift: int,
    /// The next step of the sequence.
    pub index: int,
    /// Whether the next action owes the gap.
    pub wants_gap: bool,
    pub loops: Seq<Lap>,
    /// How many iterations are owed after this one.
    pub remaining: int,
}

/// A time so many nanoseconds later, capped at the last one.
pub open spec fn later(at: u64, nanos: u64) -> u64 {
    if at + nanos > u64::MAX {
        u64::MAX
    } else {
        (at + nanos) as u64
    }
}

/// Whether an event is exactly the trigger of a binding.
pub open spec fn fires(bind: BindModel, key: Key, mods: Mods) -> bool {
    primary(bind.trigger) == Some(key) && classes(bind.trigger) == mods
}

/// The first binding from `from` on whose trigger the event is.
pub open spec fn next_match(binds: Seq<BindModel>, from: int, key: Key, mods: Mods) -> Option<int>
    decreases binds.len() - from,
{
    if from < 0 || from >= binds.len() {
        None
    } else if fires(binds[from], key, mods) {
        Some(from)
    } else {
        next_match(binds, from + 1, key, mods)
    }
}

/// What an event during a sequence means.
pub open spec fn hears(c: Context, bind: BindModel, event: InputEvent) -> Heard {
    match event.kind {
        EventKind::KeyDown(key) => if c.stops.contains((key, event.mods)) {
            Heard::Emergency
        } else if fires(bind, key, event.mods) {
            Heard::StopBind
        } else {
            Heard::Nothing
        },
        _ => Heard::Nothing,
    }
}

/// The presses of a chord, in listed order.
pub open spec fn downs(targets: Seq<Holdable>) -> Seq<Op> {
    targets.map_values(|h: Holdable| Op::Down(h))
}

/// The releases of a list, in listed order.
pub open spec fn ups(targets: Seq<Holdable>) -> Seq<Op> {
    targets.map_values(|h: Holdable| Op::Up(h))
}

/// A mirror's tap: down in listed order, up in reverse, delivered.
pub open spec fn tap_work(targets: Seq<Holdable>, tap: u64) -> Seq<Op> {
    downs(targets) + seq![Op::Nap(tap)] + ups(targets.reverse()) + seq![Op::Flush]
}

/// The gap before an action, if it is owed.
pub open spec fn gap_work(wants_gap: bool, gap: u64) -> Seq<Op> {
    if wants_gap {
        seq![Op::Pause(gap)]
    } else {
        seq![]
    }
}

/// The work of one acting step after its gap; a tap releases in reverse.
pub open spec fn step_work(step: StepModel, tap: u64) -> Seq<Op> {
    match step {
        StepModel::Tap(targets) => downs(targets) + seq![Op::Pause(tap)] + ups(targets.reverse()),
        StepModel::Hold(targets) => downs(targets),
        StepModel::Release(targets) => ups(targets),
        _ => seq![],
    }
}

/// How many blocks of chance are open after the steps from `from` up to `to`, counting one that
/// was open before; zero as soon as that one has closed.
pub open spec fn skipped(steps: Seq<StepModel>, from: int, depth: nat) -> int
    decreases steps.len() - from,
{
    if from < 0 || from >= steps.len() {
        from
    } else {
        match steps[from] {
            StepModel::Rng(_) => skipped(steps, from + 1, depth + 1),
            StepModel::RngEnd => if depth <= 1 {
                from + 1
            } else {
                skipped(steps, from + 1, (depth - 1) as nat)
            },
            _ => skipped(steps, from + 1, depth),
        }
    }
}

impl State {
    /// The work at hand is done.
    pub open spec fn after(self) -> State {
        State { todo: self.todo.skip(1), phase: Phase::Ready, ..self }
    }

    pub open spec fn at(self, phase: Phase) -> State {
        State { phase, ..self }
    }

    pub open spec fn owing(self, todo: Seq<Op>) -> State {
        State { todo, phase: Phase::Ready, ..self }
    }

    /// A stopped sequence lets go of what it pressed.
    pub open spec fn stopping(self) -> State {
        self.owing(seq![Op::Drain, Op::Flush])
    }

    pub open spec fn closed(self) -> State {
        State { dead: true, ..self }
    }

    /// After an event that a pause or a poll heard; `onward` is where it goes on otherwise.
    pub open spec fn after_hearing(self, heard: Heard, onward: Phase) -> State {
        match heard {
            Heard::Nothing => self.at(onward),
            Heard::StopBind => self.stopping(),
            Heard::Emergency => self.at(Phase::Over(Some(Outcome::EmergencyStop))),
        }
    }
}

/// How many iterations a press owes.
pub open spec fn owed(loops: Loops) -> int {
    match loops {
        Loops::Once => 1,
        Loops::Times(times) => times as int,
        Loops::Infinite => u32::MAX as int,
    }
}

/// What is owed once an iteration has begun.
pub open spec fn less_one(loops: Loops, remaining: int) -> int {
    if loops is Infinite {
        remaining
    } else {
        remaining - 1
    }
}

/// The beginning of an iteration: after the work that comes first, from the first step on.
pub open spec fn iterating(bind: BindModel, s: State, remaining: int, first: Seq<Op>) -> State {
    State {
        todo: first.push(Op::Fetch),
        phase: Phase::Ready,
        index: 0,
        wants_gap: false,
        loops: seq![],
        remaining: less_one(bind.loops, remaining),
        ..s
    }
}

/// The beginning of a binding.
pub open spec fn starting(c: Context, s: State) -> State {
    let bind = c.profile.binds[s.bind];
    match bind.action {
        ActionModel::Mirror(targets) => if wanted(targets).covering(classes(bind.trigger)) {
            let s1 = State { kept: seq![], sift: 0, ..s };
            if targets.contains(Holdable::Key(s.key)) {
                s1.owing(seq![Op::Await, Op::Sift])
            } else {
                s1.owing(seq![Op::Sift])
            }
        } else {
            State { kept: targets, ..s }.owing(seq![Op::Lift])
        },
        ActionModel::Sequence(_) => if owed(bind.loops) == 0 {
            s.stopping()
        } else {
            iterating(bind, s, owed(bind.loops), seq![])
        },
    }
}

/// What an event begins.
pub open spec fn handling(c: Context, s: State, event: InputEvent) -> State {
    match event.kind {
        EventKind::KeyDown(key) => if c.stops.contains((key, event.mods)) {
            s.at(Phase::Over(Some(Outcome::EmergencyStop)))
        } else {
            match next_match(c.profile.binds, 0, key, event.mods) {
                None => s.at(Phase::Over(None)),
                Some(first) => {
                    let s1 = State { bind: first, key, ..s };
                    if c.seams.key_down && next_match(
                        c.profile.binds,
                        first + 1,
                        key,
                        event.mods,
                    ) is Some {
                        s1.at(Phase::Probe(first as usize, 0))
                    } else {
                        starting(c, s1)
                    }
                },
            }
        },
        _ => s.at(Phase::Over(None)),
    }
}

/// Whether the hand may supply a target of the running mirror: it is a modifier key of a class
/// that the trigger holds.
pub open spec fn hand_held(bind: BindModel, target: Holdable) -> bool {
    match target {
        Holdable::Key(key) => decorates(key) && classes(bind.trigger).covering(class_of(key)),
        Holdable::Button(_) => false,
    }
}

/// What the executor asks for.
pub open spec fn asking(c: Context, s: State) -> Request {
    let bind = c.profile.binds[s.bind];
    match s.phase {
        Phase::Over(outcome) => Request::Handled(outcome),
        Phase::Failed => Request::Failed,
        Phase::Probe(i, j) => {
            let trigger = c.profile.binds[i as int].trigger;
            if j < trigger.len() && decorates(trigger[j as int]) {
                Request::KeyDown(trigger[j as int])
            } else {
                Request::Continue
            }
        },
        Phase::EarsTop(_) => if c.seams.gate {
            Request::Gate
        } else {
            Request::Continue
        },
        Phase::EarsNow(_) => Request::Now,
        Phase::EarsWait(_, until) => Request::Wait(Some(until)),
        Phase::EarsLate(_) => Request::Now,
        Phase::Sleeping(until) => Request::SleepUntil(until),
        Phase::PollNow => if s.dead {
            Request::Continue
        } else {
            Request::Now
        },
        Phase::PollWait(until) => Request::Wait(Some(until)),
        Phase::AwaitGate => if c.seams.gate {
            Request::Gate
        } else {
            Request::Continue
        },
        Phase::AwaitNow => if s.dead {
            Request::Continue
        } else {
            Request::Now
        },
        Phase::AwaitWait(until) => Request::Wait(Some(until)),
        Phase::Ready => if s.todo.len() == 0 {
            Request::Continue
        } else {
            match s.todo[0] {
                Op::Down(h) => Request::Emit(h.pressed()),
                Op::Up(h) => Request::Emit(h.released()),
                Op::Flush => Request::Flush,
                Op::Nap(nanos) | Op::Pause(nanos) => if nanos == 0 {
                    Request::Continue
                } else {
                    Request::Now
                },
                Op::Poll => if c.seams.gate {
                    Request::Gate
                } else {
                    Request::Continue
                },
                Op::Roll(_) => Request::Roll,
                Op::Fetch | Op::EndIteration => Request::Continue,
                Op::Drain => if s.held.len() == 0 {
                    Request::Continue
                } else {
                    Request::EmitQuiet(s.held.last().released())
                },
                Op::Await => if c.seams.key_down {
                    Request::KeyDown(s.key)
                } else {
                    Request::Continue
                },
                Op::Sift => match bind.action {
                    ActionModel::Mirror(targets) => if 0 <= s.sift < targets.len() && hand_held(
                        bind,
                        targets[s.sift],
                    ) && c.seams.mods_down {
                        Request::ModsDown(class_of(targets[s.sift]->Key_0))
                    } else {
                        Request::Continue
                    },
                    ActionModel::Sequence(_) => Request::Continue,
                },
                Op::Lift => if c.seams.lift {
                    Request::Lift {
                        held: classes(bind.trigger),
                        primary: if s.kept.contains(Holdable::Key(s.key)) {
                            Some(s.key)
                        } else {
                            None
                        },
                        hold: bind.tap,
                    }
                } else {
                    Request::Continue
                },
            }
        },
    }
}

/// Whether a reply answers a request.
pub open spec fn fits(request: Request, reply: Reply) -> bool {
    match request {
        Request::Continue
        | Request::SleepUntil(_)
        | Request::EmitQuiet(_)
        | Request::FlushQuiet
        | Request::ReleaseAll => reply is Done,
        Request::Wait(_) => reply is Woke,
        Request::Now => reply is Time,
        Request::Gate | Request::KeyDown(_) | Request::ModsDown(_) | Request::Lift { .. } =>
            reply is Answer,
        Request::Roll => reply is Rolled,
        Request::Emit(_) | Request::Flush => reply is Sent,
        Request::Handled(_) | Request::Failed => false,
    }
}

/// The next step of a sequence as work: waits, chance blocks and repeated blocks are control and
/// owe no gap; an action owes the gap where the one before it was an action too.
pub open spec fn fetching(bind: BindModel, steps: Seq<StepModel>, s: State) -> State {
    if s.index < 0 || s.index >= steps.len() {
        s.owing(seq![Op::Flush, Op::Poll, Op::EndIteration])
    } else {
        let step = steps[s.index];
        let s1 = State { index: s.index + 1, ..s };
        match step {
            StepModel::Wait(pause) => State { wants_gap: false, ..s1 }.owing(
                seq![Op::Pause(pause), Op::Fetch],
            ),
            StepModel::Rng(chance) => s1.owing(seq![Op::Roll(chance), Op::Fetch]),
            StepModel::RngEnd => s1.owing(seq![Op::Fetch]),
            StepModel::Loop(times) => State {
                loops: s.loops.push(
                    Lap {
                        start: (s.index + 1) as usize,
                        left: if times == 0 {
                            0
                        } else {
                            (times - 1) as u32
                        },
                    },
                ),
                ..s1
            }.owing(seq![Op::Fetch]),
            StepModel::LoopEnd => if s.loops.len() == 0 {
                s1.owing(seq![Op::Fetch])
            } else if s.loops.last().left == 0 {
                State { loops: s.loops.drop_last(), ..s1 }.owing(seq![Op::Fetch])
            } else {
                let lap = s.loops.last();
                State {
                    loops: s.loops.drop_last().push(
                        Lap { start: lap.start, left: (lap.left - 1) as u32 },
                    ),
                    index: lap.start as int,
                    ..s1
                }.owing(seq![Op::Poll, Op::Fetch])
            },
            _ => State { wants_gap: true, ..s1 }.owing(
                gap_work(s.wants_gap, bind.gap) + step_work(step, bind.tap) + seq![Op::Fetch],
            ),
        }
    }
}

/// What comes after an iteration: nothing can ever stop an endless one whose event source is
/// gone, so that one ends the run; an owed one follows after the gap; else the sequence lets go
/// of what it pressed.
pub open spec fn after_iteration(bind: BindModel, s: State) -> State {
    if s.dead && bind.loops is Infinite {
        s.at(Phase::Over(Some(Outcome::SourceClosed)))
    } else if s.remaining <= 0 {
        s.stopping()
    } else {
        iterating(bind, s, s.remaining, seq![Op::Pause(bind.gap)])
    }
}

/// What the work at hand comes to, before it has begun.
pub open spec fn working(c: Context, s: State, reply: Reply) -> State {
    let bind = c.profile.binds[s.bind];
    if s.todo.len() == 0 {
        s.at(Phase::Over(None))
    } else {
        match s.todo[0] {
            Op::Down(h) => if reply == Reply::Sent(true) {
                State { held: s.held.push(h), ..s }.after()
            } else {
                s.at(Phase::Failed)
            },
            Op::Up(h) => if reply == Reply::Sent(true) {
                State { held: without_last(s.held, h), ..s }.after()
            } else {
                s.at(Phase::Failed)
            },
            Op::Flush => if reply == Reply::Sent(true) {
                s.after()
            } else {
                s.at(Phase::Failed)
            },
            Op::Nap(nanos) => if nanos == 0 {
                s.after()
            } else {
                s.at(Phase::Sleeping(later(reply->Time_0, nanos)))
            },
            Op::Pause(nanos) => if nanos == 0 {
                s.after()
            } else if s.dead {
                s.at(Phase::Sleeping(later(reply->Time_0, nanos)))
            } else {
                s.at(Phase::EarsTop(later(reply->Time_0, nanos)))
            },
            Op::Poll => if c.seams.gate && reply == Reply::Answer(false) {
                s.stopping()
            } else {
                s.at(Phase::PollNow)
            },
            Op::Roll(chance) => match bind.action {
                ActionModel::Sequence(steps) => if reply->Rolled_0 >= chance {
                    State { index: skipped(steps, s.index, 1), ..s }.after()
                } else {
                    s.after()
                },
                ActionModel::Mirror(_) => s.after(),
            },
            Op::Fetch => match bind.action {
                ActionModel::Sequence(steps) => fetching(bind, steps, s),
                ActionModel::Mirror(_) => s.after(),
            },
            Op::EndIteration => after_iteration(bind, s),
            Op::Drain => if s.held.len() == 0 {
                s.after()
            } else {
                State { held: s.held.drop_last(), ..s }
            },
            Op::Await => if c.seams.key_down && reply == Reply::Answer(true) {
                s.at(Phase::AwaitGate)
            } else {
                s.after()
            },
            Op::Sift => match bind.action {
                ActionModel::Mirror(targets) => if 0 <= s.sift < targets.len() {
                    let target = targets[s.sift];
                    let supplied = hand_held(bind, target) && (!c.seams.mods_down || reply
                        == Reply::Answer(true));
                    State {
                        sift: s.sift + 1,
                        kept: if supplied {
                            s.kept
                        } else {
                            s.kept.push(target)
                        },
                        ..s
                    }
                } else {
                    s.owing(tap_work(s.kept, bind.tap))
                },
                ActionModel::Sequence(_) => s.after(),
            },
            Op::Lift => if c.seams.lift && reply == Reply::Answer(true) {
                s.owing(seq![])
            } else {
                s.owing(tap_work(s.kept, bind.tap))
            },
        }
    }
}

/// The state after a reply to what was asked.
pub open spec fn next(c: Context, s: State, reply: Reply) -> State {
    let bind = c.profile.binds[s.bind];
    if !fits(asking(c, s), reply) {
        s
    } else {
        match s.phase {
            Phase::Over(_) | Phase::Failed => s,
            Phase::Probe(i, j) => {
                let trigger = c.profile.binds[i as int].trigger;
                if j >= trigger.len() {
                    starting(c, State { bind: i as int, ..s })
                } else if decorates(trigger[j as int]) && reply == Reply::Answer(false) {
                    match next_match(c.profile.binds, i + 1, s.key, classes(bind.trigger)) {
                        Some(k) => s.at(Phase::Probe(k as usize, 0)),
                        None => starting(c, s),
                    }
                } else {
                    s.at(Phase::Probe(i, (j + 1) as usize))
                }
            },
            Phase::EarsTop(deadline) => if !c.seams.gate {
                s.at(Phase::EarsWait(deadline, deadline))
            } else if reply == Reply::Answer(true) {
                s.at(Phase::EarsNow(deadline))
            } else {
                s.stopping()
            },
            Phase::EarsNow(deadline) => {
                let chunk = later(reply->Time_0, CHUNK_NANOS);
                s.at(
                    Phase::EarsWait(
                        deadline,
                        if chunk < deadline {
                            chunk
                        } else {
                            deadline
                        },
                    ),
                )
            },
            Phase::EarsWait(deadline, _) => match reply->Woke_0 {
                Wake::Event(event) => s.after_hearing(
                    hears(c, bind, event),
                    Phase::EarsTop(deadline),
                ),
                Wake::Deadline => s.at(Phase::EarsLate(deadline)),
                Wake::Interrupted => s.closed().at(Phase::Sleeping(deadline)),
            },
            Phase::EarsLate(deadline) => if reply->Time_0 >= deadline {
                s.after()
            } else {
                s.at(Phase::EarsTop(deadline))
            },
            Phase::Sleeping(_) => s.after(),
            Phase::PollNow => if s.dead {
                s.after()
            } else {
                s.at(Phase::PollWait(reply->Time_0))
            },
            Phase::PollWait(_) => match reply->Woke_0 {
                Wake::Event(event) => s.after_hearing(hears(c, bind, event), Phase::PollNow),
                Wake::Deadline => s.after(),
                Wake::Interrupted => s.closed().after(),
            },
            Phase::AwaitGate => if c.seams.gate && reply == Reply::Answer(false) {
                s.at(Phase::Over(None))
            } else {
                s.at(Phase::AwaitNow)
            },
            Phase::AwaitNow => if s.dead {
                s.after()
            } else {
                s.at(Phase::AwaitWait(later(reply->Time_0, DEFER_POLL_NANOS)))
            },
            Phase::AwaitWait(_) => match reply->Woke_0 {
                Wake::Event(event) => match event.kind {
                    EventKind::KeyDown(key) => if c.stops.contains((key, event.mods)) {
                        s.at(Phase::Over(Some(Outcome::EmergencyStop)))
                    } else {
                        s.at(Phase::Ready)
                    },
                    _ => s.at(Phase::Ready),
                },
                Wake::Deadline => s.at(Phase::Ready),
                Wake::Interrupted => s.closed().after(),
            },
            Phase::Ready => working(c, s, reply),
        }
    }
}

// ------------------------------------------------------------------------ the executor

/// A profile's emergency chords the way their events arrive.
pub open spec fn stop_signatures(chords: Seq<Seq<Key>>) -> Seq<(Key, Mods)>
    decreases chords.len(),
{
    if chords.len() == 0 {
        seq![]
    } else {
        let before = stop_signatures(chords.drop_last());
        match primary(chords.last()) {
            Some(key) => before.push((key, classes(chords.last()))),
            None => before,
        }
    }
}

/// A profile's emergency chords the way their events arrive: the ordinary key of each with the
/// modifier classes that must be held with it.
pub fn stop_chords(profile: &Profile) -> (out: Vec<(Key, Mods)>)
    ensures
        out@ == stop_signatures(profile@.emergency_stop),
{
    let mut out: Vec<(Key, Mods)> = Vec::new();
    let mut i: usize = 0;
    let ghost chords = profile@.emergency_stop;
    while i < profile.emergency_stop.len()
        invariant
            i <= profile.emergency_stop@.len(),
            chords == profile@.emergency_stop,
            out@ == stop_signatures(chords.take(i as int)),
        decreases profile.emergency_stop@.len() - i,
    {
        proof {
            assert(chords.take(i + 1).drop_last() =~= chords.take(i as int));
            assert(chords.take(i + 1).last() == profile.emergency_stop@[i as int]@);
        }
        if let Some(key) = primary_key(&profile.emergency_stop[i]) {
            out.push((key, chord_mods(&profile.emergency_stop[i])));
        }
        i += 1;
    }
    assert(chords.take(chords.len() as int) =~= chords);
    out
}

/// Whether an event is one of the emergency chords.
pub fn is_stop(stops: &Vec<(Key, Mods)>, key: Key, mods: Mods) -> (r: bool)
    ensures
        r == stops@.contains((key, mods)),
{
    let mut i: usize = 0;
    while i < stops.len()
        invariant
            i <= stops@.len(),
            forall|j: int| 0 <= j < i ==> stops@[j] != (key, mods),
        decreases stops@.len() - i,
    {
        if stops[i].0 == key && stops[i].1 == mods {
            assert(stops@[i as int] == (key, mods));
            return true;
        }
        i += 1;
    }
    false
}

/// Whether an event is exactly a binding's trigger: its ordinary key with its modifier classes,
/// no fewer and no more.
pub fn trigger_matches(trigger: &Vec<Key>, key: Key, mods: Mods) -> (r: bool)
    ensures
        r == (primary(trigger@) == Some(key) && classes(trigger@) == mods),
{
    match primary_key(trigger) {
        Some(first) => first == key && chord_mods(trigger) == mods,
        None => false,
    }
}

/// The releases of a list.
pub open spec fn releases(held: Seq<Holdable>) -> Seq<EmitAction> {
    held.map_values(|h: Holdable| h.released())
}

/// The presses of a list.
pub open spec fn presses(targets: Seq<Holdable>) -> Seq<EmitAction> {
    targets.map_values(|h: Holdable| h.pressed())
}

/// Empties a ledger and gives the releases that this owes, last pressed first.
pub fn drain_held(held: &mut Vec<Holdable>) -> (out: Vec<EmitAction>)
    ensures
        final(held)@.len() == 0,
        out@ == releases(old(held)@.reverse()),
{
    let mut out: Vec<EmitAction> = Vec::new();
    let ghost all = releases(held@.reverse());
    while held.len() > 0
        invariant
            all == releases(old(held)@.reverse()),
            held@.len() <= old(held)@.len(),
            held@ == old(held)@.take(held@.len() as int),
            out@ == all.take(old(held)@.len() - held@.len()),
        decreases held@.len(),
    {
        let ghost n = held@.len();
        if let Some(last) = held.pop() {
            out.push(last.up());
            proof {
                assert(last == old(held)@[n - 1]);
                assert(all[old(held)@.len() - n] == last.released());
                assert(out@ =~= all.take(old(held)@.len() - held@.len()));
                assert(held@ =~= old(held)@.take(held@.len() as int));
            }
        }
    }
    assert(all.take(all.len() as int) =~= all);
    out
}

/// A time so many nanoseconds later, capped at the last one.
pub fn saturating_later(at: u64, nanos: u64) -> (r: u64)
    ensures
        r == later(at, nanos),
{
    at.saturating_add(nanos)
}

/// The index just past the end of the chance block that was opened before `from`.
pub fn skip_block(steps: &Vec<Step>, from: usize) -> (to: usize)
    ensures
        to == skipped(steps_view(steps@), from as int, 1),
{
    let ghost model = steps_view(steps@);
    let mut inner: usize = 0;
    let mut index: usize = from;
    while index < steps.len()
        invariant
            from <= index,
            from < index ==> index <= steps@.len(),
            model == steps_view(steps@),
            inner <= index - from,
            skipped(model, from as int, 1) == skipped(model, index as int, (inner + 1) as nat),
        decreases steps@.len() - index,
    {
        assert(model[index as int] == steps@[index as int]@);
        match &steps[index] {
            Step::Rng(_) => {
                inner += 1;
            },
            Step::RngEnd => {
                if inner == 0 {
                    return index + 1;
                }
                inner -= 1;
            },
            _ => {},
        }
        index += 1;
    }
    index
}

fn push_downs(todo: &mut Vec<Op>, targets: &Vec<Holdable>)
    ensures
        final(todo)@ == old(todo)@ + downs(targets@),
{
    let mut i: usize = 0;
    while i < targets.len()
        invariant
            i <= targets@.len(),
            todo@ == old(todo)@ + downs(targets@.take(i as int)),
        decreases targets@.len() - i,
    {
        todo.push(Op::Down(targets[i]));
        i += 1;
        assert(todo@ =~= old(todo)@ + downs(targets@.take(i as int)));
    }
    assert(targets@.take(targets@.len() as int) =~= targets@);
}

fn push_ups(todo: &mut Vec<Op>, targets: &Vec<Holdable>)
    ensures
        final(todo)@ == old(todo)@ + ups(targets@),
{
    let mut i: usize = 0;
    while i < targets.len()
        invariant
            i <= targets@.len(),
            todo@ == old(todo)@ + ups(targets@.take(i as int)),
        decreases targets@.len() - i,
    {
        todo.push(Op::Up(targets[i]));
        i += 1;
        assert(todo@ =~= old(todo)@ + ups(targets@.take(i as int)));
    }
    assert(targets@.take(targets@.len() as int) =~= targets@);
}

fn push_ups_reversed(todo: &mut Vec<Op>, targets: &Vec<Holdable>)
    ensures
        final(todo)@ == old(todo)@ + ups(targets@.reverse()),
{
    let mut i: usize = targets.len();
    let ghost reversed = targets@.reverse();
    while i > 0
        invariant
            i <= targets@.len(),
            reversed == targets@.reverse(),
            todo@ == old(todo)@ + ups(reversed.take(targets@.len() - i)),
        decreases i,
    {
        i -= 1;
        todo.push(Op::Up(targets[i]));
        assert(reversed[targets@.len() - i - 1] == targets@[i as int]);
        assert(todo@ =~= old(todo)@ + ups(reversed.take(targets@.len() - i)));
    }
    assert(reversed.take(targets@.len() as int) =~= reversed);
}

fn tap_ops(targets: &Vec<Holdable>, tap: u64) -> (todo: Vec<Op>)
    ensures
        todo@ == tap_work(targets@, tap),
{
    let mut todo: Vec<Op> = Vec::new();
    push_downs(&mut todo, targets);
    todo.push(Op::Nap(tap));
    push_ups_reversed(&mut todo, targets);
    todo.push(Op::Flush);
    assert(todo@ =~= tap_work(targets@, tap));
    todo
}

/// One profile's execution: which binding runs, how far it is, and what it holds down.
pub struct Executor<'a> {
    profile: &'a Profile,
    stops: Vec<(Key, Mods)>,
    seams: Seams,
    held: Vec<Holdable>,
    dead: bool,
    phase: Phase,
    todo: Vec<Op>,
    bind: usize,
    key: Key,
    kept: Vec<Holdable>,
    sift: usize,
    index: usize,
    wants_gap: bool,
    loops: Vec<Lap>,
    remaining: u32,
}

impl<'a> View for Executor<'a> {
    type V = State;

    closed spec fn view(&self) -> State {
        State {
            held: self.held@,
            dead: self.dead,
            phase: self.phase,
            todo: self.todo@,
            bind: self.bind as int,
            key: self.key,
            kept: self.kept@,
            sift: self.sift as int,
            index: self.index as int,
            wants_gap: self.wants_gap,
            loops: self.loops@,
            remaining: self.remaining as int,
        }
    }
}

/// Whether the bindings that a state names exist, and work that has begun is owed.
pub open spec fn well_placed(c: Context, s: State) -> bool {
    &&& s.phase is Over || s.phase is Failed || s.phase is Probe || s.phase is Ready
        || s.todo.len() > 0
    &&& s.phase is Over || s.phase is Failed || 0 <= s.bind < c.profile.binds.len()
    &&& s.phase matches Phase::Probe(i, _) ==> i < c.profile.binds.len()
}


impl<'a> Executor<'a> {
    /// What stays the same during a run.
    pub closed spec fn context(&self) -> Context {
        Context { profile: self.profile@, stops: self.stops@, seams: self.seams }
    }

    /// The bindings that the state names exist, and work that has begun is owed.
    pub open spec fn wf(&self) -> bool {
        well_placed(self.context(), self@)
    }

    /// An executor at rest that holds down what the ledger says.
    pub fn new(profile: &'a Profile, seams: Seams, held: Vec<Holdable>) -> (r: Executor<'a>)
        ensures
            r.wf(),
            r.context().profile == profile@,
            r.context().stops == stop_signatures(profile@.emergency_stop),
            r.context().seams == seams,
            r@.held == held@,
            r@.phase == Phase::Over(None),
            !r@.dead,
            r@.todo.len() == 0,
    {
        let stops = stop_chords(profile);
        Executor {
            profile,
            stops,
            seams,
            held,
            dead: false,
            phase: Phase::Over(None),
            todo: Vec::new(),
            bind: 0,
            key: Key::C,
            kept: Vec::new(),
            sift: 0,
            index: 0,
            wants_gap: false,
            loops: Vec::new(),
            remaining: 0,
        }
    }

    /// What is held down, in the order in which it was pressed.
    pub fn held(&self) -> (r: &Vec<Holdable>)
        ensures
            r@ == self@.held,
    {
        &self.held
    }

    /// Takes the last press out of the ledger.
    pub(super) fn drop_held(&mut self)
        requires
            old(self)@.held.len() > 0,
            old(self).wf(),
        ensures
            final(self).wf(),
            final(self).context() == old(self).context(),
            final(self)@ == (State { held: old(self)@.held.drop_last(), ..old(self)@ }),
    {
        let _ = self.held.pop();
    }

    /// Gives back the ledger.
    pub fn into_held(self) -> (r: Vec<Holdable>)
        ensures
            r@ == self@.held,
    {
        self.held
    }

    /// The targets that a lifted tap is to press.
    pub fn targets(&self) -> (r: &Vec<Holdable>)
        ensures
            r@ == self@.kept,
    {
        &self.kept
    }

    /// The first binding from `from` on whose trigger the event is.
    fn find_match(&self, from: usize, key: Key, mods: Mods) -> (r: Option<usize>)
        ensures
            match r {
                Some(i) => next_match(self.context().profile.binds, from as int, key, mods) == Some(
                    i as int,
                ) && i < self.context().profile.binds.len(),
                None => next_match(self.context().profile.binds, from as int, key, mods) is None,
            },
    {
        let ghost binds = self.context().profile.binds;
        let mut i: usize = from;
        while i < self.profile.binds.len()
            invariant
                binds == self.context().profile.binds,
                from <= i,
                next_match(binds, from as int, key, mods) == next_match(binds, i as int, key, mods),
            decreases self.profile.binds@.len() - i,
        {
            assert(binds[i as int] == self.profile.binds@[i as int]@);
            if trigger_matches(&self.profile.binds[i].trigger, key, mods) {
                return Some(i);
            }
            i += 1;
        }
        None
    }

    /// What an event during a sequence means.
    fn hear(&self, event: InputEvent) -> (r: Heard)
        requires
            0 <= self@.bind < self.context().profile.binds.len(),
        ensures
            r == hears(
                self.context(),
                self.context().profile.binds[self@.bind],
                event,
            ),
    {
        assert(self.context().profile.binds[self@.bind] == self.profile.binds@[self.bind as int]@);
        match event.kind {
            EventKind::KeyDown(key) => {
                if is_stop(&self.stops, key, event.mods) {
                    Heard::Emergency
                } else if trigger_matches(
                    &self.profile.binds[self.bind].trigger,
                    key,
                    event.mods,
                ) {
                    Heard::StopBind
                } else {
                    Heard::Nothing
                }
            },
            _ => Heard::Nothing,
        }
    }

    fn complete(&mut self)
        requires
            old(self)@.todo.len() > 0,
        ensures
            final(self).context() == old(self).context(),
            final(self)@ == old(self)@.after(),
    {
        let _ = self.todo.remove(0);
        self.phase = Phase::Ready;
        assert(self.todo@ =~= old(self).todo@.skip(1));
    }

    fn owe(&mut self, todo: Vec<Op>)
        ensures
            final(self).context() == old(self).context(),
            final(self)@ == old(self)@.owing(todo@),
    {
        self.todo = todo;
        self.phase = Phase::Ready;
    }

    fn stop(&mut self)
        ensures
            final(self).context() == old(self).context(),
            final(self)@ == old(self)@.stopping(),
    {
        let mut todo: Vec<Op> = Vec::new();
        todo.push(Op::Drain);
        todo.push(Op::Flush);
        assert(todo@ =~= seq![Op::Drain, Op::Flush]);
        self.owe(todo);
    }

    fn conclude_hearing(&mut self, heard: Heard, onward: Phase)
        ensures
            final(self).context() == old(self).context(),
            final(self)@ == old(self)@.after_hearing(heard, onward),
    {
        match heard {
            Heard::Nothing => {
                self.phase = onward;
            },
            Heard::StopBind => {
                self.stop();
            },
            Heard::Emergency => {
                self.phase = Phase::Over(Some(Outcome::EmergencyStop));
            },
        }
    }

    fn iterate(&mut self, remaining: u32, first: Vec<Op>)
        requires
            0 <= old(self)@.bind < old(self).context().profile.binds.len(),
            remaining > 0,
        ensures
            final(self).context() == old(self).context(),
            final(self)@ == iterating(
                old(self).context().profile.binds[old(self)@.bind],
                old(self)@,
                remaining as int,
                first@,
            ),
    {
        assert(self.context().profile.binds[self@.bind] == self.profile.binds@[self.bind as int]@);
        let mut todo = first;
        todo.push(Op::Fetch);
        self.todo = todo;
        self.phase = Phase::Ready;
        self.index = 0;
        self.wants_gap = false;
        self.loops = Vec::new();
        self.remaining = match self.profile.binds[self.bind].loops {
            Loops::Infinite => remaining,
            _ => remaining - 1,
        };
        assert(self.loops@ =~= seq![]);
    }

    fn start(&mut self)
        requires
            0 <= old(self)@.bind < old(self).context().profile.binds.len(),
        ensures
            final(self).context() == old(self).context(),
            final(self)@ == starting(old(self).context(), old(self)@),
    {
        let profile = self.profile;
        let bind = &profile.binds[self.bind];
        assert(self.context().profile.binds[self@.bind] == bind@);
        match &bind.action {
            Action::Mirror(targets) => {
                let held = chord_mods(&bind.trigger);
                if target_mods(targets).covers(held) {
                    self.kept = Vec::new();
                    self.sift = 0;
                    let mut todo: Vec<Op> = Vec::new();
                    if has_holdable(targets, Holdable::Key(self.key)) {
                        todo.push(Op::Await);
                        todo.push(Op::Sift);
                        assert(todo@ =~= seq![Op::Await, Op::Sift]);
                    } else {
                        todo.push(Op::Sift);
                        assert(todo@ =~= seq![Op::Sift]);
                    }
                    assert(self.kept@ =~= seq![]);
                    self.owe(todo);
                } else {
                    self.kept = copy_holdables(targets);
                    let mut todo: Vec<Op> = Vec::new();
                    todo.push(Op::Lift);
                    assert(todo@ =~= seq![Op::Lift]);
                    self.owe(todo);
                }
            },
            Action::Sequence(_) => {
                let runs: u32 = match bind.loops {
                    Loops::Once => 1,
                    Loops::Times(times) => times,
                    Loops::Infinite => u32::MAX,
                };
                if runs == 0 {
                    self.stop();
                } else {
                    let first: Vec<Op> = Vec::new();
                    assert(first@ =~= seq![]);
                    self.iterate(runs, first);
                }
            },
        }
    }

    /// Takes in an event: an emergency stop ends the run, a trigger begins its binding, and
    /// anything else is over at once.
    pub fn handle(&mut self, event: InputEvent)
        ensures
            final(self).wf(),
            final(self).context() == old(self).context(),
            final(self)@ == handling(old(self).context(), old(self)@, event),
    {
        match event.kind {
            EventKind::KeyDown(key) => {
                if is_stop(&self.stops, key, event.mods) {
                    self.phase = Phase::Over(Some(Outcome::EmergencyStop));
                    return ;
                }
                match self.find_match(0, key, event.mods) {
                    None => {
                        self.phase = Phase::Over(None);
                    },
                    Some(first) => {
                        self.bind = first;
                        self.key = key;
                        assert(first < self.profile.binds.len());
                        if self.seams.key_down && self.find_match(
                            first + 1,
                            key,
                            event.mods,
                        ).is_some() {
                            self.phase = Phase::Probe(first, 0);
                        } else {
                            self.start();
                        }
                    },
                }
            },
            _ => {
                self.phase = Phase::Over(None);
            },
        }
    }

    /// What the executor asks for.
    pub fn request(&self) -> (r: Request)
        requires
            self.wf(),
        ensures
            r == asking(self.context(), self@),
    {
        let profile = self.profile;
        match self.phase {
            Phase::Over(outcome) => Request::Handled(outcome),
            Phase::Failed => Request::Failed,
            Phase::Probe(i, j) => {
                assert(self.context().profile.binds[i as int] == profile.binds@[i as int]@);
                let trigger = &profile.binds[i].trigger;
                if j < trigger.len() && is_modifier(trigger[j]) {
                    Request::KeyDown(trigger[j])
                } else {
                    Request::Continue
                }
            },
            Phase::EarsTop(_) => if self.seams.gate {
                Request::Gate
            } else {
                Request::Continue
            },
            Phase::EarsNow(_) => Request::Now,
            Phase::EarsWait(_, until) => Request::Wait(Some(until)),
            Phase::EarsLate(_) => Request::Now,
            Phase::Sleeping(until) => Request::SleepUntil(until),
            Phase::PollNow => if self.dead {
                Request::Continue
            } else {
                Request::Now
            },
            Phase::PollWait(until) => Request::Wait(Some(until)),
            Phase::AwaitGate => if self.seams.gate {
                Request::Gate
            } else {
                Request::Continue
            },
            Phase::AwaitNow => if self.dead {
                Request::Continue
            } else {
                Request::Now
            },
            Phase::AwaitWait(until) => Request::Wait(Some(until)),
            Phase::Ready => self.request_of_work(),
        }
    }

    fn request_of_work(&self) -> (r: Request)
        requires
            self.wf(),
            self@.phase is Ready,
        ensures
            r == asking(self.context(), self@),
    {
        if self.todo.len() == 0 {
            return Request::Continue;
        }
        let bind = &self.profile.binds[self.bind];
        assert(self.context().profile.binds[self@.bind] == bind@);
        match self.todo[0] {
            Op::Down(h) => Request::Emit(h.down()),
            Op::Up(h) => Request::Emit(h.up()),
            Op::Flush => Request::Flush,
            Op::Nap(nanos) | Op::Pause(nanos) => if nanos == 0 {
                Request::Continue
            } else {
                Request::Now
            },
            Op::Poll => if self.seams.gate {
                Request::Gate
            } else {
                Request::Continue
            },
            Op::Roll(_) => Request::Roll,
            Op::Fetch | Op::EndIteration => Request::Continue,
            Op::Drain => if self.held.len() == 0 {
                Request::Continue
            } else {
                Request::EmitQuiet(self.held[self.held.len() - 1].up())
            },
            Op::Await => if self.seams.key_down {
                Request::KeyDown(self.key)
            } else {
                Request::Continue
            },
            Op::Sift => match &bind.action {
                Action::Mirror(targets) => {
                    if self.sift < targets.len() && self.seams.mods_down {
                        match class_in_hand(&bind.trigger, targets[self.sift]) {
                            Some(class) => Request::ModsDown(class),
                            None => Request::Continue,
                        }
                    } else {
                        Request::Continue
                    }
                },
                Action::Sequence(_) => Request::Continue,
            },
            Op::Lift => if self.seams.lift {
                Request::Lift {
                    held: chord_mods(&bind.trigger),
                    primary: if has_holdable(&self.kept, Holdable::Key(self.key)) {
                        Some(self.key)
                    } else {
                        None
                    },
                    hold: bind.tap,
                }
            } else {
                Request::Continue
            },
        }
    }

    fn answer_probe(&mut self, i: usize, j: usize, reply: Reply)
        requires
            old(self).wf(),
            old(self)@.phase == Phase::Probe(i, j),
            fits(asking(old(self).context(), old(self)@), reply),
        ensures
            final(self).wf(),
            final(self).context() == old(self).context(),
            final(self)@ == next(old(self).context(), old(self)@, reply),
    {
        let profile = self.profile;
        assert(self.context().profile.binds[i as int] == profile.binds@[i as int]@);
        assert(self.context().profile.binds[self@.bind] == profile.binds@[self.bind as int]@);
        let trigger = &profile.binds[i].trigger;
        if j >= trigger.len() {
            self.bind = i;
            self.start();
        } else if is_modifier(trigger[j]) && reply == Reply::Answer(false) {
            let mods = chord_mods(&profile.binds[self.bind].trigger);
            assert(i < self.profile.binds.len());
            match self.find_match(i + 1, self.key, mods) {
                Some(k) => {
                    self.phase = Phase::Probe(k, 0);
                },
                None => {
                    self.start();
                },
            }
        } else {
            self.phase = Phase::Probe(i, j + 1);
        }
    }

    fn fetch(&mut self)
        requires
            old(self).wf(),
            old(self)@.phase is Ready,
            old(self)@.todo.len() > 0,
            old(self)@.todo[0] is Fetch,
        ensures
            final(self).wf(),
            final(self).context() == old(self).context(),
            final(self)@ == working(old(self).context(), old(self)@, Reply::Done),
    {
        let profile = self.profile;
        let bind = &profile.binds[self.bind];
        assert(self.context().profile.binds[self@.bind] == bind@);
        let steps = match &bind.action {
            Action::Sequence(steps) => steps,
            Action::Mirror(_) => {
                self.complete();
                return ;
            },
        };
        let ghost model = steps_view(steps@);
        let mut todo: Vec<Op> = Vec::new();
        if self.index >= steps.len() {
            todo.push(Op::Flush);
            todo.push(Op::Poll);
            todo.push(Op::EndIteration);
            assert(todo@ =~= seq![Op::Flush, Op::Poll, Op::EndIteration]);
            self.owe(todo);
            return ;
        }
        let at: usize = self.index;
        assert(model[at as int] == steps@[at as int]@);
        self.index = at + 1;
        match &steps[at] {
            Step::Wait(pause) => {
                self.wants_gap = false;
                todo.push(Op::Pause(*pause));
                todo.push(Op::Fetch);
                assert(todo@ =~= seq![Op::Pause(*pause), Op::Fetch]);
            },
            Step::Rng(chance) => {
                todo.push(Op::Roll(*chance));
                todo.push(Op::Fetch);
                assert(todo@ =~= seq![Op::Roll(*chance), Op::Fetch]);
            },
            Step::RngEnd => {
                todo.push(Op::Fetch);
                assert(todo@ =~= seq![Op::Fetch]);
            },
            Step::Loop(times) => {
                let left: u32 = if *times == 0 {
                    0
                } else {
                    *times - 1
                };
                self.loops.push(Lap { start: at + 1, left });
                todo.push(Op::Fetch);
                assert(todo@ =~= seq![Op::Fetch]);
            },
            Step::LoopEnd => {
                match self.loops.pop() {
                    None => {
                        todo.push(Op::Fetch);
                        assert(todo@ =~= seq![Op::Fetch]);
                    },
                    Some(lap) => {
                        if lap.left == 0 {
                            todo.push(Op::Fetch);
                            assert(todo@ =~= seq![Op::Fetch]);
                        } else {
                            self.loops.push(Lap { start: lap.start, left: lap.left - 1 });
                            self.index = lap.start;
                            todo.push(Op::Poll);
                            todo.push(Op::Fetch);
                            assert(todo@ =~= seq![Op::Poll, Op::Fetch]);
                        }
                    },
                }
            },
            step => {
                if self.wants_gap {
                    todo.push(Op::Pause(bind.gap));
                }
                let ghost gap = gap_work(self.wants_gap, bind.gap);
                assert(todo@ =~= gap);
                self.wants_gap = true;
                match step {
                    Step::Tap(targets) => {
                        push_downs(&mut todo, targets);
                        todo.push(Op::Pause(bind.tap));
                        push_ups_reversed(&mut todo, targets);
                        assert(todo@ =~= gap + step_work(step@, bind.tap));
                    },
                    Step::Hold(targets) => {
                        push_downs(&mut todo, targets);
                    },
                    Step::Release(targets) => {
                        push_ups(&mut todo, targets);
                    },
                    _ => {},
                }
                todo.push(Op::Fetch);
                assert(todo@ =~= gap + step_work(step@, bind.tap) + seq![Op::Fetch]);
            },
        }
        self.owe(todo);
    }

    fn end_iteration(&mut self)
        requires
            old(self).wf(),
            old(self)@.phase is Ready,
            old(self)@.todo.len() > 0,
            old(self)@.todo[0] is EndIteration,
        ensures
            final(self).wf(),
            final(self).context() == old(self).context(),
            final(self)@ == working(old(self).context(), old(self)@, Reply::Done),
    {
        let bind = &self.profile.binds[self.bind];
        assert(self.context().profile.binds[self@.bind] == bind@);
        let endless = match bind.loops {
            Loops::Infinite => true,
            _ => false,
        };
        if self.dead && endless {
            self.phase = Phase::Over(Some(Outcome::SourceClosed));
        } else if self.remaining == 0 {
            self.stop();
        } else {
            let mut first: Vec<Op> = Vec::new();
            first.push(Op::Pause(bind.gap));
            assert(first@ =~= seq![Op::Pause(bind.gap)]);
            self.iterate(self.remaining, first);
        }
    }

    fn sift_target(&mut self, reply: Reply)
        requires
            old(self).wf(),
            old(self)@.phase is Ready,
            old(self)@.todo.len() > 0,
            old(self)@.todo[0] is Sift,
            fits(asking(old(self).context(), old(self)@), reply),
        ensures
            final(self).wf(),
            final(self).context() == old(self).context(),
            final(self)@ == working(old(self).context(), old(self)@, reply),
    {
        let profile = self.profile;
        let bind = &profile.binds[self.bind];
        assert(self.context().profile.binds[self@.bind] == bind@);
        match &bind.action {
            Action::Mirror(targets) => {
                if self.sift < targets.len() {
                    let target = targets[self.sift];
                    let in_hand = class_in_hand(&bind.trigger, target).is_some();
                    assert(in_hand == hand_held(bind@, target));
                    let supplied = in_hand && (!self.seams.mods_down || reply == Reply::Answer(true));
                    self.sift = self.sift + 1;
                    if !supplied {
                        self.kept.push(target);
                    }
                } else {
                    let todo = tap_ops(&self.kept, bind.tap);
                    self.owe(todo);
                }
            },
            Action::Sequence(_) => {
                self.complete();
            },
        }
    }

    fn work(&mut self, reply: Reply)
        requires
            old(self).wf(),
            old(self)@.phase is Ready,
            fits(asking(old(self).context(), old(self)@), reply),
        ensures
            final(self).wf(),
            final(self).context() == old(self).context(),
            final(self)@ == working(old(self).context(), old(self)@, reply),
    {
        if self.todo.len() == 0 {
            self.phase = Phase::Over(None);
            return ;
        }
        let profile = self.profile;
        let bind = &profile.binds[self.bind];
        assert(self.context().profile.binds[self@.bind] == bind@);
        match self.todo[0] {
            Op::Down(h) => {
                if reply == Reply::Sent(true) {
                    self.held.push(h);
                    self.complete();
                } else {
                    self.phase = Phase::Failed;
                }
            },
            Op::Up(h) => {
                if reply == Reply::Sent(true) {
                    remove_last(&mut self.held, h);
                    self.complete();
                } else {
                    self.phase = Phase::Failed;
                }
            },
            Op::Flush => {
                if reply == Reply::Sent(true) {
                    self.complete();
                } else {
                    self.phase = Phase::Failed;
                }
            },
            Op::Nap(nanos) => {
                match reply {
                    Reply::Time(now) => {
                        self.phase = Phase::Sleeping(saturating_later(now, nanos));
                    },
                    _ => {
                        self.complete();
                    },
                }
            },
            Op::Pause(nanos) => {
                match reply {
                    Reply::Time(now) => {
                        let deadline = saturating_later(now, nanos);
                        self.phase = if self.dead {
                            Phase::Sleeping(deadline)
                        } else {
                            Phase::EarsTop(deadline)
                        };
                    },
                    _ => {
                        self.complete();
                    },
                }
            },
            Op::Poll => {
                if self.seams.gate && reply == Reply::Answer(false) {
                    self.stop();
                } else {
                    self.phase = Phase::PollNow;
                }
            },
            Op::Roll(chance) => {
                match (&bind.action, reply) {
                    (Action::Sequence(steps), Reply::Rolled(rolled)) => {
                        if rolled >= chance {
                            self.index = skip_block(steps, self.index);
                        }
                        self.complete();
                    },
                    _ => {
                        self.complete();
                    },
                }
            },
            Op::Fetch => {
                self.fetch();
            },
            Op::EndIteration => {
                self.end_iteration();
            },
            Op::Drain => {
                if self.held.len() == 0 {
                    self.complete();
                } else {
                    let _ = self.held.pop();
                }
            },
            Op::Await => {
                if self.seams.key_down && reply == Reply::Answer(true) {
                    self.phase = Phase::AwaitGate;
                } else {
                    self.complete();
                }
            },
            Op::Sift => {
                self.sift_target(reply);
            },
            Op::Lift => {
                if self.seams.lift && reply == Reply::Answer(true) {
                    let todo: Vec<Op> = Vec::new();
                    assert(todo@ =~= seq![]);
                    self.owe(todo);
                } else {
                    let todo = tap_ops(&self.kept, bind.tap);
                    self.owe(todo);
                }
            },
        }
    }

    /// Takes in what came of the request; a reply that does not answer it changes nothing.
    pub fn advance(&mut self, reply: Reply)
        requires
            old(self).wf(),
        ensures
            final(self).wf(),
            final(self).context() == old(self).context(),
            final(self)@ == next(old(self).context(), old(self)@, reply),
    {
        if !answers(self.request(), reply) {
            return ;
        }
        match (self.phase, reply) {
            (Phase::Probe(i, j), _) => {
                self.answer_probe(i, j, reply);
            },
            (Phase::Ready, _) => {
                self.work(reply);
            },
            (Phase::EarsTop(deadline), _) => {
                if !self.seams.gate {
                    self.phase = Phase::EarsWait(deadline, deadline);
                } else if reply == Reply::Answer(true) {
                    self.phase = Phase::EarsNow(deadline);
                } else {
                    self.stop();
                }
            },
            (Phase::EarsNow(deadline), Reply::Time(now)) => {
                let chunk = saturating_later(now, CHUNK_NANOS);
                self.phase = Phase::EarsWait(
                    deadline,
                    if chunk < deadline {
                        chunk
                    } else {
                        deadline
                    },
                );
            },
            (Phase::EarsWait(deadline, _), Reply::Woke(wake)) => {
                match wake {
                    Wake::Event(event) => {
                        let heard = self.hear(event);
                        self.conclude_hearing(heard, Phase::EarsTop(deadline));
                    },
                    Wake::Deadline => {
                        self.phase = Phase::EarsLate(deadline);
                    },
                    Wake::Interrupted => {
                        self.dead = true;
                        self.phase = Phase::Sleeping(deadline);
                    },
                }
            },
            (Phase::EarsLate(deadline), Reply::Time(now)) => {
                if now >= deadline {
                    self.complete();
                } else {
                    self.phase = Phase::EarsTop(deadline);
                }
            },
            (Phase::Sleeping(_), _) => {
                self.complete();
            },
            (Phase::PollNow, Reply::Time(now)) => {
                self.phase = Phase::PollWait(now);
            },
            (Phase::PollNow, _) => {
                self.complete();
            },
            (Phase::PollWait(_), Reply::Woke(wake)) => {
                match wake {
                    Wake::Event(event) => {
                        let heard = self.hear(event);
                        self.conclude_hearing(heard, Phase::PollNow);
                    },
                    Wake::Deadline => {
                        self.complete();
                    },
                    Wake::Interrupted => {
                        self.dead = true;
                        self.complete();
                    },
                }
            },
            (Phase::AwaitGate, _) => {
                if self.seams.gate && reply == Reply::Answer(false) {
                    self.phase = Phase::Over(None);
                } else {
                    self.phase = Phase::AwaitNow;
                }
            },
            (Phase::AwaitNow, Reply::Time(now)) => {
                self.phase = Phase::AwaitWait(saturating_later(now, DEFER_POLL_NANOS));
            },
            (Phase::AwaitNow, _) => {
                self.complete();
            },
            (Phase::AwaitWait(_), Reply::Woke(wake)) => {
                match wake {
                    Wake::Event(event) => {
                        self.phase = match event.kind {
                            EventKind::KeyDown(key) => if is_stop(&self.stops, key, event.mods) {
                                Phase::Over(Some(Outcome::EmergencyStop))
                            } else {
                                Phase::Ready
                            },
                            _ => Phase::Ready,
                        };
                    },
                    Wake::Deadline => {
                        self.phase = Phase::Ready;
                    },
                    Wake::Interrupted => {
                        self.dead = true;
                        self.complete();
                    },
                }
            },
            _ => {},
        }
    }
}

/// Whether a reply answers a request.
pub fn answers(request: Request, reply: Reply) -> (r: bool)
    ensures
        r == fits(request, reply),
{
    match (request, reply) {
        (Request::Continue, Reply::Done)
        | (Request::SleepUntil(_), Reply::Done)
        | (Request::EmitQuiet(_), Reply::Done)
        | (Request::FlushQuiet, Reply::Done)
        | (Request::ReleaseAll, Reply::Done)
        | (Request::Wait(_), Reply::Woke(_))
        | (Request::Now, Reply::Time(_))
        | (Request::Gate, Reply::Answer(_))
        | (Request::KeyDown(_), Reply::Answer(_))
        | (Request::ModsDown(_), Reply::Answer(_))
        | (Request::Lift { .. }, Reply::Answer(_))
        | (Request::Roll, Reply::Rolled(_))
        | (Request::Emit(_), Reply::Sent(_))
        | (Request::Flush, Reply::Sent(_)) => true,
        _ => false,
    }
}

/// The class of a target that the hand on the trigger may supply.
fn class_in_hand(trigger: &Vec<Key>, target: Holdable) -> (r: Option<Mods>)
    ensures
        forall|bind: BindModel|
            bind.trigger == trigger@ ==> #[trigger] hand_held(bind, target) == (r is Some),
        r is Some ==> target is Key && r == Some(class_of(target->Key_0)),
{
    match target {
        Holdable::Key(key) => match Mods::of_key(key) {
            Some(class) => if chord_mods(trigger).covers(class) {
                Some(class)
            } else {
                None
            },
            None => None,
        },
        Holdable::Button(_) => None,
    }
}

} // verus!
