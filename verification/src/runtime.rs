//! The run loop: why it wakes, how fast it may send, what it adds up, and how it always ends.
//!
//! The loop itself neither sleeps nor sends. It is a machine that asks for one thing at a time and
//! is told what came of it, so that every way through it can be spoken of.
use std::collections::VecDeque;

use vstd::prelude::*;

use crate::input::InputEvent;

verus! {

// --------------------------------------------------------------------------------- waiting

/// Why a wait ended.
#[derive(Debug, Clone, Copy, PartialEq, Eq, Structural)]
pub enum Wake {
    /// The user did something.
    Event(InputEvent),
    /// The deadline arrived, or the wait ended early for no particular reason.
    Deadline,
    /// The event source is gone.
    Interrupted,
}

/// Something the run loop can wait on.
pub trait EventPump {
    /// Waits for an event or until the deadline, whichever comes first. `None` parks until an
    /// event arrives. Waking early with [`Wake::Deadline`] is allowed.
    fn wait_until(&mut self, deadline: Option<u64>) -> (wake: Wake);
}

/// Replays a fixed list of events.
#[derive(Debug)]
pub struct ScriptedPump {
    pending: VecDeque<(u64, InputEvent)>,
}

impl View for ScriptedPump {
    type V = Seq<(u64, InputEvent)>;

    closed spec fn view(&self) -> Seq<(u64, InputEvent)> {
        self.pending@
    }
}

impl ScriptedPump {
    /// A pump that delivers events at the given times, in order.
    pub fn new(events: Vec<(u64, InputEvent)>) -> (pump: ScriptedPump)
        ensures
            pump@ == events@,
    {
        let mut pending: VecDeque<(u64, InputEvent)> = VecDeque::new();
        let mut i: usize = 0;
        while i < events.len()
            invariant
                i <= events@.len(),
                pending@ == events@.take(i as int),
            decreases events@.len() - i,
        {
            pending.push_back(events[i]);
            i += 1;
            assert(pending@ =~= events@.take(i as int));
        }
        assert(events@.take(events@.len() as int) =~= events@);
        ScriptedPump { pending }
    }
}

impl EventPump for ScriptedPump {
    /// Delivers the next event, whatever its time; a pump that has run dry is gone.
    fn wait_until(&mut self, deadline: Option<u64>) -> (wake: Wake)
        ensures
            wake == (if old(self)@.len() > 0 {
                Wake::Event(old(self)@[0].1)
            } else {
                Wake::Interrupted
            }),
            final(self)@ == (if old(self)@.len() > 0 {
                old(self)@.skip(1)
            } else {
                old(self)@
            }),
    {
        match self.pending.pop_front() {
            Some((_, event)) => {
                assert(self@ =~= old(self)@.skip(1));
                Wake::Event(event)
            },
            None => Wake::Interrupted,
        }
    }
}

/// How many nanoseconds of a wait are spun out rather than left to the operating system, whose
/// timeout is too coarse to hit a deadline.
pub const SPIN_HANDOFF: u64 = 2_000_000;

/// How to wait on a capture backend.
#[derive(Debug, Clone, Copy, PartialEq, Eq, Structural)]
pub enum WaitPlan {
    /// Park until an event arrives; an end of the stream is an interrupt.
    Park,
    /// The deadline is there already.
    Due,
    /// Listen for so many nanoseconds; silence is the deadline.
    Listen(u64),
    /// Spin to the deadline, and take an event that has come by then.
    Spin(u64),
}

/// How to wait from now until a deadline.
pub fn plan_wait(now: u64, deadline: Option<u64>) -> (plan: WaitPlan)
    ensures
        plan == match deadline {
            None => WaitPlan::Park,
            Some(at) => if at <= now {
                WaitPlan::Due
            } else if at - now > SPIN_HANDOFF {
                WaitPlan::Listen((at - now - SPIN_HANDOFF) as u64)
            } else {
                WaitPlan::Spin(at)
            },
        },
{
    match deadline {
        None => WaitPlan::Park,
        Some(at) => {
            if at <= now {
                WaitPlan::Due
            } else if at - now > SPIN_HANDOFF {
                WaitPlan::Listen(at - now - SPIN_HANDOFF)
            } else {
                WaitPlan::Spin(at)
            }
        },
    }
}

// ----------------------------------------------------------------------------- the rate fuse

/// How many nanoseconds a window of the fuse lasts.
pub const FUSE_WINDOW: u64 = 1_000_000_000;

/// The least that a fuse is ever made for: a slow profile may burst this many events per second
/// before it is throttled.
pub const DEFAULT_MAX_EMITS_PER_SEC: u32 = 20_000;

/// Caps the rate of synthetic events far beyond what a profile asks for: a storm of input can
/// make a desktop unusable.
#[derive(Debug, Clone, Copy, PartialEq, Eq, Structural)]
pub struct RateFuse {
    pub limit: u32,
    pub window_start: u64,
    pub in_window: u32,
    pub tripped: bool,
}

impl RateFuse {
    /// Whether no window has let through more than the limit.
    pub open spec fn well_formed(self) -> bool {
        self.in_window <= self.limit
    }

    /// The fuse as it counts at a time: a new window where the old one is over.
    pub open spec fn opened(self, now: u64) -> RateFuse {
        if now - self.window_start >= FUSE_WINDOW {
            RateFuse { limit: self.limit, window_start: now, in_window: 0, tripped: self.tripped }
        } else {
            self
        }
    }

    /// Whether one more event may pass at a time.
    pub open spec fn allows(self, now: u64) -> bool {
        self.opened(now).in_window < self.limit
    }

    /// The fuse after an event was let through or held back at a time.
    pub open spec fn after(self, now: u64) -> RateFuse {
        let opened = self.opened(now);
        if self.allows(now) {
            RateFuse {
                limit: opened.limit,
                window_start: opened.window_start,
                in_window: (opened.in_window + 1) as u32,
                tripped: opened.tripped,
            }
        } else {
            RateFuse {
                limit: opened.limit,
                window_start: opened.window_start,
                in_window: opened.in_window,
                tripped: true,
            }
        }
    }

    /// A fuse for so many events per second.
    pub fn new(limit: u32) -> (fuse: RateFuse)
        ensures
            fuse == (RateFuse { limit, window_start: 0, in_window: 0, tripped: false }),
            fuse.well_formed(),
    {
        RateFuse { limit, window_start: 0, in_window: 0, tripped: false }
    }

    /// Whether one more event may pass now; it then counts as passed.
    pub fn allow(&mut self, now: u64) -> (r: bool)
        requires
            old(self).well_formed(),
        ensures
            r == old(self).allows(now),
            *final(self) == old(self).after(now),
            final(self).well_formed(),
    {
        if now >= self.window_start && now - self.window_start >= FUSE_WINDOW {
            self.window_start = now;
            self.in_window = 0;
        }
        if self.in_window >= self.limit {
            self.tripped = true;
            return false;
        }
        self.in_window += 1;
        true
    }

    /// Whether the fuse has ever held an event back.
    pub fn tripped(&self) -> (r: bool)
        ensures
            r == self.tripped,
    {
        self.tripped
    }
}

/// How many of a list of events pass.
pub open spec fn passed(fuse: RateFuse, times: Seq<u64>) -> nat
    decreases times.len(),
{
    if times.len() == 0 {
        0
    } else {
        (if fuse.allows(times[0]) {
            1nat
        } else {
            0nat
        }) + passed(fuse.after(times[0]), times.skip(1))
    }
}

/// The fuse after a list of events.
pub open spec fn fused(fuse: RateFuse, times: Seq<u64>) -> RateFuse
    decreases times.len(),
{
    if times.len() == 0 {
        fuse
    } else {
        fused(fuse.after(times[0]), times.skip(1))
    }
}

/// However many events come while a window lasts, no more than the limit pass in it.
pub proof fn law_a_window_lets_no_more_than_its_limit_pass(fuse: RateFuse, times: Seq<u64>)
    requires
        fuse.well_formed(),
        forall|i: int| 0 <= i < times.len() ==> (#[trigger] times[i]) - fuse.window_start < FUSE_WINDOW,
    ensures
        fuse.in_window + passed(fuse, times) <= fuse.limit,
    decreases times.len(),
{
    if times.len() > 0 {
        assert(times[0] - fuse.window_start < FUSE_WINDOW);
        assert forall|i: int| 0 <= i < times.skip(1).len() implies (#[trigger] times.skip(1)[i])
            - fuse.window_start < FUSE_WINDOW by {
            assert(times.skip(1)[i] == times[i + 1]);
        }
        law_a_window_lets_no_more_than_its_limit_pass(fuse.after(times[0]), times.skip(1));
    }
}

/// A fuse says that it held something back exactly where it did, and never takes it back.
pub proof fn law_a_fuse_remembers_that_it_tripped(fuse: RateFuse, times: Seq<u64>)
    ensures
        fused(fuse, times).tripped == (fuse.tripped || passed(fuse, times) < times.len()),
        passed(fuse, times) <= times.len(),
    decreases times.len(),
{
    if times.len() > 0 {
        law_a_fuse_remembers_that_it_tripped(fuse.after(times[0]), times.skip(1));
    }
}

// ------------------------------------------------------------------------------- the summary

/// A count that stops at the largest number it can hold.
pub open spec fn counted(a: u64, b: int) -> u64 {
    if a + b <= u64::MAX {
        (a + b) as u64
    } else {
        u64::MAX
    }
}

/// What a run did.
#[derive(Debug, Clone, Copy, PartialEq, Eq, Structural)]
pub struct RunSummary {
    /// Actions delivered to the backend.
    pub emitted: u64,
    /// Actions dropped by the rate fuse.
    pub throttled: u64,
    /// Iterations begun.
    pub iterations: u64,
    /// Scheduled iterations dropped because the machine fell behind.
    pub slots_skipped: u64,
    /// Whether a quit control ended the run.
    pub quit: bool,
    /// How many nanoseconds the repeater was firing, summed across bursts: the gap between two
    /// repetitions counts only where they belong to the same burst.
    pub active: u64,
    /// How many gaps between repetitions are counted into `active`.
    pub paced_spans: u64,
}

/// The summary of a run that did nothing.
pub open spec fn no_summary() -> RunSummary {
    RunSummary {
        emitted: 0,
        throttled: 0,
        iterations: 0,
        slots_skipped: 0,
        quit: false,
        active: 0,
        paced_spans: 0,
    }
}

impl Default for RunSummary {
    fn default() -> (summary: RunSummary)
        ensures
            summary == no_summary(),
    {
        RunSummary {
            emitted: 0,
            throttled: 0,
            iterations: 0,
            slots_skipped: 0,
            quit: false,
            active: 0,
            paced_spans: 0,
        }
    }
}

/// What one tick of the engine did.
#[derive(Debug, Clone, Copy, PartialEq, Eq, Structural)]
pub struct TickStats {
    pub iterations_started: u32,
    pub slots_skipped: u32,
}

impl RunSummary {
    /// The summary with one tick added.
    pub open spec fn absorbing(self, stats: TickStats) -> RunSummary {
        RunSummary {
            iterations: counted(self.iterations, stats.iterations_started as int),
            slots_skipped: counted(self.slots_skipped, stats.slots_skipped as int),
            ..self
        }
    }

    /// The summary with the time since the repetition before, where both belong to one burst.
    pub open spec fn pacing(self, previous: Option<u64>, now: u64, same_burst: u64) -> RunSummary {
        match previous {
            Some(before) if span(before, now) <= same_burst => RunSummary {
                active: counted(self.active, span(before, now) as int),
                paced_spans: counted(self.paced_spans, 1),
                ..self
            },
            _ => self,
        }
    }

    fn absorb(&mut self, stats: TickStats)
        ensures
            *final(self) == old(self).absorbing(stats),
    {
        self.iterations = self.iterations.saturating_add(stats.iterations_started as u64);
        self.slots_skipped = self.slots_skipped.saturating_add(stats.slots_skipped as u64);
    }

    fn pace(&mut self, previous: Option<u64>, now: u64, same_burst: u64)
        ensures
            *final(self) == old(self).pacing(previous, now, same_burst),
    {
        if let Some(before) = previous {
            let gap: u64 = now.saturating_sub(before);
            if gap <= same_burst {
                self.active = self.active.saturating_add(gap);
                self.paced_spans = self.paced_spans.saturating_add(1);
            }
        }
    }

    /// Whether enough happened to say how many repetitions per second were sent: the gaps that
    /// were counted, over the time that was counted with them.
    pub fn has_rate(&self) -> (r: bool)
        ensures
            r == (self.paced_spans > 0 && self.active > 0),
    {
        self.paced_spans > 0 && self.active > 0
    }
}

/// The time from one moment to another, nothing where it is not later.
pub open spec fn span(before: u64, now: u64) -> u64 {
    if now >= before {
        (now - before) as u64
    } else {
        0
    }
}

/// The shortest that the longest gap of a burst may be, in nanoseconds.
pub const BURST_FLOOR: u64 = 250_000_000;

/// The longest gap of a burst: four times the requested period, and at least a quarter-second.
pub open spec fn burst_window(cadence: u64) -> u64 {
    let four = counted(0, 4 * cadence);
    if four >= BURST_FLOOR {
        four
    } else {
        BURST_FLOOR
    }
}

/// The longest gap in nanoseconds between two repetitions that still counts as one burst. A
/// machine that stutters must not be mistaken for a user who lets go.
pub fn burst_gap(cadence: u64) -> (gap: u64)
    ensures
        gap == burst_window(cadence),
{
    let four: u64 = match cadence.checked_mul(4) {
        Some(four) => four,
        None => u64::MAX,
    };
    if four >= BURST_FLOOR {
        four
    } else {
        BURST_FLOOR
    }
}

// ----------------------------------------------------------------------------------- the loop

/// What the loop asks for.
#[derive(Debug, Clone, Copy, PartialEq, Eq, Structural)]
pub enum RunRequest {
    /// Read the clock and let the engine fill the buffer.
    Tick,
    /// Send the event at this place in the buffer.
    Emit(usize),
    /// Flush what was sent, and empty the buffer.
    Flush,
    /// Wait for an event, until this deadline if there is one.
    Wait(Option<u64>),
    /// Hand an event to the engine.
    Handle(InputEvent),
    /// Shut the engine down, into the buffer.
    Shutdown,
    /// Send the event at this place in the buffer, whatever comes of it.
    EmitLast(usize),
    /// Flush what was sent, whatever comes of it.
    FlushLast,
    /// Release everything that is held.
    Release,
    /// Nothing: the run is over.
    Over,
}

/// What the loop is told.
#[derive(Debug, Clone, Copy, PartialEq, Eq, Structural)]
pub enum RunReply {
    /// The engine ticked at a time, left so many events in the buffer, and wants to be woken.
    Ticked { now: u64, stats: TickStats, emits: usize, deadline: Option<u64> },
    /// It worked.
    Done,
    /// It failed.
    Failed,
    /// The wait ended.
    Woke(Wake),
    /// The engine took the event, and asks to quit or not.
    Handled { quit: bool },
    /// The engine is shut down, and so many events are in the buffer.
    Drained(usize),
}

/// Where the loop stands.
#[derive(Debug, Clone, Copy, PartialEq, Eq, Structural)]
pub enum RunStage {
    Ticking,
    Sending { now: u64, at: usize, count: usize, deadline: Option<u64> },
    Flushing(Option<u64>),
    Waiting(Option<u64>),
    Handling(InputEvent),
    ShuttingDown,
    Draining { at: usize, count: usize },
    LastFlush,
    Releasing,
    Over,
}

/// A run of the engine.
#[derive(Debug, Clone, Copy, PartialEq, Eq, Structural)]
pub struct EngineRun {
    pub fuse: RateFuse,
    pub summary: RunSummary,
    /// When the last repetition began.
    pub previous: Option<u64>,
    /// The longest gap of a burst.
    pub same_burst: u64,
    /// Whether something could not be sent.
    pub failed: bool,
    pub stage: RunStage,
}

impl EngineRun {
    /// Whether a run is one that can come up.
    pub open spec fn well_formed(self) -> bool {
        &&& self.fuse.well_formed()
        &&& match self.stage {
            RunStage::Sending { at, count, .. } => at < count,
            RunStage::Draining { at, count } => at < count,
            _ => true,
        }
    }

    /// What the loop asks for.
    pub open spec fn asking(self) -> RunRequest {
        match self.stage {
            RunStage::Ticking => RunRequest::Tick,
            RunStage::Sending { at, .. } => RunRequest::Emit(at),
            RunStage::Flushing(_) => RunRequest::Flush,
            RunStage::Waiting(deadline) => RunRequest::Wait(deadline),
            RunStage::Handling(event) => RunRequest::Handle(event),
            RunStage::ShuttingDown => RunRequest::Shutdown,
            RunStage::Draining { at, .. } => RunRequest::EmitLast(at),
            RunStage::LastFlush => RunRequest::FlushLast,
            RunStage::Releasing => RunRequest::Release,
            RunStage::Over => RunRequest::Over,
        }
    }

    /// The run at another stage.
    pub open spec fn at_stage(self, stage: RunStage) -> EngineRun {
        EngineRun { stage, ..self }
    }

    /// The run with the events of the buffer from a place on before it: those that the fuse holds
    /// back are dropped, up to the first that passes or the end.
    pub open spec fn sending(
        self,
        now: u64,
        at: int,
        count: usize,
        deadline: Option<u64>,
    ) -> EngineRun
        decreases count - at,
    {
        if at >= count {
            self.at_stage(RunStage::Flushing(deadline))
        } else if self.fuse.allows(now) {
            EngineRun {
                fuse: self.fuse.after(now),
                stage: RunStage::Sending { now, at: at as usize, count, deadline },
                ..self
            }
        } else {
            EngineRun {
                fuse: self.fuse.after(now),
                summary: RunSummary {
                    throttled: counted(self.summary.throttled, 1),
                    ..self.summary
                },
                ..self
            }.sending(now, at + 1, count, deadline)
        }
    }

    /// The run with a tick taken into account.
    pub open spec fn ticked(self, now: u64, stats: TickStats) -> EngineRun {
        let absorbed = self.summary.absorbing(stats);
        if stats.iterations_started > 0 {
            EngineRun {
                summary: absorbed.pacing(self.previous, now, self.same_burst),
                previous: Some(now),
                ..self
            }
        } else {
            EngineRun { summary: absorbed, ..self }
        }
    }

    /// The run with one more event delivered.
    pub open spec fn emitting(self) -> EngineRun {
        EngineRun {
            summary: RunSummary { emitted: counted(self.summary.emitted, 1), ..self.summary },
            ..self
        }
    }

    /// The run that something went wrong in: it winds up.
    pub open spec fn failing(self) -> EngineRun {
        EngineRun { failed: true, stage: RunStage::ShuttingDown, ..self }
    }

    /// The last events before the run, from a place on.
    pub open spec fn draining(self, at: usize, count: usize) -> EngineRun {
        if at < count {
            self.at_stage(RunStage::Draining { at, count })
        } else {
            self.at_stage(RunStage::LastFlush)
        }
    }

    /// The run after a reply. A reply that does not answer what was asked changes nothing.
    pub open spec fn next(self, reply: RunReply) -> EngineRun {
        match (self.stage, reply) {
            (RunStage::Ticking, RunReply::Ticked { now, stats, emits, deadline }) => {
                if emits == 0 {
                    self.ticked(now, stats).at_stage(RunStage::Waiting(deadline))
                } else {
                    self.ticked(now, stats).sending(now, 0, emits, deadline)
                }
            },
            (RunStage::Sending { now, at, count, deadline }, RunReply::Done) =>
                self.emitting().sending(now, at + 1, count, deadline),
            (RunStage::Sending { .. }, RunReply::Failed) => self.failing(),
            (RunStage::Flushing(deadline), RunReply::Done) => self.at_stage(
                RunStage::Waiting(deadline),
            ),
            (RunStage::Flushing(_), RunReply::Failed) => self.failing(),
            (RunStage::Waiting(_), RunReply::Woke(Wake::Event(event))) => self.at_stage(
                RunStage::Handling(event),
            ),
            (RunStage::Waiting(_), RunReply::Woke(Wake::Deadline)) => self.at_stage(
                RunStage::Ticking,
            ),
            (RunStage::Waiting(_), RunReply::Woke(Wake::Interrupted)) => self.at_stage(
                RunStage::ShuttingDown,
            ),
            (RunStage::Handling(_), RunReply::Handled { quit }) => {
                if quit {
                    EngineRun {
                        summary: RunSummary { quit: true, ..self.summary },
                        stage: RunStage::ShuttingDown,
                        ..self
                    }
                } else {
                    self.at_stage(RunStage::Ticking)
                }
            },
            (RunStage::ShuttingDown, RunReply::Drained(count)) => self.draining(0, count),
            (RunStage::Draining { at, count }, RunReply::Done) => self.emitting().draining(
                (at + 1) as usize,
                count,
            ),
            (RunStage::Draining { at, count }, RunReply::Failed) => self.draining(
                (at + 1) as usize,
                count,
            ),
            (RunStage::LastFlush, RunReply::Done | RunReply::Failed) => self.at_stage(
                RunStage::Releasing,
            ),
            (RunStage::Releasing, RunReply::Done | RunReply::Failed) => self.at_stage(
                RunStage::Over,
            ),
            _ => self,
        }
    }

    /// A run that is about to begin.
    pub open spec fn fresh(limit: u32, cadence: u64) -> EngineRun {
        EngineRun {
            fuse: RateFuse { limit, window_start: 0, in_window: 0, tripped: false },
            summary: no_summary(),
            previous: None,
            same_burst: burst_window(cadence),
            failed: false,
            stage: RunStage::Ticking,
        }
    }

    /// A run with so many events per second at most, and so many nanoseconds between repetitions.
    pub fn new(max_emits_per_sec: u32, cadence: u64) -> (run: EngineRun)
        ensures
            run == EngineRun::fresh(max_emits_per_sec, cadence),
            run.well_formed(),
    {
        EngineRun {
            fuse: RateFuse::new(max_emits_per_sec),
            summary: RunSummary::default(),
            previous: None,
            same_burst: burst_gap(cadence),
            failed: false,
            stage: RunStage::Ticking,
        }
    }

    /// What the loop asks for.
    pub fn request(&self) -> (request: RunRequest)
        ensures
            request == self.asking(),
    {
        match self.stage {
            RunStage::Ticking => RunRequest::Tick,
            RunStage::Sending { at, .. } => RunRequest::Emit(at),
            RunStage::Flushing(_) => RunRequest::Flush,
            RunStage::Waiting(deadline) => RunRequest::Wait(deadline),
            RunStage::Handling(event) => RunRequest::Handle(event),
            RunStage::ShuttingDown => RunRequest::Shutdown,
            RunStage::Draining { at, .. } => RunRequest::EmitLast(at),
            RunStage::LastFlush => RunRequest::FlushLast,
            RunStage::Releasing => RunRequest::Release,
            RunStage::Over => RunRequest::Over,
        }
    }

    fn send_from(&mut self, now: u64, from: usize, count: usize, deadline: Option<u64>)
        requires
            old(self).fuse.well_formed(),
        ensures
            *final(self) == old(self).sending(now, from as int, count, deadline),
            final(self).well_formed(),
    {
        let mut at: usize = from;
        while at < count
            invariant
                self.fuse.well_formed(),
                old(self).sending(now, from as int, count, deadline) == self.sending(
                    now,
                    at as int,
                    count,
                    deadline,
                ),
            decreases count - at,
        {
            if self.fuse.allow(now) {
                self.stage = RunStage::Sending { now, at, count, deadline };
                return;
            }
            self.summary.throttled = self.summary.throttled.saturating_add(1);
            at += 1;
        }
        self.stage = RunStage::Flushing(deadline);
    }

    fn count_emit(&mut self)
        ensures
            *final(self) == old(self).emitting(),
    {
        self.summary.emitted = self.summary.emitted.saturating_add(1);
    }

    fn drain_from(&mut self, at: usize, count: usize)
        ensures
            *final(self) == old(self).draining(at, count),
    {
        if at < count {
            self.stage = RunStage::Draining { at, count };
        } else {
            self.stage = RunStage::LastFlush;
        }
    }

    /// Takes a reply. One that does not answer what was asked changes nothing.
    pub fn advance(&mut self, reply: RunReply)
        requires
            old(self).well_formed(),
        ensures
            *final(self) == old(self).next(reply),
            final(self).well_formed(),
    {
        match (self.stage, reply) {
            (RunStage::Ticking, RunReply::Ticked { now, stats, emits, deadline }) => {
                self.summary.absorb(stats);
                if stats.iterations_started > 0 {
                    self.summary.pace(self.previous, now, self.same_burst);
                    self.previous = Some(now);
                }
                if emits == 0 {
                    self.stage = RunStage::Waiting(deadline);
                } else {
                    self.send_from(now, 0, emits, deadline);
                }
            },
            (RunStage::Sending { now, at, count, deadline }, RunReply::Done) => {
                self.count_emit();
                self.send_from(now, at + 1, count, deadline);
            },
            (RunStage::Sending { .. }, RunReply::Failed) => {
                self.failed = true;
                self.stage = RunStage::ShuttingDown;
            },
            (RunStage::Flushing(deadline), RunReply::Done) => {
                self.stage = RunStage::Waiting(deadline);
            },
            (RunStage::Flushing(_), RunReply::Failed) => {
                self.failed = true;
                self.stage = RunStage::ShuttingDown;
            },
            (RunStage::Waiting(_), RunReply::Woke(wake)) => {
                self.stage = match wake {
                    Wake::Event(event) => RunStage::Handling(event),
                    Wake::Deadline => RunStage::Ticking,
                    Wake::Interrupted => RunStage::ShuttingDown,
                };
            },
            (RunStage::Handling(_), RunReply::Handled { quit }) => {
                if quit {
                    self.summary.quit = true;
                    self.stage = RunStage::ShuttingDown;
                } else {
                    self.stage = RunStage::Ticking;
                }
            },
            (RunStage::ShuttingDown, RunReply::Drained(count)) => {
                self.drain_from(0, count);
            },
            (RunStage::Draining { at, count }, RunReply::Done) => {
                self.count_emit();
                self.drain_from(at + 1, count);
            },
            (RunStage::Draining { at, count }, RunReply::Failed) => {
                self.drain_from(at + 1, count);
            },
            (RunStage::LastFlush, RunReply::Done | RunReply::Failed) => {
                self.stage = RunStage::Releasing;
            },
            (RunStage::Releasing, RunReply::Done | RunReply::Failed) => {
                self.stage = RunStage::Over;
            },
            _ => {},
        }
    }

    /// What the run did, once it is over; nothing where something could not be sent.
    pub fn outcome(&self) -> (r: Option<RunSummary>)
        ensures
            r == (if self.stage is Over && !self.failed {
                Some(self.summary)
            } else {
                None
            }),
    {
        match self.stage {
            RunStage::Over if !self.failed => Some(self.summary),
            _ => None,
        }
    }
}

// ----------------------------------------------------------------------------- how it ends

/// A run after a list of replies.
pub open spec fn played(run: EngineRun, replies: Seq<RunReply>) -> EngineRun
    decreases replies.len(),
{
    if replies.len() == 0 {
        run
    } else {
        played(run, replies.drop_last()).next(replies.last())
    }
}

/// Whether something was asked for on the way through a list of replies.
pub open spec fn asked(run: EngineRun, replies: Seq<RunReply>, request: RunRequest) -> bool {
    exists|n: int|
        0 <= n < replies.len() && (#[trigger] played(run, replies.take(n))).asking() == request
}

/// Whether a run is winding up.
pub open spec fn winding_up(stage: RunStage) -> bool {
    stage is ShuttingDown || stage is Draining || stage is LastFlush || stage is Releasing
        || stage is Over
}

proof fn lemma_asked_before(run: EngineRun, replies: Seq<RunReply>, request: RunRequest)
    requires
        replies.len() > 0,
        asked(run, replies.drop_last(), request),
    ensures
        asked(run, replies, request),
{
    let before = replies.drop_last();
    let n = choose|n: int|
        0 <= n < before.len() && (#[trigger] played(run, before.take(n))).asking() == request;
    assert(before.take(n) =~= replies.take(n));
    assert(played(run, replies.take(n)).asking() == request);
}

proof fn lemma_asked_now(run: EngineRun, replies: Seq<RunReply>)
    requires
        replies.len() > 0,
    ensures
        asked(run, replies, played(run, replies.drop_last()).asking()),
{
    let n = replies.len() - 1;
    assert(replies.take(n) =~= replies.drop_last());
    assert(played(run, replies.take(n)).asking() == played(run, replies.drop_last()).asking());
}

proof fn lemma_sending_goes_on(run: EngineRun, now: u64, at: int, count: usize, deadline: Option<u64>)
    ensures
        run.sending(now, at, count, deadline).stage is Sending || run.sending(
            now,
            at,
            count,
            deadline,
        ).stage is Flushing,
        run.sending(now, at, count, deadline).failed == run.failed,
    decreases count - at,
{
    if at < count && !run.fuse.allows(now) {
        let skipped = EngineRun {
            fuse: run.fuse.after(now),
            summary: RunSummary { throttled: counted(run.summary.throttled, 1), ..run.summary },
            ..run
        };
        lemma_sending_goes_on(skipped, now, at + 1, count, deadline);
    }
}

/// Every run that is over has shut the engine down, flushed what was left, and released all that was
/// held, however it came to its end.
pub proof fn law_every_run_shuts_down_and_releases(
    limit: u32,
    cadence: u64,
    replies: Seq<RunReply>,
)
    ensures
        ({
            let start = EngineRun::fresh(limit, cadence);
            let end = played(start, replies).stage;
            &&& end is Over ==> asked(start, replies, RunRequest::Release)
            &&& end is Over || end is Releasing ==> asked(start, replies, RunRequest::FlushLast)
            &&& winding_up(end) && !(end is ShuttingDown) ==> asked(
                start,
                replies,
                RunRequest::Shutdown,
            )
        }),
    decreases replies.len(),
{
    let start = EngineRun::fresh(limit, cadence);
    if replies.len() > 0 {
        let rest = replies.drop_last();
        let before = played(start, rest);
        let after = played(start, replies);
        law_every_run_shuts_down_and_releases(limit, cadence, rest);
        lemma_asked_now(start, replies);
        if asked(start, rest, RunRequest::Release) {
            lemma_asked_before(start, replies, RunRequest::Release);
        }
        if asked(start, rest, RunRequest::FlushLast) {
            lemma_asked_before(start, replies, RunRequest::FlushLast);
        }
        if asked(start, rest, RunRequest::Shutdown) {
            lemma_asked_before(start, replies, RunRequest::Shutdown);
        }
        match (before.stage, replies.last()) {
            (RunStage::Ticking, RunReply::Ticked { now, stats, emits, deadline }) => {
                lemma_sending_goes_on(before.ticked(now, stats), now, 0, emits, deadline);
            },
            (RunStage::Sending { now, at, count, deadline }, RunReply::Done) => {
                lemma_sending_goes_on(before.emitting(), now, at + 1, count, deadline);
            },
            _ => {},
        }
    }
}

/// How far a run is in winding up; zero where it is not.
pub open spec fn wound_up(stage: RunStage) -> int {
    match stage {
        RunStage::ShuttingDown => 1,
        RunStage::Draining { .. } => 2,
        RunStage::LastFlush => 3,
        RunStage::Releasing => 4,
        RunStage::Over => 5,
        _ => 0,
    }
}

proof fn lemma_winding_goes_on(run: EngineRun, replies: Seq<RunReply>, m: int, n: int)
    requires
        0 <= m <= n <= replies.len(),
        wound_up(played(run, replies.take(m)).stage) > 0,
    ensures
        wound_up(played(run, replies.take(m)).stage) <= wound_up(
            played(run, replies.take(n)).stage,
        ),
        m < n && (replies[m] is Done || replies[m] is Failed) && played(
            run,
            replies.take(m),
        ).stage is Releasing ==> played(run, replies.take(n)).stage is Over,
    decreases n,
{
    if m < n {
        lemma_winding_goes_on(run, replies, m, n - 1);
        assert(replies.take(n).drop_last() =~= replies.take(n - 1));
        assert(replies.take(n).last() == replies[n - 1]);
    }
}

/// The end of a run comes in order: once the shutdown was asked for there is no tick any more, once
/// the last flush was there is nothing but that and the release to come, and once the release was
/// asked for and answered the run is over, so it is released once.
pub proof fn law_nothing_follows_the_release(
    run: EngineRun,
    replies: Seq<RunReply>,
    m: int,
    n: int,
)
    requires
        0 <= m < n <= replies.len(),
    ensures
        ({
            let before = played(run, replies.take(m)).asking();
            let after = played(run, replies.take(n)).asking();
            &&& before is Shutdown ==> after is Shutdown || after is EmitLast || after is FlushLast
                || after is Release || after is Over
            &&& before is FlushLast ==> after is FlushLast || after is Release || after is Over
            &&& before is Release ==> after is Release || after is Over
            &&& before is Release && (replies[m] is Done || replies[m] is Failed) ==> after is Over
        }),
{
    if wound_up(played(run, replies.take(m)).stage) > 0 {
        lemma_winding_goes_on(run, replies, m, n);
    }
}

/// A run that something could not be sent in never ticks again: it winds up.
pub proof fn law_a_failure_ends_the_run(limit: u32, cadence: u64, replies: Seq<RunReply>)
    ensures
        played(EngineRun::fresh(limit, cadence), replies).failed ==> winding_up(
            played(EngineRun::fresh(limit, cadence), replies).stage,
        ),
    decreases replies.len(),
{
    let start = EngineRun::fresh(limit, cadence);
    if replies.len() > 0 {
        let before = played(start, replies.drop_last());
        law_a_failure_ends_the_run(limit, cadence, replies.drop_last());
        match (before.stage, replies.last()) {
            (RunStage::Ticking, RunReply::Ticked { now, stats, emits, deadline }) => {
                lemma_sending_goes_on(before.ticked(now, stats), now, 0, emits, deadline);
            },
            (RunStage::Sending { now, at, count, deadline }, RunReply::Done) => {
                lemma_sending_goes_on(before.emitting(), now, at + 1, count, deadline);
            },
            _ => {},
        }
    }
}

/// A pause between two bursts adds nothing to the time that a run was firing.
pub proof fn law_a_pause_between_bursts_is_not_counted(
    summary: RunSummary,
    previous: u64,
    now: u64,
    same_burst: u64,
)
    requires
        span(previous, now) > same_burst,
    ensures
        summary.pacing(Some(previous), now, same_burst) == summary,
{
}

// ------------------------------------------------------------------------------- the counts

/// What happened on the way through a list of replies.
pub struct Tally {
    /// Actions that the ticks produced.
    pub produced: nat,
    /// Those of them that were sent.
    pub sent: nat,
    /// Actions that the shutdown produced.
    pub last: nat,
    /// Those of them that sending was tried for.
    pub last_tried: nat,
    /// Those of them that were sent.
    pub last_sent: nat,
}

/// What happened on the way through a list of replies.
pub open spec fn tally(run: EngineRun, replies: Seq<RunReply>) -> Tally
    decreases replies.len(),
{
    if replies.len() == 0 {
        Tally { produced: 0, sent: 0, last: 0, last_tried: 0, last_sent: 0 }
    } else {
        let before = tally(run, replies.drop_last());
        match (played(run, replies.drop_last()).asking(), replies.last()) {
            (RunRequest::Tick, RunReply::Ticked { emits, .. }) => Tally {
                produced: before.produced + emits as nat,
                ..before
            },
            (RunRequest::Emit(_), RunReply::Done) => Tally { sent: before.sent + 1, ..before },
            (RunRequest::Shutdown, RunReply::Drained(count)) => Tally {
                last: before.last + count as nat,
                ..before
            },
            (RunRequest::EmitLast(_), RunReply::Done) => Tally {
                last_tried: before.last_tried + 1,
                last_sent: before.last_sent + 1,
                ..before
            },
            (RunRequest::EmitLast(_), RunReply::Failed) => Tally {
                last_tried: before.last_tried + 1,
                ..before
            },
            _ => before,
        }
    }
}

/// How many actions of the last tick are still before the run.
pub open spec fn pending(stage: RunStage) -> int {
    match stage {
        RunStage::Sending { at, count, .. } => count - at,
        _ => 0,
    }
}

proof fn lemma_sending_counts(run: EngineRun, now: u64, at: int, count: usize, deadline: Option<u64>)
    requires
        0 <= at <= count,
        run.summary.throttled + (count - at) <= u64::MAX,
    ensures
        ({
            let after = run.sending(now, at, count, deadline);
            &&& after.summary.emitted == run.summary.emitted
            &&& after.summary.throttled + pending(after.stage) == run.summary.throttled + (count
                - at)
        }),
    decreases count - at,
{
    if at < count && !run.fuse.allows(now) {
        let skipped = EngineRun {
            fuse: run.fuse.after(now),
            summary: RunSummary { throttled: counted(run.summary.throttled, 1), ..run.summary },
            ..run
        };
        lemma_sending_counts(skipped, now, at + 1, count, deadline);
    }
}

proof fn lemma_sending_sends_nothing(
    run: EngineRun,
    now: u64,
    at: int,
    count: usize,
    deadline: Option<u64>,
)
    ensures
        run.sending(now, at, count, deadline).summary.emitted == run.summary.emitted,
    decreases count - at,
{
    if at < count && !run.fuse.allows(now) {
        let skipped = EngineRun {
            fuse: run.fuse.after(now),
            summary: RunSummary { throttled: counted(run.summary.throttled, 1), ..run.summary },
            ..run
        };
        lemma_sending_sends_nothing(skipped, now, at + 1, count, deadline);
    }
}

/// The count of emitted actions is the count of actions delivered: at every moment of every run it
/// is how many sends worked, those of the shutdown too, as far as it can count.
pub proof fn law_only_what_was_delivered_is_counted(
    limit: u32,
    cadence: u64,
    replies: Seq<RunReply>,
)
    ensures
        ({
            let start = EngineRun::fresh(limit, cadence);
            let happened = tally(start, replies);
            played(start, replies).summary.emitted == counted(
                0,
                (happened.sent + happened.last_sent) as int,
            )
        }),
    decreases replies.len(),
{
    let start = EngineRun::fresh(limit, cadence);
    if replies.len() > 0 {
        let before = played(start, replies.drop_last());
        law_only_what_was_delivered_is_counted(limit, cadence, replies.drop_last());
        match (before.stage, replies.last()) {
            (RunStage::Ticking, RunReply::Ticked { now, stats, emits, deadline }) => {
                lemma_sending_sends_nothing(before.ticked(now, stats), now, 0, emits, deadline);
            },
            (RunStage::Sending { now, at, count, deadline }, RunReply::Done) => {
                lemma_sending_sends_nothing(before.emitting(), now, at + 1, count, deadline);
            },
            _ => {},
        }
    }
}

/// What the fuse held back is what the ticks produced and nobody tried to send: while nothing has
/// failed, every action of a tick was sent, was held back, or is still to come.
pub proof fn law_every_action_of_a_tick_is_sent_or_held_back(
    limit: u32,
    cadence: u64,
    replies: Seq<RunReply>,
)
    requires
        tally(EngineRun::fresh(limit, cadence), replies).produced <= u64::MAX,
        !played(EngineRun::fresh(limit, cadence), replies).failed,
    ensures
        ({
            let start = EngineRun::fresh(limit, cadence);
            let end = played(start, replies);
            let happened = tally(start, replies);
            happened.produced == happened.sent + end.summary.throttled + pending(end.stage)
        }),
    decreases replies.len(),
{
    let start = EngineRun::fresh(limit, cadence);
    lemma_stage_fits(limit, cadence, replies);
    if replies.len() > 0 {
        let before = played(start, replies.drop_last());
        let after = played(start, replies);
        lemma_stage_fits(limit, cadence, replies.drop_last());
        match (before.stage, replies.last()) {
            (RunStage::Ticking, RunReply::Ticked { now, stats, emits, deadline }) => {
                lemma_sending_goes_on(before.ticked(now, stats), now, 0, emits, deadline);
                law_every_action_of_a_tick_is_sent_or_held_back(
                    limit,
                    cadence,
                    replies.drop_last(),
                );
                lemma_sending_counts(before.ticked(now, stats), now, 0, emits, deadline);
            },
            (RunStage::Sending { now, at, count, deadline }, RunReply::Done) => {
                lemma_sending_goes_on(before.emitting(), now, at + 1, count, deadline);
                law_every_action_of_a_tick_is_sent_or_held_back(
                    limit,
                    cadence,
                    replies.drop_last(),
                );
                lemma_sending_counts(before.emitting(), now, at + 1, count, deadline);
            },
            _ => {
                assert(after.failed == before.failed);
                law_every_action_of_a_tick_is_sent_or_held_back(
                    limit,
                    cadence,
                    replies.drop_last(),
                );
            },
        }
    }
}

proof fn lemma_sending_fits(run: EngineRun, now: u64, at: int, count: usize, deadline: Option<u64>)
    requires
        0 <= at,
    ensures
        run.sending(now, at, count, deadline).stage matches RunStage::Sending { at, count, .. }
            ==> at < count,
    decreases count - at,
{
    if at < count && !run.fuse.allows(now) {
        let skipped = EngineRun {
            fuse: run.fuse.after(now),
            summary: RunSummary { throttled: counted(run.summary.throttled, 1), ..run.summary },
            ..run
        };
        lemma_sending_fits(skipped, now, at + 1, count, deadline);
    }
}

proof fn lemma_stage_fits(limit: u32, cadence: u64, replies: Seq<RunReply>)
    ensures
        match played(EngineRun::fresh(limit, cadence), replies).stage {
            RunStage::Sending { at, count, .. } => at < count,
            RunStage::Draining { at, count } => at < count,
            _ => true,
        },
    decreases replies.len(),
{
    let start = EngineRun::fresh(limit, cadence);
    if replies.len() > 0 {
        let before = played(start, replies.drop_last());
        lemma_stage_fits(limit, cadence, replies.drop_last());
        match (before.stage, replies.last()) {
            (RunStage::Ticking, RunReply::Ticked { now, stats, emits, deadline }) => {
                lemma_sending_goes_on(before.ticked(now, stats), now, 0, emits, deadline);
                lemma_sending_fits(before.ticked(now, stats), now, 0, emits, deadline);
            },
            (RunStage::Sending { now, at, count, deadline }, RunReply::Done) => {
                lemma_sending_goes_on(before.emitting(), now, at + 1, count, deadline);
                lemma_sending_fits(before.emitting(), now, at + 1, count, deadline);
            },
            _ => {},
        }
    }
}

/// Nothing that the shutdown produces is held back, whatever the limit: once it is all behind the
/// run, sending was tried for every action of it.
pub proof fn law_the_shutdown_is_never_held_back(limit: u32, cadence: u64, replies: Seq<RunReply>)
    ensures
        ({
            let start = EngineRun::fresh(limit, cadence);
            let happened = tally(start, replies);
            match played(start, replies).stage {
                RunStage::Draining { at, count } => happened.last == count && happened.last_tried
                    == at,
                RunStage::LastFlush | RunStage::Releasing | RunStage::Over => happened.last_tried
                    == happened.last,
                _ => happened.last == 0 && happened.last_tried == 0,
            }
        }),
    decreases replies.len(),
{
    let start = EngineRun::fresh(limit, cadence);
    if replies.len() > 0 {
        let before = played(start, replies.drop_last());
        law_the_shutdown_is_never_held_back(limit, cadence, replies.drop_last());
        lemma_stage_fits(limit, cadence, replies.drop_last());
        match (before.stage, replies.last()) {
            (RunStage::Ticking, RunReply::Ticked { now, stats, emits, deadline }) => {
                lemma_sending_goes_on(before.ticked(now, stats), now, 0, emits, deadline);
            },
            (RunStage::Sending { now, at, count, deadline }, RunReply::Done) => {
                lemma_sending_goes_on(before.emitting(), now, at + 1, count, deadline);
            },
            _ => {},
        }
    }
}

/// A window of the fuse is one second: from its start on it lets actions through until as many
/// have passed as the limit says, and then none; when the second is over a new one begins empty.
pub proof fn law_a_fuse_counts_by_the_second(fuse: RateFuse, now: u64)
    requires
        fuse.well_formed(),
        now >= fuse.window_start,
    ensures
        now - fuse.window_start < 1_000_000_000 ==> (fuse.allows(now) <==> fuse.in_window
            < fuse.limit),
        now - fuse.window_start >= 1_000_000_000 ==> (fuse.allows(now) <==> fuse.limit > 0),
        fuse.allows(now) ==> fuse.after(now).in_window == (if now - fuse.window_start
            < 1_000_000_000 {
            fuse.in_window + 1
        } else {
            1
        }),
        !fuse.allows(now) ==> fuse.after(now).tripped,
        fuse.after(now).limit == fuse.limit,
        DEFAULT_MAX_EMITS_PER_SEC == 20_000,
{
}

/// Two repetitions belong to one burst where they are no further apart than four times the cadence,
/// or than a quarter of a second where that is longer.
pub proof fn law_a_burst_spans_four_beats(cadence: u64)
    requires
        4 * cadence <= u64::MAX,
    ensures
        4 * cadence >= 250_000_000 ==> burst_window(cadence) == 4 * cadence,
        4 * cadence < 250_000_000 ==> burst_window(cadence) == 250_000_000,
{
}

/// Counts add up, and stop at the greatest there is; the time between two moments is their
/// difference, and none where the clock went back.
pub proof fn law_counts_never_wrap(a: u64, b: u64)
    ensures
        a + b <= u64::MAX ==> counted(a, b as int) == a + b,
        a + b > u64::MAX ==> counted(a, b as int) == u64::MAX,
        b >= a ==> span(a, b) == b - a,
        b < a ==> span(a, b) == 0,
{
}

/// A tick adds what it began and what it skipped to the summary, and changes nothing else of it.
pub proof fn law_a_tick_is_added_to_the_summary(summary: RunSummary, stats: TickStats)
    requires
        summary.iterations + stats.iterations_started <= u64::MAX,
        summary.slots_skipped + stats.slots_skipped <= u64::MAX,
    ensures
        summary.absorbing(stats).iterations == summary.iterations + stats.iterations_started,
        summary.absorbing(stats).slots_skipped == summary.slots_skipped + stats.slots_skipped,
        summary.absorbing(stats).emitted == summary.emitted,
        summary.absorbing(stats).throttled == summary.throttled,
        summary.absorbing(stats).active == summary.active,
        summary.absorbing(stats).quit == summary.quit,
{
}

/// An event goes to the engine, a deadline to its next tick, and the end of the event source to the
/// shutdown. An engine that asks to quit is shut down, and the summary says so; otherwise it goes
/// on.
pub proof fn law_each_wake_has_its_answer(run: EngineRun, deadline: Option<u64>, event: InputEvent)
    ensures
        run.stage == RunStage::Waiting(deadline) ==> {
            &&& run.asking() == RunRequest::Wait(deadline)
            &&& run.next(RunReply::Woke(Wake::Event(event))).asking() == RunRequest::Handle(event)
            &&& run.next(RunReply::Woke(Wake::Deadline)).asking() is Tick
            &&& run.next(RunReply::Woke(Wake::Interrupted)).asking() is Shutdown
            &&& !run.next(RunReply::Woke(Wake::Interrupted)).summary.quit || run.summary.quit
        },
        run.stage == RunStage::Handling(event) ==> {
            &&& run.next((RunReply::Handled { quit: true })).asking() is Shutdown
            &&& run.next((RunReply::Handled { quit: true })).summary.quit
            &&& run.next((RunReply::Handled { quit: false })).asking() is Tick
            &&& run.next((RunReply::Handled { quit: false })).summary == run.summary
        },
{
}

} // verus!
