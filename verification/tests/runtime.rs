//! The run loop, its fuse, its pump and its summary.
use sequencer::input::{EventKind, InputEvent, Key, Mods};
use sequencer::runtime::{
    burst_gap, plan_wait, EngineRun, EventPump, RateFuse, RunReply, RunRequest, RunSummary,
    ScriptedPump, TickStats, WaitPlan, Wake, DEFAULT_MAX_EMITS_PER_SEC, SPIN_HANDOFF,
};

const MILLI: u64 = 1_000_000;

/// Repetitions per second, where the summary has enough to tell.
fn sent_cps(summary: &RunSummary) -> Option<f64> {
    summary.has_rate().then(|| summary.paced_spans as f64 / (summary.active as f64 / 1e9))
}

/// Two short bursts a long way apart are not measured first-repetition-to-last.
#[test]
fn idle_time_between_activations_is_not_counted_as_clicking() {
    let mut summary = RunSummary::default();
    // Two bursts of 20/s (50ms apart), separated by a 30-second pause.
    for _ in 0..10 {
        summary.active += 50 * MILLI;
        summary.paced_spans += 1;
    }
    summary.iterations = 22; // 11 repetitions per burst; the pause spans none
    assert_eq!(
        sent_cps(&summary).map(f64::round),
        Some(20.0),
        "the pause between bursts must not drag the rate down"
    );
}

/// The same, through the loop that measures it.
#[test]
fn a_pause_between_two_bursts_is_left_out() {
    let mut run = EngineRun::new(DEFAULT_MAX_EMITS_PER_SEC, 50 * MILLI);
    let burst = |start: u64| (0..11).map(move |i| start + i * 50 * MILLI);
    for now in burst(0).chain(burst(30_000 * MILLI)) {
        assert_eq!(run.request(), RunRequest::Tick);
        let stats = TickStats { iterations_started: 1, slots_skipped: 0 };
        run.advance(RunReply::Ticked { now, stats, emits: 0, deadline: None });
        run.advance(RunReply::Woke(Wake::Deadline));
    }
    assert_eq!(run.summary.iterations, 22);
    assert_eq!(run.summary.paced_spans, 20);
    assert_eq!(run.summary.active, 1_000 * MILLI);
}

/// `iterations - 1` would count the between-burst span as a gap that `active` never
/// included — the exact mismatch that made the old figure look like a slow machine.
#[test]
fn the_numerator_counts_only_the_gaps_the_denominator_measured() {
    let summary = RunSummary {
        iterations: 100,
        paced_spans: 10,
        active: 1_000 * MILLI,
        ..RunSummary::default()
    };
    assert_eq!(sent_cps(&summary), Some(10.0), "spans, not iterations");
}

/// A single repetition spans no gap, so there is nothing to divide — better no figure
/// than a fabricated one.
#[test]
fn one_lonely_repetition_reports_no_rate() {
    let summary = RunSummary { iterations: 1, ..RunSummary::default() };
    assert_eq!(sent_cps(&summary), None);
}

/// The window has to be forgiving of a machine stuttering, but nowhere near long enough
/// to swallow a human pause between two deliberate presses.
#[test]
fn the_burst_window_tolerates_stutter_but_not_thinking() {
    let window = burst_gap(50 * MILLI);
    assert!(window >= 150 * MILLI, "{window:?} is too strict for a stutter");
    assert!(window <= 400 * MILLI, "{window:?} would swallow a real pause");
    assert_eq!(burst_gap(100 * MILLI), 400 * MILLI);
    assert_eq!(burst_gap(u64::MAX), u64::MAX);
}

/// An engine that quits on F8, and on F9 presses and releases once.
struct Toy {
    presses: usize,
    pending: usize,
}

/// What a run did to its sink.
#[derive(Default)]
struct Sink {
    sent: usize,
    flushes: usize,
    released: usize,
    fails: bool,
}

fn drive(pump: &mut ScriptedPump, sink: &mut Sink) -> Option<RunSummary> {
    let mut engine = Toy { presses: 0, pending: 0 };
    let mut run = EngineRun::new(DEFAULT_MAX_EMITS_PER_SEC, 50 * MILLI);
    loop {
        let reply = match run.request() {
            RunRequest::Tick => {
                engine.pending = 2 * engine.presses;
                let started = engine.presses as u32;
                engine.presses = 0;
                let stats = TickStats { iterations_started: started, slots_skipped: 0 };
                RunReply::Ticked { now: 0, stats, emits: engine.pending, deadline: None }
            }
            RunRequest::Emit(i) | RunRequest::EmitLast(i) => {
                assert!(i < engine.pending);
                if sink.fails {
                    RunReply::Failed
                } else {
                    sink.sent += 1;
                    RunReply::Done
                }
            }
            RunRequest::Flush | RunRequest::FlushLast => {
                sink.flushes += 1;
                RunReply::Done
            }
            RunRequest::Wait(deadline) => RunReply::Woke(pump.wait_until(deadline)),
            RunRequest::Handle(event) => {
                if event.kind == EventKind::KeyDown(Key::F9) {
                    engine.presses += 1;
                }
                RunReply::Handled { quit: event.kind == EventKind::KeyDown(Key::F8) }
            }
            RunRequest::Shutdown => {
                engine.pending = 1;
                RunReply::Drained(1)
            }
            RunRequest::Release => {
                sink.released += 1;
                RunReply::Done
            }
            RunRequest::Over => return run.outcome(),
        };
        run.advance(reply);
    }
}

fn down(key: Key) -> InputEvent {
    InputEvent { kind: EventKind::KeyDown(key), mods: Mods::none() }
}

#[test]
fn a_quit_event_ends_the_run_and_releases() {
    let mut pump = ScriptedPump::new(vec![(0, down(Key::F8))]);
    let mut sink = Sink::default();
    let summary = drive(&mut pump, &mut sink).expect("should run");
    assert!(summary.quit);
    assert_eq!(sink.released, 1, "everything is let go of");
}

#[test]
fn an_exhausted_pump_ends_the_run() {
    let mut pump = ScriptedPump::new(Vec::new());
    let summary = drive(&mut pump, &mut Sink::default()).expect("should run");
    assert!(!summary.quit);
}

#[test]
fn clicking_reaches_the_sink() {
    let mut pump = ScriptedPump::new(vec![(0, down(Key::F9))]);
    let mut sink = Sink::default();
    let summary = drive(&mut pump, &mut sink).expect("should run");
    assert!(summary.emitted >= 2, "expected a press and a release");
    assert_eq!(summary.emitted, 3, "and the one of the shutdown");
    assert_eq!(sink.sent, 3);
    assert_eq!(sink.flushes, 2);
    assert_eq!(sink.released, 1);
}

/// Whatever cannot be sent ends the run, and still everything is released.
#[test]
fn a_sink_that_fails_ends_the_run_without_a_summary() {
    let mut pump = ScriptedPump::new(vec![(0, down(Key::F9)), (0, down(Key::F9))]);
    let mut sink = Sink { fails: true, ..Sink::default() };
    assert_eq!(drive(&mut pump, &mut sink), None);
    assert_eq!(sink.released, 1);
    assert_eq!(pump.wait_until(None), Wake::Event(down(Key::F9)), "the second was never read");
}

#[test]
fn the_achieved_rate_measures_only_the_time_spent_repeating() {
    // 100 gaps measured across one second of firing is 100/s.
    let mut summary = RunSummary {
        iterations: 101,
        paced_spans: 100,
        active: 1_000 * MILLI,
        ..RunSummary::default()
    };
    assert!((sent_cps(&summary).unwrap() - 100.0).abs() < 0.001);

    // Too little to say anything: better to report nothing than a made-up number.
    summary.paced_spans = 0;
    assert_eq!(sent_cps(&summary), None);
    summary.paced_spans = 50;
    summary.active = 0;
    assert_eq!(sent_cps(&summary), None);
}

#[test]
fn the_fuse_throttles_and_says_so_once() {
    let mut fuse = RateFuse::new(2);
    let now = 0;
    assert!(fuse.allow(now));
    assert!(fuse.allow(now));
    assert!(!fuse.allow(now));
    assert!(fuse.tripped());

    // A new window resets the allowance but not the fact that it happened.
    let later = 1500 * MILLI;
    assert!(fuse.allow(later));
    assert!(fuse.tripped());
}

/// What the fuse holds back is counted, not sent.
#[test]
fn a_run_counts_what_its_fuse_held_back() {
    let mut run = EngineRun::new(2, 50 * MILLI);
    let stats = TickStats { iterations_started: 1, slots_skipped: 3 };
    run.advance(RunReply::Ticked { now: 0, stats, emits: 5, deadline: Some(7) });
    let mut sent = Vec::new();
    while let RunRequest::Emit(i) = run.request() {
        sent.push(i);
        run.advance(RunReply::Done);
    }
    assert_eq!(sent, vec![0, 1]);
    assert_eq!(run.summary.throttled, 3);
    assert_eq!(run.summary.slots_skipped, 3);
    assert_eq!(run.request(), RunRequest::Flush);
    run.advance(RunReply::Done);
    assert_eq!(run.request(), RunRequest::Wait(Some(7)));
}

#[test]
fn a_scripted_pump_delivers_in_order_then_stops() {
    let first = down(Key::F9);
    let second = InputEvent { kind: EventKind::KeyUp(Key::F9), mods: Mods::none() };
    let mut pump = ScriptedPump::new(vec![(0, first), (5 * MILLI, second)]);
    assert_eq!(pump.wait_until(None), Wake::Event(first));
    assert_eq!(pump.wait_until(None), Wake::Event(second));
    assert_eq!(pump.wait_until(None), Wake::Interrupted);
}

/// The last stretch before a deadline is spun, for no timer is that exact.
#[test]
fn a_wait_listens_first_and_spins_last() {
    assert_eq!(plan_wait(0, None), WaitPlan::Park);
    assert_eq!(plan_wait(10, Some(10)), WaitPlan::Due);
    assert_eq!(plan_wait(10, Some(9)), WaitPlan::Due);
    assert!(matches!(plan_wait(0, Some(SPIN_HANDOFF)), WaitPlan::Spin(_)));
    assert!(matches!(plan_wait(0, Some(10 * SPIN_HANDOFF)), WaitPlan::Listen(_)));
}

/// Only what was delivered counts: a last action that could not be sent is tried and not counted,
/// and none of them is held back, even where the fuse lets nothing pass.
#[test]
fn a_last_action_that_fails_is_not_counted() {
    let mut run = EngineRun::new(0, 50 * MILLI);
    let stats = TickStats { iterations_started: 0, slots_skipped: 0 };
    run.advance(RunReply::Ticked { now: 0, stats, emits: 0, deadline: None });
    run.advance(RunReply::Woke(Wake::Interrupted));
    assert_eq!(run.request(), RunRequest::Shutdown);
    run.advance(RunReply::Drained(2));
    assert_eq!(run.request(), RunRequest::EmitLast(0));
    run.advance(RunReply::Failed);
    assert_eq!(run.request(), RunRequest::EmitLast(1));
    assert_eq!(run.summary.emitted, 0);
    run.advance(RunReply::Done);
    assert_eq!(run.request(), RunRequest::FlushLast);
    run.advance(RunReply::Done);
    run.advance(RunReply::Done);
    let summary = run.outcome().expect("nothing failed while it ran");
    assert_eq!((summary.emitted, summary.throttled), (1, 0));
}

/// Every action of a tick is sent, held back, or still to come.
#[test]
fn every_action_of_a_tick_is_sent_or_held_back() {
    let mut run = EngineRun::new(3, 50 * MILLI);
    let stats = TickStats { iterations_started: 1, slots_skipped: 0 };
    run.advance(RunReply::Ticked { now: 0, stats, emits: 5, deadline: None });
    run.advance(RunReply::Done);
    assert_eq!((run.summary.emitted, run.summary.throttled), (1, 0));
    run.advance(RunReply::Done);
    run.advance(RunReply::Done);
    assert_eq!((run.summary.emitted, run.summary.throttled), (3, 2));
}

/// The end of a run comes in order, and once.
#[test]
fn nothing_follows_the_release() {
    let mut run = EngineRun::new(DEFAULT_MAX_EMITS_PER_SEC, 50 * MILLI);
    let stats = TickStats { iterations_started: 0, slots_skipped: 0 };
    run.advance(RunReply::Ticked { now: 0, stats, emits: 0, deadline: None });
    run.advance(RunReply::Woke(Wake::Interrupted));
    run.advance(RunReply::Drained(1));
    let mut asked = Vec::new();
    for _ in 0..5 {
        asked.push(run.request());
        run.advance(RunReply::Done);
    }
    let end = [RunRequest::EmitLast(0), RunRequest::FlushLast, RunRequest::Release];
    assert_eq!(asked[..3], end);
    assert_eq!(asked[3..], [RunRequest::Over, RunRequest::Over]);
}
