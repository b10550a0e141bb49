//! What a sequence with blocks does: what is written as a flat list of steps is read as a program
//! of nested blocks, and an iteration does what that program says.
use vstd::prelude::*;

use super::format_laws::{balance_after, carried_by, settles};
use super::model::{ActionModel, BindModel, StepModel};
use super::run::{
    asking, fetching, fits, gap_work, iterating, next, skipped, step_work, Context, Lap, Op, Reply,
    Request, State,
};
use super::run_laws::{play, sends, sent};
use super::steps::{Balance, Block};
use super::work_laws::{at_steps, is_pausing, lemma_script_concat, lemma_script_one, script};

verus! {

// ------------------------------------------------------------------------------- programs

/// A sequence as nested blocks: each step or block, and what comes after it.
pub enum Program {
    End,
    Act(StepModel, Box<Program>),
    /// A block that runs with a chance.
    Chance(u64, Box<Program>, Box<Program>),
    /// A block that runs a number of times.
    Repeat(u32, Box<Program>, Box<Program>),
}

/// Whether a step opens or closes no block.
pub open spec fn is_act(step: StepModel) -> bool {
    match step {
        StepModel::Tap(_) | StepModel::Hold(_) | StepModel::Release(_) | StepModel::Wait(_) => true,
        _ => false,
    }
}

/// Whether the blocks of a program are all written as blocks.
pub open spec fn is_program(program: Program) -> bool
    decreases program,
{
    match program {
        Program::End => true,
        Program::Act(step, rest) => is_act(step) && is_program(*rest),
        Program::Chance(_, body, rest) => is_program(*body) && is_program(*rest),
        Program::Repeat(_, body, rest) => is_program(*body) && is_program(*rest),
    }
}

/// A program as the flat list of steps that a profile holds.
pub open spec fn written(program: Program) -> Seq<StepModel>
    decreases program,
{
    match program {
        Program::End => seq![],
        Program::Act(step, rest) => seq![step] + written(*rest),
        Program::Chance(chance, body, rest) => seq![StepModel::Rng(chance)] + (written(*body) + (
        seq![StepModel::RngEnd] + written(*rest))),
        Program::Repeat(times, body, rest) => seq![StepModel::Loop(times)] + (written(*body) + (
        seq![StepModel::LoopEnd] + written(*rest))),
    }
}

/// What doing a program comes to: the work it is, whether the next action after it owes the gap,
/// and the rolls of the dice that are left.
#[verifier::ext_equal]
pub struct Doing {
    pub work: Seq<Op>,
    pub gap: bool,
    pub rolls: Seq<u64>,
}

impl Doing {
    /// The work of this one before another's.
    pub open spec fn before(self, other: Doing) -> Doing {
        Doing { work: self.work + other.work, ..other }
    }
}

/// The work of one step: a WAIT pauses in place of the gap, an action waits out the gap if it is
/// owed.
pub open spec fn act_work(bind: BindModel, step: StepModel, gap: bool) -> Seq<Op> {
    match step {
        StepModel::Wait(pause) => seq![Op::Pause(pause)],
        _ => gap_work(gap, bind.gap) + step_work(step, bind.tap),
    }
}

/// What a program does for the rolls of the dice: a block of chance takes one roll and runs where
/// that is under its chance, and a repeated block runs as often as it says.
pub open spec fn doing(bind: BindModel, program: Program, gap: bool, rolls: Seq<u64>) -> Doing
    decreases program, 0nat,
{
    match program {
        Program::End => Doing { work: seq![], gap, rolls },
        Program::Act(step, rest) => Doing {
            work: act_work(bind, step, gap),
            gap: !(step is Wait),
            rolls,
        }.before(doing(bind, *rest, !(step is Wait), rolls)),
        Program::Chance(chance, body, rest) => {
            let block = if rolls[0] < chance {
                doing(bind, *body, gap, rolls.skip(1))
            } else {
                Doing { work: seq![], gap, rolls: rolls.skip(1) }
            };
            block.before(doing(bind, *rest, block.gap, block.rolls))
        },
        Program::Repeat(times, body, rest) => {
            let runs = if times == 0 {
                1nat
            } else {
                times as nat
            };
            let block = doing_often(bind, runs, *body, gap, rolls);
            block.before(doing(bind, *rest, block.gap, block.rolls))
        },
    }
}

/// What a program does when it is done a number of times.
pub open spec fn doing_often(
    bind: BindModel,
    runs: nat,
    program: Program,
    gap: bool,
    rolls: Seq<u64>,
) -> Doing
    decreases program, runs + 1,
{
    if runs == 0 {
        Doing { work: seq![], gap, rolls }
    } else {
        let once = doing(bind, program, gap, rolls);
        once.before(doing_often(bind, (runs - 1) as nat, program, once.gap, once.rolls))
    }
}

// ------------------------------------------------------------------------------- places

/// The blocks around a place in a program, from the inside out: what comes after each, and for a
/// repeated one where its body starts and how many runs it still owes.
pub enum Around {
    Nothing,
    Chance(Program, Box<Around>),
    Repeat(Program, Lap, Program, Box<Around>),
}

/// What is written from the end of the innermost block on.
pub open spec fn tail(around: Around) -> Seq<StepModel>
    decreases around,
{
    match around {
        Around::Nothing => seq![],
        Around::Chance(rest, outer) => seq![StepModel::RngEnd] + (written(rest) + tail(*outer)),
        Around::Repeat(_, _, rest, outer) => seq![StepModel::LoopEnd] + (written(rest) + tail(
            *outer,
        )),
    }
}

/// The repeated blocks around a place, the innermost last.
pub open spec fn laps(around: Around) -> Seq<Lap>
    decreases around,
{
    match around {
        Around::Nothing => seq![],
        Around::Chance(_, outer) => laps(*outer),
        Around::Repeat(_, lap, _, outer) => laps(*outer).push(lap),
    }
}

/// Whether the blocks around a place are those of a list of steps.
pub open spec fn is_around(steps: Seq<StepModel>, around: Around) -> bool
    decreases around,
{
    match around {
        Around::Nothing => true,
        Around::Chance(rest, outer) => is_program(rest) && is_around(steps, *outer),
        Around::Repeat(body, lap, rest, outer) => {
            &&& is_program(body)
            &&& is_program(rest)
            &&& is_around(steps, *outer)
            &&& lap.start <= steps.len()
            &&& steps.skip(lap.start as int) == written(body) + tail(around)
        },
    }
}

/// What is done from the end of the innermost block on.
pub open spec fn doing_around(bind: BindModel, around: Around, gap: bool, rolls: Seq<u64>) -> Doing
    decreases around,
{
    match around {
        Around::Nothing => Doing { work: seq![], gap, rolls },
        Around::Chance(rest, outer) => {
            let after = doing(bind, rest, gap, rolls);
            after.before(doing_around(bind, *outer, after.gap, after.rolls))
        },
        Around::Repeat(body, lap, rest, outer) => {
            let again = doing_often(bind, lap.left as nat, body, gap, rolls);
            let after = doing(bind, rest, again.gap, again.rolls);
            again.before(after.before(doing_around(bind, *outer, after.gap, after.rolls)))
        },
    }
}

/// What is done from a place on.
pub open spec fn doing_from(
    bind: BindModel,
    here: Program,
    around: Around,
    gap: bool,
    rolls: Seq<u64>,
) -> Doing {
    let inner = doing(bind, here, gap, rolls);
    inner.before(doing_around(bind, around, inner.gap, inner.rolls))
}

/// Whether a running sequence stands at a place.
pub open spec fn stands(steps: Seq<StepModel>, s: State, here: Program, around: Around) -> bool {
    &&& 0 <= s.index <= steps.len()
    &&& is_program(here)
    &&& is_around(steps, around)
    &&& steps.skip(s.index) == written(here) + tail(around)
    &&& s.loops == laps(around)
}

/// Whether an iteration is under way: at its steps, before a roll, or hearing out the events
/// between two runs of a block.
pub open spec fn is_under_way(s: State, around: Around) -> bool {
    ||| at_steps(s) && (s.phase is Ready || is_pausing(s.phase))
    ||| s.todo.len() == 2 && s.todo[0] is Roll && s.todo[1] is Fetch && s.phase is Ready
        && around is Chance
    ||| s.todo.len() == 2 && s.todo[0] is Poll && s.todo[1] is Fetch && (s.phase is Ready
        || s.phase is PollNow || s.phase is PollWait)
}

/// What an iteration that is under way still owes.
pub open spec fn owes(
    bind: BindModel,
    s: State,
    here: Program,
    around: Around,
    rolls: Seq<u64>,
) -> Doing {
    match s.todo[0] {
        Op::Roll(chance) => if rolls[0] < chance {
            doing_from(bind, here, around, s.wants_gap, rolls.skip(1))
        } else {
            match around {
                Around::Chance(rest, outer) => doing_from(
                    bind,
                    rest,
                    *outer,
                    s.wants_gap,
                    rolls.skip(1),
                ),
                _ => doing_from(bind, here, around, s.wants_gap, rolls.skip(1)),
            }
        },
        Op::Poll => doing_from(bind, here, around, s.wants_gap, rolls),
        _ => Doing { work: s.todo.drop_last(), gap: s.wants_gap, rolls }.before(
            doing_from(bind, here, around, s.wants_gap, rolls),
        ),
    }
}

proof fn lemma_before(a: Doing, b: Doing, c: Doing)
    ensures
        a.before(b).before(c) == a.before(b.before(c)),
        a.work.len() == 0 ==> a.before(b) == b,
{
    assert(a.before(b).before(c) =~= a.before(b.before(c)));
    if a.work.len() == 0 {
        assert(a.before(b) =~= b);
    }
}

/// A failed chance looks past every whole block.
proof fn lemma_skipped_program(
    steps: Seq<StepModel>,
    from: int,
    program: Program,
    more: Seq<StepModel>,
    depth: nat,
)
    requires
        0 <= from <= steps.len(),
        is_program(program),
        steps.skip(from) == written(program) + more,
        depth > 0,
    ensures
        from + written(program).len() <= steps.len(),
        steps.skip(from + written(program).len()) == more,
        skipped(steps, from, depth) == skipped(steps, from + written(program).len(), depth),
    decreases program,
{
    let all = written(program) + more;
    if !(program is End) {
        assert(written(program).len() > 0);
        assert(steps.skip(from).len() > 0);
        assert(steps.skip(from)[0] == steps[from]);
        assert(steps.skip(from + 1) =~= all.skip(1));
    }
    match program {
        Program::End => {
            assert(all =~= more);
        },
        Program::Act(_, rest) => {
            assert(all.skip(1) =~= written(*rest) + more);
            lemma_skipped_program(steps, from + 1, *rest, more, depth);
        },
        Program::Chance(_, body, rest) => {
            let end = seq![StepModel::RngEnd] + (written(*rest) + more);
            let at = from + 1 + written(*body).len();
            assert(all.skip(1) =~= written(*body) + end);
            lemma_skipped_program(steps, from + 1, *body, end, depth + 1);
            assert(steps.skip(at)[0] == steps[at]);
            assert(steps.skip(at + 1) =~= end.skip(1));
            assert(end.skip(1) =~= written(*rest) + more);
            lemma_skipped_program(steps, at + 1, *rest, more, depth);
        },
        Program::Repeat(_, body, rest) => {
            let end = seq![StepModel::LoopEnd] + (written(*rest) + more);
            let at = from + 1 + written(*body).len();
            assert(all.skip(1) =~= written(*body) + end);
            lemma_skipped_program(steps, from + 1, *body, end, depth);
            assert(steps.skip(at)[0] == steps[at]);
            assert(steps.skip(at + 1) =~= end.skip(1));
            assert(end.skip(1) =~= written(*rest) + more);
            lemma_skipped_program(steps, at + 1, *rest, more, depth);
        },
    }
}

// ------------------------------------------------------------------------------- iterations

/// The work that is left when the steps are all done.
pub open spec fn closing() -> Seq<Op> {
    seq![Op::Flush, Op::Poll, Op::EndIteration]
}

/// The piece of work that a reply completed.
pub open spec fn done_by(s: State, t: State) -> Seq<Op> {
    if s.todo.len() > 0 && (s.todo[0] is Down || s.todo[0] is Up || s.todo[0] is Pause) && t.todo
        == s.todo.skip(1) {
        s.todo.take(1)
    } else {
        seq![]
    }
}

/// The presses, releases and pauses that were completed over a list of replies.
pub open spec fn done(c: Context, s: State, replies: Seq<Reply>) -> Seq<Op>
    decreases replies.len(),
{
    if replies.len() == 0 {
        seq![]
    } else {
        done(c, s, replies.drop_last()) + done_by(
            play(c, s, replies.drop_last()),
            play(c, s, replies),
        )
    }
}

/// The roll of the dice that a reply is.
pub open spec fn rolled_by(request: Request, reply: Reply) -> Seq<u64> {
    match reply {
        Reply::Rolled(number) => if request is Roll {
            seq![number]
        } else {
            seq![]
        },
        _ => seq![],
    }
}

/// The rolls of the dice over a list of replies.
pub open spec fn rolled(c: Context, s: State, replies: Seq<Reply>) -> Seq<u64>
    decreases replies.len(),
{
    if replies.len() == 0 {
        seq![]
    } else {
        rolled(c, s, replies.drop_last()) + rolled_by(
            asking(c, play(c, s, replies.drop_last())),
            replies.last(),
        )
    }
}

proof fn lemma_enter_chance(
    bind: BindModel,
    chance: u64,
    body: Program,
    rest: Program,
    around: Around,
    gap: bool,
    rolls: Seq<u64>,
)
    ensures
        doing_from(
            bind,
            Program::Chance(chance, Box::new(body), Box::new(rest)),
            around,
            gap,
            rolls,
        ) == if rolls[0] < chance {
            doing_from(bind, body, Around::Chance(rest, Box::new(around)), gap, rolls.skip(1))
        } else {
            doing_from(bind, rest, around, gap, rolls.skip(1))
        },
{
    let block = if rolls[0] < chance {
        doing(bind, body, gap, rolls.skip(1))
    } else {
        Doing { work: seq![], gap, rolls: rolls.skip(1) }
    };
    let after = doing(bind, rest, block.gap, block.rolls);
    let beyond = doing_around(bind, around, after.gap, after.rolls);
    lemma_before(block, after, beyond);
    lemma_before(block, after.before(beyond), beyond);
}

proof fn lemma_enter_repeat(
    bind: BindModel,
    times: u32,
    body: Program,
    rest: Program,
    lap: Lap,
    around: Around,
    gap: bool,
    rolls: Seq<u64>,
)
    requires
        lap.left + 1 == times || (times == 0 && lap.left == 0),
    ensures
        doing_from(
            bind,
            Program::Repeat(times, Box::new(body), Box::new(rest)),
            around,
            gap,
            rolls,
        ) == doing_from(bind, body, Around::Repeat(body, lap, rest, Box::new(around)), gap, rolls),
{
    let block = doing_often(bind, lap.left as nat + 1, body, gap, rolls);
    let once = doing(bind, body, gap, rolls);
    let again = doing_often(bind, lap.left as nat, body, once.gap, once.rolls);
    let after = doing(bind, rest, block.gap, block.rolls);
    let beyond = doing_around(bind, around, after.gap, after.rolls);
    lemma_before(block, after, beyond);
    lemma_before(once, again, after.before(beyond));
}

proof fn lemma_repeat_ends(
    bind: BindModel,
    body: Program,
    lap: Lap,
    fewer: Lap,
    rest: Program,
    outer: Around,
    gap: bool,
    rolls: Seq<u64>,
)
    requires
        lap.left > 0 ==> fewer.left == lap.left - 1,
    ensures
        doing_around(bind, Around::Repeat(body, lap, rest, Box::new(outer)), gap, rolls)
            == if lap.left == 0 {
            doing_from(bind, rest, outer, gap, rolls)
        } else {
            doing_from(
                bind,
                body,
                Around::Repeat(body, fewer, rest, Box::new(outer)),
                gap,
                rolls,
            )
        },
{
    let again = doing_often(bind, lap.left as nat, body, gap, rolls);
    let after = doing(bind, rest, again.gap, again.rolls);
    let beyond = doing_around(bind, outer, after.gap, after.rolls);
    if lap.left == 0 {
        lemma_before(again, after.before(beyond), beyond);
    } else {
        let once = doing(bind, body, gap, rolls);
        let more = doing_often(bind, fewer.left as nat, body, once.gap, once.rolls);
        lemma_before(once, more, after.before(beyond));
    }
}

proof fn lemma_fetch(
    bind: BindModel,
    steps: Seq<StepModel>,
    s: State,
    here: Program,
    around: Around,
    later: Seq<u64>,
) -> (place: (Program, Around))
    requires
        steps.len() <= usize::MAX,
        stands(steps, s, here, around),
        s.todo == seq![Op::Fetch],
    ensures
        ({
            let t = fetching(bind, steps, s);
            ||| t.todo == closing() && owes(bind, s, here, around, later) == (Doing {
                work: seq![],
                gap: s.wants_gap,
                rolls: later,
            })
            ||| stands(steps, t, place.0, place.1) && is_under_way(t, place.1) && t.bind
                == s.bind && owes(bind, s, here, around, later) == owes(
                bind,
                t,
                place.0,
                place.1,
                later,
            )
        }),
{
    let t = fetching(bind, steps, s);
    let all = written(here) + tail(around);
    let inner = doing(bind, here, s.wants_gap, later);
    let outer = doing_around(bind, around, inner.gap, inner.rolls);
    assert(s.todo.drop_last() =~= seq![]);
    lemma_before(
        Doing { work: s.todo.drop_last(), gap: s.wants_gap, rolls: later },
        doing_from(bind, here, around, s.wants_gap, later),
        outer,
    );
    if s.index >= steps.len() {
        assert(all.len() == 0);
        assert(here is End);
        assert(around is Nothing);
        assert(t.todo =~= closing());
        assert(inner.before(outer) =~= Doing { work: seq![], gap: s.wants_gap, rolls: later });
        (here, around)
    } else {
        assert(steps.skip(s.index)[0] == steps[s.index]);
        assert(steps.skip(s.index + 1) =~= all.skip(1));
        match here {
            Program::Act(step, rest) => {
                let work = act_work(bind, step, s.wants_gap);
                assert(steps[s.index] == step);
                assert(all.skip(1) =~= written(*rest) + tail(around));
                assert(t.todo =~= work + seq![Op::Fetch]);
                assert(t.todo.drop_last() =~= work);
                assert(at_steps(t));
                let after = doing(bind, *rest, !(step is Wait), later);
                lemma_before(
                    Doing { work, gap: !(step is Wait), rolls: later },
                    after,
                    doing_around(bind, around, after.gap, after.rolls),
                );
                (*rest, around)
            },
            Program::Chance(chance, body, rest) => {
                let within = Around::Chance(*rest, Box::new(around));
                assert(steps[s.index] == StepModel::Rng(chance));
                assert(all.skip(1) =~= written(*body) + tail(within));
                lemma_enter_chance(bind, chance, *body, *rest, around, s.wants_gap, later);
                (*body, within)
            },
            Program::Repeat(times, body, rest) => {
                let lap = Lap {
                    start: (s.index + 1) as usize,
                    left: if times == 0 {
                        0
                    } else {
                        (times - 1) as u32
                    },
                };
                let within = Around::Repeat(*body, lap, *rest, Box::new(around));
                assert(steps[s.index] == StepModel::Loop(times));
                assert(all.skip(1) =~= written(*body) + tail(within));
                lemma_enter_repeat(bind, times, *body, *rest, lap, around, s.wants_gap, later);
                assert(t.todo.drop_last() =~= seq![]);
                lemma_before(
                    Doing { work: t.todo.drop_last(), gap: s.wants_gap, rolls: later },
                    doing_from(bind, *body, within, s.wants_gap, later),
                    outer,
                );
                (*body, within)
            },
            Program::End => {
                assert(all =~= tail(around));
                assert(inner.work.len() == 0);
                lemma_before(inner, outer, outer);
                match around {
                    Around::Nothing => (here, around),
                    Around::Chance(rest, past) => {
                        assert(steps[s.index] is RngEnd);
                        assert(all.skip(1) =~= written(rest) + tail(*past));
                        assert(t.todo.drop_last() =~= seq![]);
                        lemma_before(
                            Doing { work: t.todo.drop_last(), gap: s.wants_gap, rolls: later },
                            doing_from(bind, rest, *past, s.wants_gap, later),
                            outer,
                        );
                        (rest, *past)
                    },
                    Around::Repeat(body, lap, rest, past) => {
                        assert(steps[s.index] is LoopEnd);
                        assert(s.loops.last() == lap);
                        assert(s.loops.drop_last() =~= laps(*past));
                        let fewer = Lap { start: lap.start, left: (lap.left - 1) as u32 };
                        lemma_repeat_ends(
                            bind,
                            body,
                            lap,
                            fewer,
                            rest,
                            *past,
                            s.wants_gap,
                            later,
                        );
                        if lap.left == 0 {
                            assert(all.skip(1) =~= written(rest) + tail(*past));
                            assert(t.todo.drop_last() =~= seq![]);
                            lemma_before(
                                Doing { work: t.todo.drop_last(), gap: s.wants_gap, rolls: later },
                                doing_from(bind, rest, *past, s.wants_gap, later),
                                outer,
                            );
                            (rest, *past)
                        } else {
                            let within = Around::Repeat(body, fewer, rest, past);
                            assert(tail(within) =~= tail(around));
                            (body, within)
                        }
                    },
                }
            },
        }
    }
}

/// Whether nothing of an iteration will be done any more.
pub open spec fn is_lost(t: State) -> bool {
    ||| (t.phase is Over || t.phase is Failed) && (t.todo.len() == 0 || !(
    t.todo.last() is EndIteration))
    ||| t.phase is Ready && (t.todo == seq![Op::Drain, Op::Flush] || t.todo == seq![Op::Flush]
        || t.todo.len() == 0)
}

pub proof fn lemma_lost(c: Context, s: State, reply: Reply)
    requires
        is_lost(s),
    ensures
        is_lost(next(c, s, reply)),
{
    if s.todo == seq![Op::Drain, Op::Flush] {
        assert(s.todo.skip(1) =~= seq![Op::Flush]);
    }
    if s.todo == seq![Op::Flush] {
        assert(s.todo.skip(1) =~= seq![]);
    }
}

proof fn lemma_under_way(
    c: Context,
    s: State,
    steps: Seq<StepModel>,
    here: Program,
    around: Around,
    reply: Reply,
    later: Seq<u64>,
) -> (place: (Program, Around))
    requires
        c.profile.binds[s.bind].action == ActionModel::Sequence(steps),
        steps.len() <= usize::MAX,
        stands(steps, s, here, around),
        is_under_way(s, around),
    ensures
        ({
            let bind = c.profile.binds[s.bind];
            let t = next(c, s, reply);
            let work = done_by(s, t);
            let before = owes(bind, s, here, around, rolled_by(asking(c, s), reply) + later);
            ||| is_lost(t)
            ||| t.todo == closing() && t.phase is Ready && work.len() == 0 && before == (Doing {
                work: seq![],
                gap: before.gap,
                rolls: later,
            }) && sends(asking(c, s), reply).len() == 0
            ||| stands(steps, t, place.0, place.1) && is_under_way(t, place.1) && t.bind == s.bind
                && before.work == work + owes(bind, t, place.0, place.1, later).work && before.rolls
                == owes(bind, t, place.0, place.1, later).rolls && sends(asking(c, s), reply)
                == script(work)
        }),
{
    let bind = c.profile.binds[s.bind];
    let t = next(c, s, reply);
    let roll = rolled_by(asking(c, s), reply);
    assert(roll.len() == 0 ==> roll + later =~= later);
    if !fits(asking(c, s), reply) {
        assert(s.todo.len() > s.todo.skip(1).len());
        (here, around)
    } else if s.todo[0] is Fetch {
        assert(s.todo =~= seq![Op::Fetch]);
        lemma_fetch(bind, steps, s, here, around, later)
    } else if s.todo[0] is Poll {
        if t.todo == s.todo.skip(1) {
            assert(t.todo =~= seq![Op::Fetch]);
            assert(t.todo.drop_last() =~= seq![]);
            lemma_before(
                Doing { work: t.todo.drop_last(), gap: s.wants_gap, rolls: later },
                doing_from(bind, here, around, s.wants_gap, later),
                doing_from(bind, here, around, s.wants_gap, later),
            );
        }
        (here, around)
    } else if s.todo[0] is Roll {
        let number = reply->Rolled_0;
        assert(roll == seq![number]);
        assert((roll + later)[0] == number);
        assert((roll + later).skip(1) =~= later);
        assert(t.todo =~= seq![Op::Fetch]);
        assert(t.todo.drop_last() =~= seq![]);
        let place = match around {
            Around::Chance(rest, outer) => if number < s.todo[0]->Roll_0 {
                (here, around)
            } else {
                let more = seq![StepModel::RngEnd] + (written(rest) + tail(*outer));
                lemma_skipped_program(steps, s.index, here, more, 1);
                let at = s.index + written(here).len();
                assert(steps.skip(at)[0] == steps[at]);
                assert(steps.skip(at + 1) =~= more.skip(1));
                assert(more.skip(1) =~= written(rest) + tail(*outer));
                (rest, *outer)
            },
            _ => (here, around),
        };
        lemma_before(
            Doing { work: t.todo.drop_last(), gap: s.wants_gap, rolls: later },
            doing_from(bind, place.0, place.1, s.wants_gap, later),
            doing_from(bind, place.0, place.1, s.wants_gap, later),
        );
        place
    } else {
        assert(at_steps(s));
        let rest = doing_from(bind, here, around, s.wants_gap, later);
        let shorter = s.todo.skip(1);
        assert(s.todo.len() > shorter.len());
        assert(shorter.drop_last() =~= s.todo.drop_last().skip(1));
        assert(shorter.last() == s.todo.last());
        assert(s.todo.drop_last() =~= s.todo.take(1) + shorter.drop_last());
        assert(s.todo.take(1) =~= seq![s.todo[0]]);
        lemma_script_one(s.todo[0]);
        if t.todo == shorter && !is_lost(t) {
            assert forall|i: int| 0 <= i < t.todo.len() - 1 implies (match #[trigger] t.todo[i] {
                Op::Down(_) | Op::Up(_) | Op::Pause(_) => true,
                _ => false,
            }) by {
                assert(t.todo[i] == s.todo[i + 1]);
            }
            assert(at_steps(t));
            assert(s.todo.drop_last() + rest.work =~= s.todo.take(1) + (shorter.drop_last()
                + rest.work));
        }
        (here, around)
    }
}

/// Whether the steps of an iteration are all done for the first time at the last of its replies.
pub open spec fn is_first_end(c: Context, s: State, replies: Seq<Reply>) -> bool {
    &&& play(c, s, replies).todo == closing()
    &&& forall|n: int|
        0 <= n < replies.len() ==> !((#[trigger] play(c, s, replies.take(n))).todo == closing())
}

pub proof fn lemma_iteration(
    c: Context,
    s: State,
    steps: Seq<StepModel>,
    here: Program,
    around: Around,
    replies: Seq<Reply>,
    later: Seq<u64>,
) -> (place: (Program, Around))
    requires
        c.profile.binds[s.bind].action == ActionModel::Sequence(steps),
        steps.len() <= usize::MAX,
        stands(steps, s, here, around),
        is_under_way(s, around),
        forall|n: int|
            0 <= n < replies.len() ==> !((#[trigger] play(c, s, replies.take(n))).todo
                == closing()),
    ensures
        ({
            let bind = c.profile.binds[s.bind];
            let t = play(c, s, replies);
            let work = done(c, s, replies);
            let all = owes(bind, s, here, around, rolled(c, s, replies) + later);
            let left = owes(bind, t, place.0, place.1, later);
            ||| is_lost(t)
            ||| t.todo == closing() && all.work == work && all.rolls == later && sent(c, s, replies)
                == script(work)
            ||| stands(steps, t, place.0, place.1) && is_under_way(t, place.1) && t.bind == s.bind
                && all.work == work + left.work && all.rolls == left.rolls && sent(c, s, replies)
                == script(work)
        }),
    decreases replies.len(),
{
    let bind = c.profile.binds[s.bind];
    if replies.len() == 0 {
        assert(rolled(c, s, replies) + later =~= later);
        let all = owes(bind, s, here, around, later);
        assert(done(c, s, replies) + all.work =~= all.work);
        assert(script(done(c, s, replies)) =~= seq![]);
        (here, around)
    } else {
        let most = replies.drop_last();
        let reply = replies.last();
        let mid = play(c, s, most);
        let t = play(c, s, replies);
        let roll = rolled_by(asking(c, mid), reply);
        assert forall|n: int| 0 <= n < most.len() implies !((#[trigger] play(
            c,
            s,
            most.take(n),
        )).todo == closing()) by {
            assert(most.take(n) =~= replies.take(n));
        }
        assert(replies.take(most.len() as int) =~= most);
        let place = lemma_iteration(c, s, steps, here, around, most, roll + later);
        assert(rolled(c, s, most) + (roll + later) =~= rolled(c, s, replies) + later);
        if is_lost(mid) {
            lemma_lost(c, mid, reply);
            place
        } else {
            let to = lemma_under_way(c, mid, steps, place.0, place.1, reply, later);
            let work = done_by(mid, t);
            let left = owes(bind, t, to.0, to.1, later);
            lemma_script_concat(done(c, s, most), work);
            if t.todo == closing() {
                assert(done(c, s, most) + work =~= done(c, s, most));
                assert(sent(c, s, replies) =~= sent(c, s, most));
            } else {
                assert(done(c, s, most) + (work + left.work) =~= done(c, s, replies) + left.work);
            }
            to
        }
    }
}

pub proof fn lemma_iteration_start(
    c: Context,
    s: State,
    remaining: int,
    first: Seq<Op>,
    program: Program,
    rolls: Seq<u64>,
)
    requires
        is_program(program),
        first.len() == 0 || first == seq![Op::Pause(c.profile.binds[s.bind].gap)],
    ensures
        ({
            let bind = c.profile.binds[s.bind];
            let start = iterating(bind, s, remaining, first);
            let said = doing(bind, program, false, rolls);
            &&& stands(written(program), start, program, Around::Nothing)
            &&& is_under_way(start, Around::Nothing)
            &&& owes(bind, start, program, Around::Nothing, rolls) == (Doing {
                work: first + said.work,
                ..said
            })
            &&& script(first + said.work) == script(said.work)
        }),
{
    let bind = c.profile.binds[s.bind];
    let steps = written(program);
    let start = iterating(bind, s, remaining, first);
    let said = doing(bind, program, false, rolls);
    assert(steps.skip(0) =~= steps);
    assert(written(program) + tail(Around::Nothing) =~= steps);
    assert(start.todo.drop_last() =~= first);
    assert(at_steps(start));
    assert(said.before(doing_around(bind, Around::Nothing, said.gap, said.rolls)) =~= said);
    lemma_script_concat(first, said.work);
    if first.len() > 0 {
        lemma_script_one(first[0]);
    }
    assert(script(first) =~= seq![]);
    assert(script(first) + script(said.work) =~= script(said.work));
}

/// An iteration does what its steps say: whatever is heard and rolled, once the steps are all done
/// the presses, releases and pauses were those of the program that the steps are written from, in
/// order, with each block of chance run where its roll was under the chance, each repeated block
/// run as often as it says, and nothing else sent. No roll was made that the program did not ask
/// for.
pub proof fn law_an_iteration_does_what_its_steps_say(
    c: Context,
    s: State,
    remaining: int,
    first: Seq<Op>,
    program: Program,
    replies: Seq<Reply>,
)
    requires
        is_program(program),
        c.profile.binds[s.bind].action == ActionModel::Sequence(written(program)),
        written(program).len() <= usize::MAX,
        first.len() == 0 || first == seq![Op::Pause(c.profile.binds[s.bind].gap)],
        is_first_end(c, iterating(c.profile.binds[s.bind], s, remaining, first), replies),
    ensures
        ({
            let bind = c.profile.binds[s.bind];
            let start = iterating(bind, s, remaining, first);
            let said = doing(bind, program, false, rolled(c, start, replies));
            &&& done(c, start, replies) == first + said.work
            &&& sent(c, start, replies) == script(said.work)
            &&& said.rolls.len() == 0
        }),
{
    let bind = c.profile.binds[s.bind];
    let start = iterating(bind, s, remaining, first);
    let rolls = rolled(c, start, replies);
    let none: Seq<u64> = seq![];
    lemma_iteration_start(c, s, remaining, first, program, rolls);
    lemma_iteration(c, start, written(program), program, Around::Nothing, replies, none);
    assert(rolls + none =~= rolls);
}

/// An iteration never strays from its steps: at every moment until they are all done, unless
/// something has put an end to the iteration, what was done is the beginning of what the program
/// says, whatever will still be rolled, and just its presses and releases were sent.
pub proof fn law_an_iteration_never_strays_from_its_steps(
    c: Context,
    s: State,
    remaining: int,
    first: Seq<Op>,
    program: Program,
    replies: Seq<Reply>,
    later: Seq<u64>,
)
    requires
        is_program(program),
        c.profile.binds[s.bind].action == ActionModel::Sequence(written(program)),
        written(program).len() <= usize::MAX,
        first.len() == 0 || first == seq![Op::Pause(c.profile.binds[s.bind].gap)],
        ({
            let start = iterating(c.profile.binds[s.bind], s, remaining, first);
            &&& !is_lost(play(c, start, replies))
            &&& forall|n: int|
                0 <= n < replies.len() ==> !((#[trigger] play(c, start, replies.take(n))).todo
                    == closing())
        }),
    ensures
        ({
            let bind = c.profile.binds[s.bind];
            let start = iterating(bind, s, remaining, first);
            let said = doing(bind, program, false, rolled(c, start, replies) + later);
            &&& done(c, start, replies).is_prefix_of(first + said.work)
            &&& sent(c, start, replies) == script(done(c, start, replies))
        }),
{
    let bind = c.profile.binds[s.bind];
    let start = iterating(bind, s, remaining, first);
    lemma_iteration_start(c, s, remaining, first, program, rolled(c, start, replies) + later);
    lemma_iteration(c, start, written(program), program, Around::Nothing, replies, later);
}

// ------------------------------------------------------------------------------- reading

/// The kinds of the blocks around a place, the innermost last.
pub open spec fn kinds(around: Around) -> Seq<Block>
    decreases around,
{
    match around {
        Around::Nothing => seq![],
        Around::Chance(_, outer) => kinds(*outer).push(Block::Chance),
        Around::Repeat(_, _, _, outer) => kinds(*outer).push(Block::Repeat),
    }
}

/// Whether the programs after the blocks around a place are written as programs.
pub open spec fn is_written_around(around: Around) -> bool
    decreases around,
{
    match around {
        Around::Nothing => true,
        Around::Chance(rest, outer) => is_program(rest) && is_written_around(*outer),
        Around::Repeat(_, _, rest, outer) => is_program(rest) && is_written_around(*outer),
    }
}

proof fn lemma_carried(steps: Seq<StepModel>, i: int)
    requires
        settles(steps),
        0 <= i <= steps.len(),
    ensures
        balance_after(steps.take(i)) is Some,
        i < steps.len() ==> balance_after(steps.take(i + 1)) == carried_by(
            balance_after(steps.take(i))->0,
            steps[i],
        ),
    decreases steps.len() - i,
{
    if i < steps.len() {
        lemma_carried(steps, i + 1);
        assert(steps.take(i + 1).drop_last() =~= steps.take(i));
        assert(steps.take(i + 1).last() == steps[i]);
    } else {
        assert(steps.take(i) =~= steps);
    }
}

proof fn lemma_reading(steps: Seq<StepModel>, i: int) -> (place: (Program, Around))
    requires
        settles(steps),
        0 <= i <= steps.len(),
    ensures
        is_program(place.0),
        is_written_around(place.1),
        steps.skip(i) == written(place.0) + tail(place.1),
        kinds(place.1) == balance_after(steps.take(i))->0.open,
    decreases steps.len() - i,
{
    lemma_carried(steps, i);
    if i == steps.len() {
        assert(steps.take(i) =~= steps);
        assert(steps.skip(i) =~= written(Program::End) + tail(Around::Nothing));
        (Program::End, Around::Nothing)
    } else {
        let open = balance_after(steps.take(i))->0.open;
        let (here, around) = lemma_reading(steps, i + 1);
        lemma_carried(steps, i + 1);
        assert(steps.skip(i) =~= seq![steps[i]] + steps.skip(i + 1));
        let place = match steps[i] {
            StepModel::Rng(chance) => match around {
                Around::Chance(rest, outer) => {
                    assert(kinds(*outer) =~= kinds(around).drop_last());
                    assert(open =~= open.push(Block::Chance).drop_last());
                    (Program::Chance(chance, Box::new(here), Box::new(rest)), *outer)
                },
                _ => {
                    assert(open.push(Block::Chance).last() is Chance);
                    (here, around)
                },
            },
            StepModel::Loop(times) => match around {
                Around::Repeat(_, _, rest, outer) => {
                    assert(kinds(*outer) =~= kinds(around).drop_last());
                    assert(open =~= open.push(Block::Repeat).drop_last());
                    (Program::Repeat(times, Box::new(here), Box::new(rest)), *outer)
                },
                _ => {
                    assert(open.push(Block::Repeat).last() is Repeat);
                    (here, around)
                },
            },
            StepModel::RngEnd => {
                assert(open =~= open.drop_last().push(open.last()));
                (Program::End, Around::Chance(here, Box::new(around)))
            },
            StepModel::LoopEnd => {
                assert(open =~= open.drop_last().push(open.last()));
                let lap = Lap { start: 0, left: 0 };
                (Program::End, Around::Repeat(Program::End, lap, here, Box::new(around)))
            },
            step => (Program::Act(step, Box::new(here)), around),
        };
        assert(steps.skip(i) =~= written(place.0) + tail(place.1));
        place
    }
}

/// A sequence whose blocks pair up is written from a program of nested blocks.
pub proof fn law_a_settled_sequence_is_a_program(steps: Seq<StepModel>)
    requires
        settles(steps),
    ensures
        exists|program: Program| is_program(program) && #[trigger] written(program) == steps,
{
    let place = lemma_reading(steps, 0);
    assert(steps.take(0).len() == 0);
    assert(steps.skip(0) =~= steps);
    assert(balance_after(steps.take(0)) == Some(Balance { held: seq![], open: seq![] }));
    assert(kinds(place.1).len() == 0);
    assert(place.1 is Nothing) by {
        match place.1 {
            Around::Nothing => {},
            Around::Chance(_, outer) => {
                assert(kinds(place.1) == kinds(*outer).push(Block::Chance));
            },
            Around::Repeat(_, _, _, outer) => {
                assert(kinds(place.1) == kinds(*outer).push(Block::Repeat));
            },
        }
    }
    assert(written(place.0) + tail(place.1) =~= written(place.0));
}

} // verus!
