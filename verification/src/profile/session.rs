//! A whole run of one profile: listen, execute, and let go of everything on the way out.
use vstd::prelude::*;

use crate::input::Holdable;
use crate::runtime::Wake;

use super::model::Profile;
use super::run::{
    answers, asking, fits, handling, next, stop_signatures, well_placed, Context, Executor,
    Outcome, Phase, Reply, Request, Seams, State,
};

verus! {

/// How a run came to its end.
#[derive(Debug, Clone, Copy, PartialEq, Eq, Structural)]
pub enum Ending {
    /// With an outcome.
    Ended(Outcome),
    /// Because sending failed.
    SendFailed,
}

/// Where a run stands.
#[derive(Debug, Clone, Copy, PartialEq, Eq, Structural)]
pub enum Stage {
    /// Waiting for an event.
    Listening,
    /// Dealing with one.
    Executing,
    /// Releasing what is held, last pressed first.
    Draining(Ending),
    /// Delivering the releases.
    Flushing(Ending),
    /// Having the backend release whatever it still holds.
    Releasing(Ending),
    /// Over.
    Ended(Ending),
}

/// A run as a mathematical value.
#[verifier::ext_equal]
pub struct SessionState {
    pub stage: Stage,
    pub inner: State,
}

/// What a run asks for.
pub open spec fn session_asking(c: Context, s: SessionState) -> Request {
    match s.stage {
        Stage::Listening => Request::Wait(None),
        Stage::Executing => match s.inner.phase {
            Phase::Over(_) | Phase::Failed => Request::Continue,
            _ => asking(c, s.inner),
        },
        Stage::Draining(_) => if s.inner.held.len() == 0 {
            Request::Continue
        } else {
            Request::EmitQuiet(s.inner.held.last().released())
        },
        Stage::Flushing(_) => Request::FlushQuiet,
        Stage::Releasing(_) => Request::ReleaseAll,
        Stage::Ended(Ending::Ended(outcome)) => Request::Handled(Some(outcome)),
        Stage::Ended(Ending::SendFailed) => Request::Failed,
    }
}

/// The run after a reply to what was asked.
pub open spec fn session_next(c: Context, s: SessionState, reply: Reply) -> SessionState {
    if !fits(session_asking(c, s), reply) {
        s
    } else {
        match s.stage {
            Stage::Listening => match reply->Woke_0 {
                Wake::Event(event) => SessionState {
                    stage: Stage::Executing,
                    inner: handling(c, s.inner, event),
                },
                Wake::Deadline => s,
                Wake::Interrupted => SessionState {
                    stage: Stage::Draining(Ending::Ended(Outcome::SourceClosed)),
                    ..s
                },
            },
            Stage::Executing => match s.inner.phase {
                Phase::Over(None) => SessionState { stage: Stage::Listening, ..s },
                Phase::Over(Some(outcome)) => SessionState {
                    stage: Stage::Draining(Ending::Ended(outcome)),
                    ..s
                },
                Phase::Failed => SessionState {
                    stage: Stage::Draining(Ending::SendFailed),
                    ..s
                },
                _ => SessionState { inner: next(c, s.inner, reply), ..s },
            },
            Stage::Draining(ending) => if s.inner.held.len() == 0 {
                SessionState { stage: Stage::Flushing(ending), ..s }
            } else {
                SessionState { inner: State { held: s.inner.held.drop_last(), ..s.inner }, ..s }
            },
            Stage::Flushing(ending) => SessionState { stage: Stage::Releasing(ending), ..s },
            Stage::Releasing(ending) => SessionState { stage: Stage::Ended(ending), ..s },
            Stage::Ended(_) => s,
        }
    }
}

/// A run of one profile.
pub struct Session<'a> {
    stage: Stage,
    inner: Executor<'a>,
}

impl<'a> View for Session<'a> {
    type V = SessionState;

    closed spec fn view(&self) -> SessionState {
        SessionState { stage: self.stage, inner: self.inner@ }
    }
}

impl<'a> Session<'a> {
    /// What stays the same during the run.
    pub closed spec fn context(&self) -> Context {
        self.inner.context()
    }

    /// The bindings that the state names exist.
    pub open spec fn wf(&self) -> bool {
        well_placed(self.context(), self@.inner)
    }

    /// A run that is about to listen.
    pub fn new(profile: &'a Profile, seams: Seams) -> (r: Session<'a>)
        ensures
            r.wf(),
            r.context().profile == profile@,
            r.context().stops == stop_signatures(profile@.emergency_stop),
            r.context().seams == seams,
            r@.stage == Stage::Listening,
            r@.inner.held.len() == 0,
            !r@.inner.dead,
    {
        Session { stage: Stage::Listening, inner: Executor::new(profile, seams, Vec::new()) }
    }

    /// The targets that a lifted tap is to press.
    pub fn targets(&self) -> (r: &Vec<Holdable>)
        ensures
            r@ == self@.inner.kept,
    {
        self.inner.targets()
    }

    /// What is held down, in the order in which it was pressed.
    pub fn held(&self) -> (r: &Vec<Holdable>)
        ensures
            r@ == self@.inner.held,
    {
        self.inner.held()
    }

    /// What the run asks for.
    pub fn request(&self) -> (r: Request)
        requires
            self.wf(),
        ensures
            r == session_asking(self.context(), self@),
    {
        match self.stage {
            Stage::Listening => Request::Wait(None),
            Stage::Executing => match self.inner.request() {
                Request::Handled(_) | Request::Failed => Request::Continue,
                request => request,
            },
            Stage::Draining(_) => {
                let held = self.inner.held();
                if held.len() == 0 {
                    Request::Continue
                } else {
                    Request::EmitQuiet(held[held.len() - 1].up())
                }
            },
            Stage::Flushing(_) => Request::FlushQuiet,
            Stage::Releasing(_) => Request::ReleaseAll,
            Stage::Ended(Ending::Ended(outcome)) => Request::Handled(Some(outcome)),
            Stage::Ended(Ending::SendFailed) => Request::Failed,
        }
    }

    /// Takes in what came of the request; a reply that does not answer it changes nothing.
    pub fn advance(&mut self, reply: Reply)
        requires
            old(self).wf(),
        ensures
            final(self).wf(),
            final(self).context() == old(self).context(),
            final(self)@ == session_next(old(self).context(), old(self)@, reply),
    {
        if !answers(self.request(), reply) {
            return ;
        }
        match self.stage {
            Stage::Listening => {
                match reply {
                    Reply::Woke(Wake::Event(event)) => {
                        self.inner.handle(event);
                        self.stage = Stage::Executing;
                    },
                    Reply::Woke(Wake::Interrupted) => {
                        self.stage = Stage::Draining(Ending::Ended(Outcome::SourceClosed));
                    },
                    _ => {},
                }
            },
            Stage::Executing => {
                match self.inner.request() {
                    Request::Handled(None) => {
                        self.stage = Stage::Listening;
                    },
                    Request::Handled(Some(outcome)) => {
                        self.stage = Stage::Draining(Ending::Ended(outcome));
                    },
                    Request::Failed => {
                        self.stage = Stage::Draining(Ending::SendFailed);
                    },
                    _ => {
                        self.inner.advance(reply);
                    },
                }
            },
            Stage::Draining(ending) => {
                if self.inner.held().len() == 0 {
                    self.stage = Stage::Flushing(ending);
                } else {
                    self.inner.drop_held();
                }
            },
            Stage::Flushing(ending) => {
                self.stage = Stage::Releasing(ending);
            },
            Stage::Releasing(ending) => {
                self.stage = Stage::Ended(ending);
            },
            Stage::Ended(_) => {},
        }
    }
}

} // verus!
