//! When a photon trace stops: the control automaton of the ray-marching loop.
//!
//! A photon is advanced one step at a time. After each step its new position
//! is probed against the scene objects in the order in which they were added,
//! and the first object that covers it ends the trace. A photon that has used
//! up its step budget without a hit ends as exhausted. The numeric work (the
//! step itself, the coverage test) is the caller's; this module decides what
//! comes next.

use vstd::prelude::*;

verus! {

/// How a trace ended.
#[derive(Clone, Copy, Debug, PartialEq, Eq, Structural)]
pub enum TraceOutcome {
    /// The position reached by step number `steps` (counted from 1) is
    /// covered by object number `object`.
    Hit { steps: u32, object: usize },
    /// `steps` steps were taken and none of them ended inside an object.
    Exhausted { steps: u32 },
}

/// Where a trace stands.
#[derive(Clone, Copy, Debug, PartialEq, Eq, Structural)]
pub enum TraceState {
    /// `steps` steps were taken, none ended inside an object, and the budget
    /// allows another one.
    Traveling { steps: u32 },
    /// Step number `steps` was just taken; the objects before `object` do not
    /// cover the new position, and `object` is the next to be probed.
    Probing { steps: u32, object: usize },
    /// The trace is over.
    Done(TraceOutcome),
}

/// What the engine has to do next for the photon.
#[derive(Clone, Copy, Debug, PartialEq, Eq, Structural)]
pub enum TraceAction {
    /// Advance the photon by one step, then report with `stepped`.
    Step,
    /// Test the photon's position against the object of this number, then
    /// report with `probed`.
    Probe(usize),
    /// Stop: the trace ended this way.
    Finish(TraceOutcome),
}

/// The mathematical content of a [`Tracer`].
pub struct TraceModel {
    pub max_steps: u32,
    pub objects: usize,
    pub state: TraceState,
}

impl TraceModel {
    /// The counters of the state respect the step budget and the number of
    /// objects.
    pub open spec fn wf(self) -> bool {
        match self.state {
            TraceState::Traveling { steps } => steps < self.max_steps,
            TraceState::Probing { steps, object } => 1 <= steps <= self.max_steps && object
                < self.objects,
            TraceState::Done(TraceOutcome::Hit { steps, object }) => 1 <= steps <= self.max_steps
                && object < self.objects,
            TraceState::Done(TraceOutcome::Exhausted { steps }) => steps == self.max_steps,
        }
    }

    /// The state of a photon that took `steps` steps without a hit: still
    /// traveling while the budget lasts, exhausted once it is used up.
    pub open spec fn settled(self, steps: u32) -> TraceModel {
        TraceModel {
            state: if steps < self.max_steps {
                TraceState::Traveling { steps }
            } else {
                TraceState::Done(TraceOutcome::Exhausted { steps })
            },
            ..self
        }
    }

    /// A fresh trace with a budget of `max_steps` steps against `objects`
    /// scene objects.
    pub open spec fn start(max_steps: u32, objects: usize) -> TraceModel {
        TraceModel { max_steps, objects, state: TraceState::Traveling { steps: 0 } }.settled(0)
    }

    /// Number of steps taken so far.
    pub open spec fn steps_taken(self) -> u32 {
        match self.state {
            TraceState::Traveling { steps } => steps,
            TraceState::Probing { steps, .. } => steps,
            TraceState::Done(TraceOutcome::Hit { steps, .. }) => steps,
            TraceState::Done(TraceOutcome::Exhausted { steps }) => steps,
        }
    }

    /// What has to be done in this state.
    pub open spec fn action(self) -> TraceAction {
        match self.state {
            TraceState::Traveling { .. } => TraceAction::Step,
            TraceState::Probing { object, .. } => TraceAction::Probe(object),
            TraceState::Done(outcome) => TraceAction::Finish(outcome),
        }
    }

    /// The state after the photon was advanced by one step. Only a traveling
    /// photon steps; in any other state nothing changes.
    pub open spec fn after_step(self) -> TraceModel {
        match self.state {
            TraceState::Traveling { steps } => if steps >= self.max_steps {
                self
            } else if self.objects == 0 {
                self.settled((steps + 1) as u32)
            } else {
                TraceModel {
                    state: TraceState::Probing { steps: (steps + 1) as u32, object: 0 },
                    ..self
                }
            },
            _ => self,
        }
    }

    /// The state after the pending probe was answered: `covered` says whether
    /// the probed object covers the photon's position. Outside a probe nothing
    /// changes.
    pub open spec fn after_probe(self, covered: bool) -> TraceModel {
        match self.state {
            TraceState::Probing { steps, object } => if covered {
                TraceModel { state: TraceState::Done(TraceOutcome::Hit { steps, object }), ..self }
            } else if object + 1 < self.objects {
                TraceModel {
                    state: TraceState::Probing { steps, object: (object + 1) as usize },
                    ..self
                }
            } else {
                self.settled(steps)
            },
            _ => self,
        }
    }

    /// Steps that the budget still allows.
    pub open spec fn steps_left(self) -> int {
        self.max_steps - self.steps_taken()
    }

    /// Work that is left at the photon's current position.
    pub open spec fn probes_left(self) -> int {
        match self.state {
            TraceState::Traveling { .. } => 1,
            TraceState::Probing { object, .. } => 2 + self.objects - object,
            TraceState::Done(_) => 0,
        }
    }

    /// The outcome that the trace reaches from this state when `covers(k, j)`
    /// says whether object `j` covers the position that step number `k` leads
    /// to.
    pub open spec fn run(self, covers: spec_fn(u32, usize) -> bool) -> TraceOutcome
        decreases self.steps_left(), self.probes_left(),
        when self.wf()
    {
        match self.state {
            TraceState::Traveling { .. } => self.after_step().run(covers),
            TraceState::Probing { steps, object } => self.after_probe(covers(steps, object)).run(
                covers,
            ),
            TraceState::Done(outcome) => outcome,
        }
    }

    /// Whether, seen from this state, the probe of object `object` at the
    /// position after step number `steps` is still to come, should the trace
    /// get that far.
    pub open spec fn pending(self, steps: u32, object: usize) -> bool {
        &&& steps <= self.max_steps
        &&& object < self.objects
        &&& match self.state {
            TraceState::Traveling { steps: taken } => steps > taken,
            TraceState::Probing { steps: taken, object: next } => steps > taken || (steps == taken
                && object >= next),
            TraceState::Done(_) => false,
        }
    }

    /// Whether the probe `(k, j)` is made before the probe `(steps, object)`:
    /// at an earlier step, or at the same step on an object added earlier.
    pub open spec fn probed_before(k: u32, j: usize, steps: u32, object: usize) -> bool {
        k < steps || (k == steps && j < object)
    }

    /// Both transitions keep the counters within the budget and the number of
    /// objects; a step adds one to the steps taken when a step was due, and a
    /// probe never changes them.
    pub proof fn lemma_transitions(self, covered: bool)
        requires
            self.wf(),
        ensures
            self.after_step().wf(),
            self.after_probe(covered).wf(),
            self.after_step().max_steps == self.max_steps,
            self.after_step().objects == self.objects,
            self.after_probe(covered).max_steps == self.max_steps,
            self.after_probe(covered).objects == self.objects,
            self.action() == TraceAction::Step ==> self.after_step().steps_taken()
                == self.steps_taken() + 1,
            self.action() != TraceAction::Step ==> self.after_step() == self,
            self.after_probe(covered).steps_taken() == self.steps_taken(),
            !(self.action() is Probe) ==> self.after_probe(covered) == self,
    {
    }

    /// The outcome of a trace from any state, stated without the automaton:
    /// the trace ends with the first of the pending probes that succeeds, and
    /// it ends exhausted, after exactly `max_steps` steps, if none of them does.
    pub proof fn lemma_run(self, covers: spec_fn(u32, usize) -> bool)
        requires
            self.wf(),
            !(self.state is Done),
        ensures
            match self.run(covers) {
                TraceOutcome::Hit { steps, object } => {
                    &&& self.pending(steps, object)
                    &&& covers(steps, object)
                    &&& forall|k: u32, j: usize|
                        self.pending(k, j) && Self::probed_before(k, j, steps, object)
                            ==> !#[trigger] covers(k, j)
                },
                TraceOutcome::Exhausted { steps } => {
                    &&& steps == self.max_steps
                    &&& forall|k: u32, j: usize| self.pending(k, j) ==> !#[trigger] covers(k, j)
                },
            },
        decreases self.steps_left(), self.probes_left(),
    {
        let next = match self.state {
            TraceState::Probing { steps, object } => self.after_probe(covers(steps, object)),
            _ => self.after_step(),
        };
        self.lemma_transitions(true);
        self.lemma_transitions(false);
        assert(self.run(covers) == next.run(covers));
        match next.state {
            TraceState::Done(outcome) => {
                assert(next.run(covers) == outcome);
            },
            _ => {
                next.lemma_run(covers);
                assert forall|k: u32, j: usize| self.pending(k, j) implies next.pending(k, j) || (
                self.state is Probing && k == self.steps_taken() && j
                    == self.state->Probing_object) by {}
            },
        }
    }

    /// The outcome of a whole trace: a hit names the earliest step whose
    /// position some object covers and, of the objects covering it, the one
    /// added first; the trace ends exhausted if and only if no object covers
    /// the position after any of the `max_steps` steps, and then exactly
    /// `max_steps` steps were taken. The position before the first step is
    /// never probed.
    pub proof fn lemma_trace(max_steps: u32, objects: usize, covers: spec_fn(u32, usize) -> bool)
        ensures
            match Self::start(max_steps, objects).run(covers) {
                TraceOutcome::Hit { steps, object } => {
                    &&& 1 <= steps <= max_steps
                    &&& object < objects
                    &&& covers(steps, object)
                    &&& forall|j: usize| j < object ==> !#[trigger] covers(steps, j)
                    &&& forall|k: u32, j: usize|
                        1 <= k < steps && j < objects ==> !#[trigger] covers(k, j)
                },
                TraceOutcome::Exhausted { steps } => {
                    &&& steps == max_steps
                    &&& forall|k: u32, j: usize|
                        1 <= k <= max_steps && j < objects ==> !#[trigger] covers(k, j)
                },
            },
    {
        let start = Self::start(max_steps, objects);
        if max_steps > 0 {
            start.lemma_run(covers);
            match start.run(covers) {
                TraceOutcome::Hit { steps, object } => {
                    assert forall|j: usize| j < object implies !#[trigger] covers(steps, j) by {
                        assert(start.pending(steps, j));
                        assert(Self::probed_before(steps, j, steps, object));
                    }
                    assert forall|k: u32, j: usize| 1 <= k < steps && j < objects implies !#[trigger] covers(
                        k,
                        j,
                    ) by {
                        assert(start.pending(k, j));
                        assert(Self::probed_before(k, j, steps, object));
                    }
                },
                TraceOutcome::Exhausted { steps } => {
                    assert forall|k: u32, j: usize| 1 <= k <= max_steps && j < objects implies !#[trigger] covers(
                        k,
                        j,
                    ) by {
                        assert(start.pending(k, j));
                    }
                },
            }
        }
    }

    /// A photon whose path never enters an object ends exhausted, after
    /// exactly `max_steps` steps.
    pub proof fn lemma_never_covered(
        max_steps: u32,
        objects: usize,
        covers: spec_fn(u32, usize) -> bool,
    )
        requires
            forall|k: u32, j: usize| 1 <= k <= max_steps && j < objects ==> !#[trigger] covers(k, j),
        ensures
            Self::start(max_steps, objects).run(covers) == (TraceOutcome::Exhausted {
                steps: max_steps,
            }),
    {
        Self::lemma_trace(max_steps, objects, covers);
    }

    /// Hits are detected after stepping, not before: a trace with a budget of
    /// at least one step begins with a step whatever the photon's first
    /// position is, and if `object` is the first object to cover the position
    /// after that step, the trace ends there with that object.
    pub proof fn lemma_covered_after_first_step(
        max_steps: u32,
        objects: usize,
        covers: spec_fn(u32, usize) -> bool,
        object: usize,
    )
        requires
            max_steps >= 1,
            object < objects,
            covers(1, object),
            forall|j: usize| j < object ==> !#[trigger] covers(1, j),
        ensures
            Self::start(max_steps, objects).action() == TraceAction::Step,
            Self::start(max_steps, objects).run(covers) == (TraceOutcome::Hit { steps: 1, object }),
    {
        Self::lemma_trace(max_steps, objects, covers);
    }
}

/// The control automaton of one photon trace.
///
/// The engine asks for the next [`TraceAction`], performs it, and reports
/// back with `stepped` or `probed` until the action is `Finish`.
#[derive(Clone, Copy, Debug)]
pub struct Tracer {
    max_steps: u32,
    objects: usize,
    state: TraceState,
}

impl View for Tracer {
    type V = TraceModel;

    closed spec fn view(&self) -> TraceModel {
        TraceModel { max_steps: self.max_steps, objects: self.objects, state: self.state }
    }
}

impl Tracer {
    #[verifier::type_invariant]
    spec fn well_formed(self) -> bool {
        self@.wf()
    }

    /// Begins a trace with a budget of `max_steps` steps against `objects`
    /// scene objects.
    pub fn new(max_steps: u32, objects: usize) -> (tracer: Tracer)
        ensures
            tracer@ == TraceModel::start(max_steps, objects),
            tracer@.wf(),
    {
        let state = if max_steps > 0 {
            TraceState::Traveling { steps: 0 }
        } else {
            TraceState::Done(TraceOutcome::Exhausted { steps: 0 })
        };
        Tracer { max_steps, objects, state }
    }

    /// What the engine has to do next.
    pub fn action(&self) -> (action: TraceAction)
        ensures
            action == self@.action(),
            self@.wf(),
    {
        proof {
            use_type_invariant(self);
        }
        match self.state {
            TraceState::Traveling { .. } => TraceAction::Step,
            TraceState::Probing { object, .. } => TraceAction::Probe(object),
            TraceState::Done(outcome) => TraceAction::Finish(outcome),
        }
    }

    /// Reports that the photon was advanced by one step.
    pub fn stepped(&mut self)
        ensures
            final(self)@ == old(self)@.after_step(),
            final(self)@.wf(),
    {
        proof {
            use_type_invariant(&*self);
        }
        match self.state {
            TraceState::Traveling { steps } => {
                let taken: u32 = steps + 1;
                if self.objects > 0 {
                    self.state = TraceState::Probing { steps: taken, object: 0 };
                } else if taken < self.max_steps {
                    self.state = TraceState::Traveling { steps: taken };
                } else {
                    self.state = TraceState::Done(TraceOutcome::Exhausted { steps: taken });
                }
            },
            _ => {},
        }
    }

    /// Reports the answer to the pending probe: whether the probed object
    /// covers the photon's position.
    pub fn probed(&mut self, covered: bool)
        ensures
            final(self)@ == old(self)@.after_probe(covered),
            final(self)@.wf(),
    {
        proof {
            use_type_invariant(&*self);
        }
        match self.state {
            TraceState::Probing { steps, object } => {
                if covered {
                    self.state = TraceState::Done(TraceOutcome::Hit { steps, object });
                } else if object + 1 < self.objects {
                    self.state = TraceState::Probing { steps, object: object + 1 };
                } else if steps < self.max_steps {
                    self.state = TraceState::Traveling { steps };
                } else {
                    self.state = TraceState::Done(TraceOutcome::Exhausted { steps });
                }
            },
            _ => {},
        }
    }
}

} // verus!
