//! The scheduler as a machine: which flows have a trigger loop, and what
//! to start and to cancel when flows are enabled, changed or stopped.

use crate::strmap::{as_map, lemma_as_map_entry, lemma_insert_as_map, lemma_remove_as_map, StrMap};
use vstd::prelude::*;

verus! {

/// The state of the trigger loop of a flow.
#[derive(Clone, Copy, Debug, PartialEq, Eq, Structural)]
pub enum LoopState {
    /// The loop runs.
    Running,
    /// The loop was told to stop and has not ended yet. When it ends, a
    /// new loop follows if `restart` holds.
    Stopping { restart: bool },
}

/// What the driver has to do for a flow.
#[derive(Clone, Copy, Debug, PartialEq, Eq, Structural)]
pub enum LoopAction {
    /// Do nothing.
    Nothing,
    /// Start a trigger loop for the flow.
    Start,
    /// Cancel the trigger loop of the flow, and report its end with
    /// `loop_ended`.
    Cancel,
}

/// A flow gets or keeps a loop: a flow without a loop gets one if it is
/// enabled; a flow with a loop keeps what it has.
pub open spec fn spec_ensure(loops: Map<Seq<char>, LoopState>, flow: Seq<char>, enabled: bool) -> (
    Map<Seq<char>, LoopState>,
    LoopAction,
) {
    if !loops.dom().contains(flow) && enabled {
        (loops.insert(flow, LoopState::Running), LoopAction::Start)
    } else {
        (loops, LoopAction::Nothing)
    }
}

/// The loop of a flow is renewed: a running loop is cancelled, and a new
/// one follows its end if the flow is still enabled; a flow without a loop
/// gets one at once if it is enabled.
pub open spec fn spec_restart(loops: Map<Seq<char>, LoopState>, flow: Seq<char>, enabled: bool)
    -> (Map<Seq<char>, LoopState>, LoopAction) {
    if !loops.dom().contains(flow) {
        spec_ensure(loops, flow, enabled)
    } else {
        match loops[flow] {
            LoopState::Running => (
                loops.insert(flow, LoopState::Stopping { restart: enabled }),
                LoopAction::Cancel,
            ),
            LoopState::Stopping { restart } => (
                loops.insert(flow, LoopState::Stopping { restart: enabled }),
                LoopAction::Nothing,
            ),
        }
    }
}

/// The loop of a flow is stopped for good.
pub open spec fn spec_stop(loops: Map<Seq<char>, LoopState>, flow: Seq<char>) -> (
    Map<Seq<char>, LoopState>,
    LoopAction,
) {
    if !loops.dom().contains(flow) {
        (loops, LoopAction::Nothing)
    } else {
        spec_restart(loops, flow, false)
    }
}

/// The loop of a flow has ended: a loop that was to be renewed is
/// followed by a new one, any other is forgotten.
pub open spec fn spec_loop_ended(loops: Map<Seq<char>, LoopState>, flow: Seq<char>) -> (
    Map<Seq<char>, LoopState>,
    LoopAction,
) {
    if !loops.dom().contains(flow) {
        (loops, LoopAction::Nothing)
    } else {
        match loops[flow] {
            LoopState::Stopping { restart: true } => (
                loops.insert(flow, LoopState::Running),
                LoopAction::Start,
            ),
            _ => (loops.remove(flow), LoopAction::Nothing),
        }
    }
}

/// Which flows have a trigger loop.
pub struct Scheduler {
    loops: StrMap<LoopState>,
}

impl Scheduler {
    /// The state of the loop of every flow that has one.
    pub closed spec fn view(&self) -> Map<Seq<char>, LoopState> {
        as_map(self.loops.pairs())
    }

    /// A scheduler without loops.
    pub fn new() -> (s: Self)
        ensures
            s@ == Map::<Seq<char>, LoopState>::empty(),
    {
        let s = Scheduler { loops: StrMap::new() };
        assert(s@ =~= Map::<Seq<char>, LoopState>::empty());
        s
    }

    /// The state of the loop of a flow, if it has one.
    pub fn state_of(&self, flow: &str) -> (r: Option<LoopState>)
        ensures
            match r {
                Some(s) => self@.dom().contains(flow@) && self@[flow@] == s,
                None => !self@.dom().contains(flow@),
            },
    {
        match self.loops.get(flow) {
            Some(s) => Some(*s),
            None => None,
        }
    }

    /// Sets the state of the loop of a flow.
    fn set(&mut self, flow: &str, state: LoopState)
        ensures
            final(self)@ == old(self)@.insert(flow@, state),
    {
        proof {
            use_type_invariant(&self.loops);
            lemma_insert_as_map(self.loops.pairs(), flow@, state);
        }
        self.loops.insert(flow.to_owned(), state);
    }

    /// Makes sure that an enabled flow has a loop, as the start of the
    /// service does for every flow.
    pub fn ensure_flow(&mut self, flow: &str, enabled: bool) -> (action: LoopAction)
        ensures
            final(self)@ == spec_ensure(old(self)@, flow@, enabled).0,
            action == spec_ensure(old(self)@, flow@, enabled).1,
    {
        if enabled && self.state_of(flow).is_none() {
            self.set(flow, LoopState::Running);
            LoopAction::Start
        } else {
            LoopAction::Nothing
        }
    }

    /// Renews the loop of a flow that was changed.
    pub fn restart_flow(&mut self, flow: &str, enabled: bool) -> (action: LoopAction)
        ensures
            final(self)@ == spec_restart(old(self)@, flow@, enabled).0,
            action == spec_restart(old(self)@, flow@, enabled).1,
    {
        match self.state_of(flow) {
            None => self.ensure_flow(flow, enabled),
            Some(LoopState::Running) => {
                self.set(flow, LoopState::Stopping { restart: enabled });
                LoopAction::Cancel
            },
            Some(LoopState::Stopping { restart }) => {
                self.set(flow, LoopState::Stopping { restart: enabled });
                LoopAction::Nothing
            },
        }
    }

    /// Stops the loop of a flow for good.
    pub fn stop_flow(&mut self, flow: &str) -> (action: LoopAction)
        ensures
            final(self)@ == spec_stop(old(self)@, flow@).0,
            action == spec_stop(old(self)@, flow@).1,
    {
        match self.state_of(flow) {
            None => LoopAction::Nothing,
            Some(_) => self.restart_flow(flow, false),
        }
    }

    /// Reports that the loop of a flow has ended.
    pub fn loop_ended(&mut self, flow: &str) -> (action: LoopAction)
        ensures
            final(self)@ == spec_loop_ended(old(self)@, flow@).0,
            action == spec_loop_ended(old(self)@, flow@).1,
    {
        match self.loops.position(flow) {
            None => LoopAction::Nothing,
            Some(i) => {
                proof {
                    use_type_invariant(&self.loops);
                    lemma_as_map_entry(self.loops.pairs(), i as int);
                    lemma_remove_as_map(self.loops.pairs(), i as int);
                }
                match *self.loops.value_at(i) {
                    LoopState::Stopping { restart: true } => {
                        self.set(flow, LoopState::Running);
                        LoopAction::Start
                    },
                    _ => {
                        self.loops.remove_at(i);
                        LoopAction::Nothing
                    },
                }
            },
        }
    }
}

// ---------------------------------------------------------------------------
// At most one loop per flow
// ---------------------------------------------------------------------------

/// What can happen to the scheduler.
pub enum SchedulerEvent {
    Ensure(Seq<char>, bool),
    Restart(Seq<char>, bool),
    Stop(Seq<char>),
    LoopEnded(Seq<char>),
}

/// The flow that an event is about.
pub open spec fn flow_of(e: SchedulerEvent) -> Seq<char> {
    match e {
        SchedulerEvent::Ensure(f, _) => f,
        SchedulerEvent::Restart(f, _) => f,
        SchedulerEvent::Stop(f) => f,
        SchedulerEvent::LoopEnded(f) => f,
    }
}

/// The state after one event, and what the driver has to do.
pub open spec fn spec_scheduler_event(loops: Map<Seq<char>, LoopState>, e: SchedulerEvent) -> (
    Map<Seq<char>, LoopState>,
    LoopAction,
) {
    match e {
        SchedulerEvent::Ensure(f, enabled) => spec_ensure(loops, f, enabled),
        SchedulerEvent::Restart(f, enabled) => spec_restart(loops, f, enabled),
        SchedulerEvent::Stop(f) => spec_stop(loops, f),
        SchedulerEvent::LoopEnded(f) => spec_loop_ended(loops, f),
    }
}

/// The state after the events.
pub open spec fn spec_scheduler_run(events: Seq<SchedulerEvent>) -> Map<Seq<char>, LoopState>
    decreases events.len(),
{
    if events.len() == 0 {
        Map::empty()
    } else {
        spec_scheduler_event(spec_scheduler_run(events.drop_last()), events.last()).0
    }
}

/// The number of loops of `flow` that are alive after the events: every
/// start of a loop adds one, and every end of a loop takes one away (an
/// end that is reported while no loop is alive counts for nothing).
pub open spec fn alive(events: Seq<SchedulerEvent>, flow: Seq<char>) -> int
    decreases events.len(),
{
    if events.len() == 0 {
        0
    } else {
        let before = alive(events.drop_last(), flow);
        let action = spec_scheduler_event(
            spec_scheduler_run(events.drop_last()),
            events.last(),
        ).1;
        let ended: int = if events.last() is LoopEnded && before > 0 {
            1
        } else {
            0
        };
        let started: int = if action == LoopAction::Start {
            1
        } else {
            0
        };
        if flow_of(events.last()) == flow {
            before - ended + started
        } else {
            before
        }
    }
}

/// Whatever is asked of the scheduler, in whatever order, no flow ever has
/// more than one loop alive: a flow has one loop alive while the scheduler
/// holds a state for it, and none otherwise.
pub proof fn law_one_loop_per_flow(events: Seq<SchedulerEvent>, flow: Seq<char>)
    ensures
        alive(events, flow) == if spec_scheduler_run(events).dom().contains(flow) {
            1int
        } else {
            0int
        },
    decreases events.len(),
{
    if events.len() > 0 {
        law_one_loop_per_flow(events.drop_last(), flow);
    }
}

} // verus!
