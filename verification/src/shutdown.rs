//! The coordinated shutdown protocol.
//!
//! An operator termination event is observed at most once; the first trigger
//! produces the full ordered cascade of stop actions — signal the input
//! stage, then inject one `Stop` marker per inter-stage channel in pipeline
//! order — and any later trigger produces nothing.

use vstd::prelude::*;

verus! {

/// One step of the shutdown cascade, in pipeline order.
#[derive(Clone, Copy, PartialEq, Eq, Structural, Debug)]
pub enum StopAction {
    /// Close the input stage's dedicated one-shot control channel.
    SignalInput,
    /// Inject `Stop` into the fragment channel feeding the collector.
    StopCollector,
    /// Inject `Stop` into the session channel feeding the processor.
    StopProcessor,
    /// Inject `Stop` into the sample channel feeding the inference stage.
    StopInference,
    /// Inject `Stop` into the result channel feeding the output stage.
    StopOutput,
}

/// The shutdown coordinator: remembers whether the cascade already ran.
pub struct Coordinator {
    pub stopped: bool,
}

/// What one trigger produces: the full cascade the first time, nothing after.
pub open spec fn trigger_actions(c: Coordinator) -> Seq<StopAction> {
    if c.stopped {
        Seq::empty()
    } else {
        seq![
            StopAction::SignalInput,
            StopAction::StopCollector,
            StopAction::StopProcessor,
            StopAction::StopInference,
            StopAction::StopOutput,
        ]
    }
}

/// The coordinator state after a trigger.
pub open spec fn after_trigger(c: Coordinator) -> Coordinator {
    Coordinator { stopped: true }
}

impl Coordinator {
    /// A coordinator that has not yet seen a termination event.
    pub fn new() -> (c: Coordinator)
        ensures
            !c.stopped,
    {
        Coordinator { stopped: false }
    }

    /// Handles one operator termination trigger.
    ///
    /// The first trigger returns the five stop actions in pipeline order and
    /// latches the coordinator; every later trigger returns no actions.
    pub fn on_trigger(&mut self) -> (actions: Vec<StopAction>)
        ensures
            *final(self) == after_trigger(*old(self)),
            actions@ == trigger_actions(*old(self)),
    {
        if self.stopped {
            Vec::new()
        } else {
            self.stopped = true;
            let mut actions: Vec<StopAction> = Vec::new();
            actions.push(StopAction::SignalInput);
            actions.push(StopAction::StopCollector);
            actions.push(StopAction::StopProcessor);
            actions.push(StopAction::StopInference);
            actions.push(StopAction::StopOutput);
            proof {
                assert(actions@ =~= trigger_actions(*old(self)));
            }
            actions
        }
    }
}

/// Law: shutdown is idempotent. After one trigger the coordinator is
/// latched; a second trigger produces no actions and leaves the state as it
/// was, so no channel ever sees a second `Stop` injection from the
/// coordinator.
pub proof fn lemma_shutdown_idempotent(c: Coordinator)
    ensures
        trigger_actions(after_trigger(c)) == Seq::<StopAction>::empty(),
        after_trigger(after_trigger(c)) == after_trigger(c),
        !c.stopped ==> trigger_actions(c).len() == 5,
{
}

/// A source that yields at most one termination event per process lifetime.
///
/// The platform-specific trigger (an interrupt, a console key) lives outside
/// the library; whatever it does, this latch hands the coordinator at most
/// one event.
pub struct Signals {
    pub fired: bool,
}

impl Signals {
    /// A latch that has not fired yet.
    pub fn new() -> (s: Signals)
        ensures
            !s.fired,
    {
        Signals { fired: false }
    }

    /// Registers one raw trigger from the platform; true exactly on the
    /// first call, so at most one termination event is ever delivered.
    pub fn next_event(&mut self) -> (delivered: bool)
        ensures
            final(self).fired,
            delivered == !old(self).fired,
    {
        let first = !self.fired;
        self.fired = true;
        first
    }
}

} // verus!
