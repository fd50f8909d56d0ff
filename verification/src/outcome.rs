//! The result a scheduler reports after one simulation step.

use vstd::prelude::*;
use crate::process::{Process, ProcView};

verus! {

/// Model of a step's terminal event.
#[verifier::ext_equal]
pub ghost enum OutcomeView {
    /// The process ran its last CPU burst and leaves the simulation.
    Completed(ProcView),
    /// The process exhausted a round-robin quantum without finishing its
    /// burst; the caller decides where to re-queue it.
    QuantumExceeded(ProcView),
    /// The process stays where it is (re-queued or still waiting).
    NoEvent,
}

/// Model of a step's result: the time the processor spent idle before the
/// dispatch, the CPU time executed, and the terminal event.
#[verifier::ext_equal]
pub ghost struct StepView {
    pub cpu_time: u32,
    pub idle_time: u32,
    pub outcome: OutcomeView,
}

/// Terminal event of one scheduler step.
pub enum StepOutcome {
    Completed(Process),
    QuantumExceeded(Process),
    NoEvent,
}

impl View for StepOutcome {
    type V = OutcomeView;

    open spec fn view(&self) -> OutcomeView {
        match self {
            StepOutcome::Completed(p) => OutcomeView::Completed(p@),
            StepOutcome::QuantumExceeded(p) => OutcomeView::QuantumExceeded(p@),
            StepOutcome::NoEvent => OutcomeView::NoEvent,
        }
    }
}

/// The data a scheduler hands back after one step.
pub struct StepData {
    pub cpu_time: u32,
    pub idle_time: u32,
    pub outcome: StepOutcome,
}

impl View for StepData {
    type V = StepView;

    open spec fn view(&self) -> StepView {
        StepView { cpu_time: self.cpu_time, idle_time: self.idle_time, outcome: self.outcome@ }
    }
}

/// Remaining work carried out of a step by a quantum-exceeded process; a
/// completed process owes nothing and a re-queued one is still counted in
/// its scheduler.
pub open spec fn out_carried(o: OutcomeView) -> Seq<ProcView> {
    match o {
        OutcomeView::QuantumExceeded(p) => seq![p],
        _ => Seq::empty(),
    }
}

} // verus!
