//! The simulation driver: advances a single global clock, steps the active
//! scheduler once per iteration, folds completed processes into an
//! aggregate report, and halts when every queue is empty.
//!
//! The whole run is specified as a recursive function of the initial
//! process population alone, so the result of a simulation is completely
//! determined by its input: re-running the same fixture yields an
//! identical report.

use vstd::prelude::*;
use crate::process::{
    Process, ProcView, TIME_LIMIT, lemma_procs_rem_nonneg, proc_fresh, proc_inv, proc_live,
    procs_bounded, procs_inv, procs_rem, sched_measure,
};
use crate::outcome::{OutcomeView, StepOutcome, StepView};
use crate::fcfs::{FirstComeFirstServe, fcfs_step_data, fcfs_step_procs, lemma_fcfs_step_preserves};
use crate::mlfq::{
    MlfqView, MultiLevelFeedbackQueue, lemma_mlfq_step_preserves, mlfq_all, mlfq_step_result,
    mlfq_step_state, mlfq_wf,
};
use crate::round_robin::RrView;

verus! {

/// Model of one completed process's final metrics.
#[verifier::ext_equal]
pub ghost struct CompletionView {
    pub id: u32,
    pub turnaround: u32,
    pub waiting: u32,
    pub response: u32,
}

/// Model of the aggregate report of a run: the completion log in order,
/// the running metric totals, and the final clock value.
#[verifier::ext_equal]
pub ghost struct ReportView {
    pub completions: Seq<CompletionView>,
    pub total_turnaround: int,
    pub total_waiting: int,
    pub total_response: int,
    pub total_idle: int,
    pub total_elapsed: int,
}

/// An accumulator mid-run: the elapsed time is only filled in when the run
/// halts.
pub open spec fn folded(
    completions: Seq<CompletionView>,
    turnaround: int,
    waiting: int,
    response: int,
    idle: int,
) -> ReportView {
    ReportView {
        completions,
        total_turnaround: turnaround,
        total_waiting: waiting,
        total_response: response,
        total_idle: idle,
        total_elapsed: 0,
    }
}

pub open spec fn report_init() -> ReportView {
    folded(Seq::empty(), 0, 0, 0, 0)
}

/// Folds one step's result into the accumulator: idle time always counts;
/// a completion also appends its record and adds its metrics to the totals.
pub open spec fn report_fold(acc: ReportView, d: StepView) -> ReportView {
    match d.outcome {
        OutcomeView::Completed(p) => folded(
            acc.completions.push(
                CompletionView {
                    id: p.id,
                    turnaround: p.turnaround,
                    waiting: p.waiting,
                    response: p.response->0,
                },
            ),
            acc.total_turnaround + p.turnaround,
            acc.total_waiting + p.waiting,
            acc.total_response + p.response->0,
            acc.total_idle + d.idle_time,
        ),
        _ => folded(
            acc.completions,
            acc.total_turnaround,
            acc.total_waiting,
            acc.total_response,
            acc.total_idle + d.idle_time,
        ),
    }
}

/// Marks the halting accumulator with the final clock value.
pub open spec fn report_halt(acc: ReportView, now: u32) -> ReportView {
    ReportView {
        completions: acc.completions,
        total_turnaround: acc.total_turnaround,
        total_waiting: acc.total_waiting,
        total_response: acc.total_response,
        total_idle: acc.total_idle,
        total_elapsed: now as int,
    }
}

/// A population a run may start from: freshly constructed processes whose
/// total work and count fit under `TIME_LIMIT`.
pub open spec fn startable(s: Seq<ProcView>) -> bool {
    &&& forall|i: int| 0 <= i < s.len() ==> proc_fresh(#[trigger] s[i]) && proc_live(s[i])
    &&& procs_rem(s) <= TIME_LIMIT
    &&& s.len() <= TIME_LIMIT
}

pub proof fn lemma_startable(s: Seq<ProcView>)
    requires
        startable(s),
    ensures
        procs_inv(s),
        procs_bounded(s, 0, 0),
{
    lemma_procs_rem_nonneg(s);
    assert forall|i: int| 0 <= i < s.len() implies proc_inv(#[trigger] s[i]) && proc_live(s[i]) by {
        assert(proc_fresh(s[i]));
    }
}

/// The report of a whole FCFS run from state `s` at clock `now`.
pub open spec fn fcfs_run_spec(s: Seq<ProcView>, now: u32, acc: ReportView) -> ReportView
    decreases sched_measure(s),
        when procs_inv(s) && procs_bounded(s, now, 0)
{
    if s.len() == 0 {
        report_halt(acc, now)
    } else {
        proof {
            lemma_fcfs_step_preserves(s, now, 0);
            lemma_procs_rem_nonneg(fcfs_step_procs(s, now));
            lemma_procs_rem_nonneg(s);
        }
        let d = fcfs_step_data(s, now);
        fcfs_run_spec(
            fcfs_step_procs(s, now),
            (now + d.idle_time + d.cpu_time) as u32,
            report_fold(acc, d),
        )
    }
}

/// The report of a whole MLFQ run from state `m` at clock `now`.
pub open spec fn mlfq_run_spec(m: MlfqView, now: u32, acc: ReportView) -> ReportView
    decreases sched_measure(mlfq_all(m)),
        when mlfq_wf(m) && procs_inv(mlfq_all(m)) && procs_bounded(mlfq_all(m), now, 0)
{
    if mlfq_all(m).len() == 0 {
        report_halt(acc, now)
    } else {
        proof {
            lemma_mlfq_step_preserves(m, now);
            lemma_procs_rem_nonneg(mlfq_all(mlfq_step_state(m, now)));
            lemma_procs_rem_nonneg(mlfq_all(m));
        }
        let d = mlfq_step_result(m, now);
        mlfq_run_spec(
            mlfq_step_state(m, now),
            (now + d.idle_time + d.cpu_time) as u32,
            report_fold(acc, d),
        )
    }
}

/// The MLFQ state a run starts from: every process at level 1, quanta 5
/// and 10.
pub open spec fn mlfq_start(s: Seq<ProcView>) -> MlfqView {
    MlfqView {
        level_1: RrView { procs: s, quanta: 5 },
        level_2: RrView { procs: Seq::empty(), quanta: 10 },
        level_3: Seq::empty(),
    }
}

/// Final metrics of one completed process, in completion order.
#[derive(Clone, Copy, Debug, PartialEq, Eq, Structural)]
pub struct CompletionRecord {
    pub id: u32,
    pub turnaround_time: u32,
    pub waiting_time: u32,
    pub response_time: u32,
}

impl View for CompletionRecord {
    type V = CompletionView;

    open spec fn view(&self) -> CompletionView {
        CompletionView {
            id: self.id,
            turnaround: self.turnaround_time,
            waiting: self.waiting_time,
            response: self.response_time,
        }
    }
}

/// The aggregate result of a run.  Averages and the CPU utilization
/// percentage are ratios of these totals and are left to the caller.
pub struct SimulationReport {
    pub completions: Vec<CompletionRecord>,
    pub total_turnaround_time: u64,
    pub total_waiting_time: u64,
    pub total_response_time: u64,
    pub total_idle_time: u64,
    pub total_elapsed_time: u32,
}

impl View for SimulationReport {
    type V = ReportView;

    open spec fn view(&self) -> ReportView {
        ReportView {
            completions: self.completions@.map_values(|c: CompletionRecord| c@),
            total_turnaround: self.total_turnaround_time as int,
            total_waiting: self.total_waiting_time as int,
            total_response: self.total_response_time as int,
            total_idle: self.total_idle_time as int,
            total_elapsed: self.total_elapsed_time as int,
        }
    }
}

/// Runs a first-come-first-serve simulation to completion.  The report is
/// a function of the process population alone: identical populations give
/// bit-identical reports.
pub fn run_fcfs(processes: Vec<Process>) -> (r: SimulationReport)
    requires
        startable(processes@.map_values(|p: Process| p@)),
    ensures
        r@ == fcfs_run_spec(processes@.map_values(|p: Process| p@), 0, report_init()),
        r@.total_idle <= r@.total_elapsed,
{
    let ghost s0 = processes@.map_values(|p: Process| p@);
    proof {
        lemma_startable(s0);
    }
    let ghost n0 = s0.len();
    let mut scheduler = FirstComeFirstServe::from_processes(processes);
    let mut completions: Vec<CompletionRecord> = Vec::new();
    let mut total_turnaround_time: u64 = 0;
    let mut total_waiting_time: u64 = 0;
    let mut total_response_time: u64 = 0;
    let mut total_idle_time: u64 = 0;
    let mut now: u32 = 0;
    proof {
        assert(completions@.map_values(|c: CompletionRecord| c@) =~= Seq::<CompletionView>::empty());
        assert(folded(
            completions@.map_values(|c: CompletionRecord| c@),
            total_turnaround_time as int,
            total_waiting_time as int,
            total_response_time as int,
            total_idle_time as int,
        ) =~= report_init());
    }
    while !scheduler.is_empty()
        invariant
            procs_inv(scheduler@),
            procs_bounded(scheduler@, now, 0),
            completions@.len() + scheduler@.len() == n0,
            n0 <= TIME_LIMIT,
            total_turnaround_time <= completions@.len() * (TIME_LIMIT as int),
            total_waiting_time <= completions@.len() * (TIME_LIMIT as int),
            total_response_time <= completions@.len() * (TIME_LIMIT as int),
            total_idle_time <= now,
            fcfs_run_spec(s0, 0, report_init()) == fcfs_run_spec(
                scheduler@,
                now,
                folded(
                    completions@.map_values(|c: CompletionRecord| c@),
                    total_turnaround_time as int,
                    total_waiting_time as int,
                    total_response_time as int,
                    total_idle_time as int,
                ),
            ),
        decreases sched_measure(scheduler@),
    {
        let ghost s_pre = scheduler@;
        let ghost now_pre = now;
        let ghost acc_pre = folded(
            completions@.map_values(|c: CompletionRecord| c@),
            total_turnaround_time as int,
            total_waiting_time as int,
            total_response_time as int,
            total_idle_time as int,
        );
        proof {
            lemma_fcfs_step_preserves(s_pre, now, 0);
            lemma_procs_rem_nonneg(fcfs_step_procs(s_pre, now));
            assert((completions@.len() + 1) * (TIME_LIMIT as int) <= n0 * (TIME_LIMIT as int))
                by (nonlinear_arith)
                requires
                    completions@.len() + 1 <= n0,
            ;
            assert(n0 * (TIME_LIMIT as int) <= (TIME_LIMIT as int) * (TIME_LIMIT as int))
                by (nonlinear_arith)
                requires
                    0 <= n0 <= TIME_LIMIT as int,
            ;
        }
        let data = scheduler.step(now);
        match data.outcome {
            StepOutcome::Completed(process) => {
                let response_time = match process.response_time {
                    Some(t) => t,
                    None => 0,
                };
                completions.push(
                    CompletionRecord {
                        id: process.id,
                        turnaround_time: process.turnaround_time,
                        waiting_time: process.waiting_time,
                        response_time,
                    },
                );
                total_turnaround_time = total_turnaround_time + process.turnaround_time as u64;
                total_waiting_time = total_waiting_time + process.waiting_time as u64;
                total_response_time = total_response_time + response_time as u64;
            },
            StepOutcome::QuantumExceeded(_) => {
                // the scheduler's contract rules this outcome out
                proof {
                    assert(false);
                }
            },
            StepOutcome::NoEvent => {},
        }
        total_idle_time = total_idle_time + data.idle_time as u64;
        now = now + data.cpu_time + data.idle_time;
        proof {
            let acc_post = folded(
                completions@.map_values(|c: CompletionRecord| c@),
                total_turnaround_time as int,
                total_waiting_time as int,
                total_response_time as int,
                total_idle_time as int,
            );
            assert(report_fold(acc_pre, fcfs_step_data(s_pre, now_pre)) =~= acc_post);
            assert(fcfs_run_spec(s_pre, now_pre, acc_pre) == fcfs_run_spec(
                scheduler@,
                now,
                acc_post,
            ));
        }
    }
    let report = SimulationReport {
        completions,
        total_turnaround_time,
        total_waiting_time,
        total_response_time,
        total_idle_time,
        total_elapsed_time: now,
    };
    proof {
        assert(report@ =~= fcfs_run_spec(s0, 0, report_init()));
    }
    report
}

/// Runs a multi-level feedback queue simulation to completion.  The report
/// is a function of the process population alone: identical populations
/// give bit-identical reports.
pub fn run_mlfq(processes: Vec<Process>) -> (r: SimulationReport)
    requires
        startable(processes@.map_values(|p: Process| p@)),
    ensures
        r@ == mlfq_run_spec(mlfq_start(processes@.map_values(|p: Process| p@)), 0, report_init()),
        r@.total_idle <= r@.total_elapsed,
{
    let ghost s0 = processes@.map_values(|p: Process| p@);
    let ghost m0 = mlfq_start(s0);
    proof {
        lemma_startable(s0);
        assert(mlfq_all(m0) =~= s0);
    }
    let ghost n0 = s0.len();
    let mut scheduler = MultiLevelFeedbackQueue::from_processes(processes);
    proof {
        assert(scheduler@ =~= m0);
    }
    let mut completions: Vec<CompletionRecord> = Vec::new();
    let mut total_turnaround_time: u64 = 0;
    let mut total_waiting_time: u64 = 0;
    let mut total_response_time: u64 = 0;
    let mut total_idle_time: u64 = 0;
    let mut now: u32 = 0;
    proof {
        assert(completions@.map_values(|c: CompletionRecord| c@) =~= Seq::<CompletionView>::empty());
        assert(folded(
            completions@.map_values(|c: CompletionRecord| c@),
            total_turnaround_time as int,
            total_waiting_time as int,
            total_response_time as int,
            total_idle_time as int,
        ) =~= report_init());
    }
    while !scheduler.is_empty()
        invariant
            mlfq_wf(scheduler@),
            procs_inv(mlfq_all(scheduler@)),
            procs_bounded(mlfq_all(scheduler@), now, 0),
            completions@.len() + mlfq_all(scheduler@).len() == n0,
            n0 <= TIME_LIMIT,
            total_turnaround_time <= completions@.len() * (TIME_LIMIT as int),
            total_waiting_time <= completions@.len() * (TIME_LIMIT as int),
            total_response_time <= completions@.len() * (TIME_LIMIT as int),
            total_idle_time <= now,
            mlfq_run_spec(m0, 0, report_init()) == mlfq_run_spec(
                scheduler@,
                now,
                folded(
                    completions@.map_values(|c: CompletionRecord| c@),
                    total_turnaround_time as int,
                    total_waiting_time as int,
                    total_response_time as int,
                    total_idle_time as int,
                ),
            ),
        decreases sched_measure(mlfq_all(scheduler@)),
    {
        let ghost m_pre = scheduler@;
        let ghost now_pre = now;
        let ghost acc_pre = folded(
            completions@.map_values(|c: CompletionRecord| c@),
            total_turnaround_time as int,
            total_waiting_time as int,
            total_response_time as int,
            total_idle_time as int,
        );
        proof {
            lemma_mlfq_step_preserves(m_pre, now);
            lemma_procs_rem_nonneg(mlfq_all(mlfq_step_state(m_pre, now)));
            assert((completions@.len() + 1) * (TIME_LIMIT as int) <= n0 * (TIME_LIMIT as int))
                by (nonlinear_arith)
                requires
                    completions@.len() + 1 <= n0,
            ;
            assert(n0 * (TIME_LIMIT as int) <= (TIME_LIMIT as int) * (TIME_LIMIT as int))
                by (nonlinear_arith)
                requires
                    0 <= n0 <= TIME_LIMIT as int,
            ;
        }
        let data = scheduler.step(now);
        match data.outcome {
            StepOutcome::Completed(process) => {
                let response_time = match process.response_time {
                    Some(t) => t,
                    None => 0,
                };
                completions.push(
                    CompletionRecord {
                        id: process.id,
                        turnaround_time: process.turnaround_time,
                        waiting_time: process.waiting_time,
                        response_time,
                    },
                );
                total_turnaround_time = total_turnaround_time + process.turnaround_time as u64;
                total_waiting_time = total_waiting_time + process.waiting_time as u64;
                total_response_time = total_response_time + response_time as u64;
            },
            StepOutcome::QuantumExceeded(_) => {
                // the scheduler's contract rules this outcome out
                proof {
                    assert(false);
                }
            },
            StepOutcome::NoEvent => {},
        }
        total_idle_time = total_idle_time + data.idle_time as u64;
        now = now + data.cpu_time + data.idle_time;
        proof {
            let acc_post = folded(
                completions@.map_values(|c: CompletionRecord| c@),
                total_turnaround_time as int,
                total_waiting_time as int,
                total_response_time as int,
                total_idle_time as int,
            );
            assert(report_fold(acc_pre, mlfq_step_result(m_pre, now_pre)) =~= acc_post);
            assert(mlfq_run_spec(m_pre, now_pre, acc_pre) == mlfq_run_spec(
                scheduler@,
                now,
                acc_post,
            ));
        }
    }
    let report = SimulationReport {
        completions,
        total_turnaround_time,
        total_waiting_time,
        total_response_time,
        total_idle_time,
        total_elapsed_time: now,
    };
    proof {
        assert(report@ =~= mlfq_run_spec(m0, 0, report_init()));
    }
    report
}

} // verus!
