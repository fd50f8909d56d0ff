//! Multi-level feedback queue: two round-robin levels over one FCFS level,
//! with strict priority and quantum-expiry demotion.

use vstd::prelude::*;
use crate::process::{
    cpu_pairs, io_pairs, lemma_pairs_concat,
    Process, ProcView, TIME_LIMIT, lemma_procs_rem_concat, lemma_procs_rem_nonneg,
    lemma_procs_rem_push, proc_inv, proc_live, procs_bounded, procs_cpu_count, procs_inv,
    procs_rem, sched_measure,
};
use crate::outcome::{OutcomeView, StepData, StepOutcome, StepView, out_carried};
use crate::round_robin::{
    RoundRobin, RrView, all_waiting, lemma_rr_step_preserves, rr_step_data, rr_step_procs,
};
use crate::fcfs::{
    FirstComeFirstServe, fcfs_step_data, fcfs_step_procs, lemma_fcfs_step_preserves,
};

verus! {

/// Model of the three-level queue.
#[verifier::ext_equal]
pub ghost struct MlfqView {
    pub level_1: RrView,
    pub level_2: RrView,
    pub level_3: Seq<ProcView>,
}

/// Every process the queue holds, highest level first.
pub open spec fn mlfq_all(m: MlfqView) -> Seq<ProcView> {
    m.level_1.procs + m.level_2.procs + m.level_3
}

pub open spec fn mlfq_wf(m: MlfqView) -> bool {
    m.level_1.quanta >= 1 && m.level_2.quanta >= 1
}

/// A round-robin level is ready when it holds a process that is not
/// waiting on I/O.
pub open spec fn rr_ready(v: RrView, now: u32) -> bool {
    v.procs.len() > 0 && !all_waiting(v.procs, now)
}

/// The level that executes this step: the highest ready level; the FCFS
/// level whenever both round-robin levels are empty or blocked on I/O; and
/// the highest non-empty level when every level is blocked, so that the
/// clock can advance to the next arrival.
pub open spec fn mlfq_pick(m: MlfqView, now: u32) -> int {
    if rr_ready(m.level_1, now) {
        1
    } else if rr_ready(m.level_2, now) {
        2
    } else if m.level_3.len() > 0 {
        3
    } else if m.level_1.procs.len() > 0 {
        1
    } else {
        2
    }
}

/// The queue after one step.  A quantum-exceeded process is demoted: it
/// leaves its own level and joins the tail of the next lower one.  Demotion
/// is one-directional; no branch ever moves a process to a higher level.
pub open spec fn mlfq_step_state(m: MlfqView, now: u32) -> MlfqView {
    let lv = mlfq_pick(m, now);
    if lv == 1 {
        let procs1 = rr_step_procs(m.level_1, now);
        let d = rr_step_data(m.level_1, now);
        match d.outcome {
            OutcomeView::QuantumExceeded(p) => MlfqView {
                level_1: RrView { procs: procs1, quanta: m.level_1.quanta },
                level_2: RrView { procs: m.level_2.procs.push(p), quanta: m.level_2.quanta },
                level_3: m.level_3,
            },
            _ => MlfqView {
                level_1: RrView { procs: procs1, quanta: m.level_1.quanta },
                level_2: m.level_2,
                level_3: m.level_3,
            },
        }
    } else if lv == 2 {
        let procs2 = rr_step_procs(m.level_2, now);
        let d = rr_step_data(m.level_2, now);
        match d.outcome {
            OutcomeView::QuantumExceeded(p) => MlfqView {
                level_1: m.level_1,
                level_2: RrView { procs: procs2, quanta: m.level_2.quanta },
                level_3: m.level_3.push(p),
            },
            _ => MlfqView {
                level_1: m.level_1,
                level_2: RrView { procs: procs2, quanta: m.level_2.quanta },
                level_3: m.level_3,
            },
        }
    } else {
        MlfqView {
            level_1: m.level_1,
            level_2: m.level_2,
            level_3: fcfs_step_procs(m.level_3, now),
        }
    }
}

/// The result of one step.  A quantum-exceeded signal is absorbed by the
/// demotion, so the driver only ever sees a completion or no event.
pub open spec fn mlfq_step_result(m: MlfqView, now: u32) -> StepView {
    let lv = mlfq_pick(m, now);
    let d = if lv == 1 {
        rr_step_data(m.level_1, now)
    } else if lv == 2 {
        rr_step_data(m.level_2, now)
    } else {
        fcfs_step_data(m.level_3, now)
    };
    if d.outcome is QuantumExceeded {
        StepView { cpu_time: d.cpu_time, idle_time: d.idle_time, outcome: OutcomeView::NoEvent }
    } else {
        d
    }
}

/// Level 1 runs with a quantum of 5, level 2 with a quantum of 10, level 3
/// with no quantum at all.
pub struct MultiLevelFeedbackQueue {
    pub level_1: RoundRobin,
    pub level_2: RoundRobin,
    pub level_3: FirstComeFirstServe,
}

impl View for MultiLevelFeedbackQueue {
    type V = MlfqView;

    open spec fn view(&self) -> MlfqView {
        MlfqView { level_1: self.level_1@, level_2: self.level_2@, level_3: self.level_3@ }
    }
}

impl MultiLevelFeedbackQueue {
    /// Creates a new scheduler: every process starts at level 1.
    pub fn from_processes(processes: Vec<Process>) -> (s: MultiLevelFeedbackQueue)
        ensures
            s@.level_1.procs == processes@.map_values(|p: Process| p@),
            s@.level_1.quanta == 5,
            s@.level_2.procs == Seq::<ProcView>::empty(),
            s@.level_2.quanta == 10,
            s@.level_3 == Seq::<ProcView>::empty(),
            mlfq_wf(s@),
    {
        let s = MultiLevelFeedbackQueue {
            level_1: RoundRobin::from_processes(processes, 5),
            level_2: RoundRobin::from_processes(Vec::new(), 10),
            level_3: FirstComeFirstServe::from_processes(Vec::new()),
        };
        proof {
            assert(s@.level_2.procs =~= Seq::<ProcView>::empty());
            assert(s@.level_3 =~= Seq::<ProcView>::empty());
        }
        s
    }

    pub fn is_empty(&self) -> (r: bool)
        ensures
            r == (mlfq_all(self@).len() == 0),
    {
        self.level_1.is_empty() && self.level_2.is_empty() && self.level_3.is_empty()
    }


    /// The (process id, remaining I/O wait) pairs over every level,
    /// highest-priority level first.
    pub fn io_remaining(&self, current_time: u32) -> (r: Vec<(u32, u32)>)
        ensures
            r@ == io_pairs(mlfq_all(self@), current_time),
    {
        let mut result = self.level_1.io_remaining(current_time);
        let mut mid = self.level_2.io_remaining(current_time);
        let mut low = self.level_3.io_remaining(current_time);
        result.append(&mut mid);
        result.append(&mut low);
        proof {
            lemma_pairs_concat(self@.level_1.procs, self@.level_2.procs, current_time);
            lemma_pairs_concat(
                self@.level_1.procs + self@.level_2.procs,
                self@.level_3,
                current_time,
            );
            assert(result@ =~= io_pairs(mlfq_all(self@), current_time));
        }
        result
    }

    /// The (process id, next CPU burst length) pairs over every level,
    /// highest-priority level first.
    pub fn cpu_remaining(&self, current_time: u32) -> (r: Vec<(u32, u32)>)
        requires
            procs_inv(mlfq_all(self@)),
        ensures
            r@ == cpu_pairs(mlfq_all(self@), current_time),
    {
        proof {
            let all = mlfq_all(self@);
            let l1 = self@.level_1.procs;
            let l2 = self@.level_2.procs;
            let l3 = self@.level_3;
            assert forall|i: int| 0 <= i < l1.len() implies proc_inv(#[trigger] l1[i])
                && proc_live(l1[i]) by {
                assert(l1[i] == all[i]);
            }
            assert forall|i: int| 0 <= i < l2.len() implies proc_inv(#[trigger] l2[i])
                && proc_live(l2[i]) by {
                assert(l2[i] == all[l1.len() + i]);
            }
            assert forall|i: int| 0 <= i < l3.len() implies proc_inv(#[trigger] l3[i])
                && proc_live(l3[i]) by {
                assert(l3[i] == all[l1.len() + l2.len() + i]);
            }
        }
        let mut result = self.level_1.cpu_remaining(current_time);
        let mut mid = self.level_2.cpu_remaining(current_time);
        let mut low = self.level_3.cpu_remaining(current_time);
        result.append(&mut mid);
        result.append(&mut low);
        proof {
            lemma_pairs_concat(self@.level_1.procs, self@.level_2.procs, current_time);
            lemma_pairs_concat(
                self@.level_1.procs + self@.level_2.procs,
                self@.level_3,
                current_time,
            );
            assert(result@ =~= cpu_pairs(mlfq_all(self@), current_time));
        }
        result
    }

    /// Steps the highest eligible level and demotes a process that
    /// exhausted its quantum to the next lower level.
    pub fn step(&mut self, now: u32) -> (r: StepData)
        requires
            mlfq_all(old(self)@).len() > 0,
            mlfq_wf(old(self)@),
            procs_inv(mlfq_all(old(self)@)),
            procs_bounded(mlfq_all(old(self)@), now, 0),
        ensures
            final(self)@ == mlfq_step_state(old(self)@, now),
            r@ == mlfq_step_result(old(self)@, now),
            !(r@.outcome is QuantumExceeded),
    {
        let ghost m = old(self)@;
        let ghost l1 = m.level_1.procs;
        let ghost l2 = m.level_2.procs;
        let ghost l3 = m.level_3;
        proof {
            lemma_split_levels(m, now);
        }
        let level_1_ready = !self.level_1.is_empty() && !self.level_1.io_busy(now);
        let level_2_ready = !self.level_2.is_empty() && !self.level_2.io_busy(now);
        let level_3_has_work = !self.level_3.is_empty();
        if level_1_ready || (!level_2_ready && !level_3_has_work && !self.level_1.is_empty()) {
            proof {
                assert(mlfq_pick(m, now) == 1);
            }
            let data = self.level_1.step(now);
            match data.outcome {
                StepOutcome::QuantumExceeded(process) => {
                    let ghost p = process@;
                    self.level_2.processes.push(process);
                    proof {
                        assert(self.level_2@.procs =~= l2.push(p));
                        assert(self@ =~= mlfq_step_state(m, now));
                    }
                    StepData {
                        cpu_time: data.cpu_time,
                        idle_time: data.idle_time,
                        outcome: StepOutcome::NoEvent,
                    }
                },
                other => {
                    proof {
                        assert(self@ =~= mlfq_step_state(m, now));
                    }
                    StepData {
                        cpu_time: data.cpu_time,
                        idle_time: data.idle_time,
                        outcome: other,
                    }
                },
            }
        } else if level_2_ready || (!level_3_has_work && !self.level_2.is_empty()) {
            proof {
                assert(mlfq_pick(m, now) == 2);
            }
            let data = self.level_2.step(now);
            match data.outcome {
                StepOutcome::QuantumExceeded(process) => {
                    let ghost p = process@;
                    self.level_3.processes.push(process);
                    proof {
                        assert(self.level_3@ =~= l3.push(p));
                        assert(self@ =~= mlfq_step_state(m, now));
                    }
                    StepData {
                        cpu_time: data.cpu_time,
                        idle_time: data.idle_time,
                        outcome: StepOutcome::NoEvent,
                    }
                },
                other => {
                    proof {
                        assert(self@ =~= mlfq_step_state(m, now));
                    }
                    StepData {
                        cpu_time: data.cpu_time,
                        idle_time: data.idle_time,
                        outcome: other,
                    }
                },
            }
        } else {
            proof {
                assert(mlfq_pick(m, now) == 3);
            }
            let data = self.level_3.step(now);
            proof {
                assert(self@ =~= mlfq_step_state(m, now));
            }
            data
        }
    }
}

/// One MLFQ step preserves the global invariant and bound, strictly
/// shrinks the termination measure, and never hands a quantum-exceeded
/// signal to the driver.  A completed process leaves with its books
/// balanced exactly as in the single-level schedulers.
pub proof fn lemma_mlfq_step_preserves(m: MlfqView, now: u32)
    requires
        mlfq_all(m).len() > 0,
        mlfq_wf(m),
        procs_inv(mlfq_all(m)),
        procs_bounded(mlfq_all(m), now, 0),
    ensures
        ({
            let m2 = mlfq_step_state(m, now);
            let d = mlfq_step_result(m, now);
            let now2 = now + d.idle_time + d.cpu_time;
            &&& now2 <= TIME_LIMIT
            &&& mlfq_wf(m2)
            &&& !(d.outcome is QuantumExceeded)
            &&& procs_inv(mlfq_all(m2))
            &&& procs_bounded(mlfq_all(m2), now2 as u32, 0)
            &&& sched_measure(mlfq_all(m2)) < sched_measure(mlfq_all(m))
            &&& procs_rem(mlfq_all(m2)) <= procs_rem(mlfq_all(m))
            &&& mlfq_all(m2).len() == mlfq_all(m).len() - (
            if d.outcome is Completed {
                1int
            } else {
                0
            })
            &&& match d.outcome {
                OutcomeView::Completed(p) => {
                    &&& p.cpu.len() == 0
                    &&& p.io.len() == 0
                    &&& p.turnaround == p.waiting + p.total
                    &&& (p.response matches Some(resp) && resp <= p.turnaround)
                },
                OutcomeView::QuantumExceeded(_) => false,
                OutcomeView::NoEvent => true,
            }
        }),
{
    let l1 = m.level_1.procs;
    let l2 = m.level_2.procs;
    let l3 = m.level_3;
    let all = mlfq_all(m);
    let m2 = mlfq_step_state(m, now);
    let all2 = mlfq_all(m2);
    let lv = mlfq_pick(m, now);
    lemma_split_levels(m, now);
    if lv == 1 {
        let extra = procs_rem(l2) + procs_rem(l3);
        lemma_rr_step_preserves(m.level_1, now, extra);
        let procs1 = rr_step_procs(m.level_1, now);
        let din = rr_step_data(m.level_1, now);
        let sys2 = procs1 + out_carried(din.outcome);
        let now2 = now + din.idle_time + din.cpu_time;
        match din.outcome {
            OutcomeView::QuantumExceeded(p) => {
                assert(sys2 =~= procs1.push(p));
                lemma_procs_rem_push(l2, p);
                lemma_procs_rem_push(procs1, p);
                lemma_procs_rem_concat(procs1, l2.push(p));
                lemma_procs_rem_concat(procs1 + l2.push(p), l3);
                assert(all2 =~= procs1 + l2.push(p) + l3);
                assert(procs_rem(all2) == procs_rem(sys2) + extra);
                assert(procs_cpu_count(all2) == procs_cpu_count(sys2) + procs_cpu_count(l2)
                    + procs_cpu_count(l3));
                assert forall|k: int| 0 <= k < all2.len() implies proc_inv(#[trigger] all2[k])
                    && proc_live(all2[k]) && all2[k].next_arrival + procs_rem(all2)
                    <= TIME_LIMIT by {
                    if k < procs1.len() {
                        assert(all2[k] == sys2[k]);
                        assert(sys2[k].next_arrival + procs_rem(sys2) + extra <= TIME_LIMIT);
                    } else if k < procs1.len() + l2.len() {
                        assert(all2[k] == l2[k - procs1.len()]);
                        assert(l2[k - procs1.len()].next_arrival + procs_rem(all) <= TIME_LIMIT);
                    } else if k == procs1.len() + l2.len() {
                        assert(all2[k] == p);
                        assert(sys2[procs1.len() as int] == p);
                        assert(p.next_arrival + procs_rem(sys2) + extra <= TIME_LIMIT);
                    } else {
                        assert(all2[k] == l3[k - procs1.len() - l2.len() - 1]);
                    }
                }
            },
            _ => {
                assert(sys2 =~= procs1);
                lemma_procs_rem_concat(procs1, l2);
                lemma_procs_rem_concat(procs1 + l2, l3);
                assert(all2 =~= procs1 + l2 + l3);
                assert(procs_rem(all2) == procs_rem(sys2) + extra);
                assert forall|k: int| 0 <= k < all2.len() implies proc_inv(#[trigger] all2[k])
                    && proc_live(all2[k]) && all2[k].next_arrival + procs_rem(all2)
                    <= TIME_LIMIT by {
                    if k < procs1.len() {
                        assert(all2[k] == sys2[k]);
                        assert(sys2[k].next_arrival + procs_rem(sys2) + extra <= TIME_LIMIT);
                    } else if k < procs1.len() + l2.len() {
                        assert(all2[k] == l2[k - procs1.len()]);
                    } else {
                        assert(all2[k] == l3[k - procs1.len() - l2.len()]);
                    }
                }
            },
        }
    } else if lv == 2 {
        let extra = procs_rem(l1) + procs_rem(l3);
        lemma_rr_step_preserves(m.level_2, now, extra);
        let procs2 = rr_step_procs(m.level_2, now);
        let din = rr_step_data(m.level_2, now);
        let sys2 = procs2 + out_carried(din.outcome);
        match din.outcome {
            OutcomeView::QuantumExceeded(p) => {
                assert(sys2 =~= procs2.push(p));
                lemma_procs_rem_push(l3, p);
                lemma_procs_rem_push(procs2, p);
                lemma_procs_rem_concat(l1, procs2);
                lemma_procs_rem_concat(l1 + procs2, l3.push(p));
                assert(all2 =~= l1 + procs2 + l3.push(p));
                assert(procs_rem(all2) == procs_rem(sys2) + extra);
                assert forall|k: int| 0 <= k < all2.len() implies proc_inv(#[trigger] all2[k])
                    && proc_live(all2[k]) && all2[k].next_arrival + procs_rem(all2)
                    <= TIME_LIMIT by {
                    if k < l1.len() {
                        assert(all2[k] == l1[k]);
                    } else if k < l1.len() + procs2.len() {
                        assert(all2[k] == sys2[k - l1.len()]);
                        assert(sys2[k - l1.len()].next_arrival + procs_rem(sys2) + extra
                            <= TIME_LIMIT);
                    } else if k == all2.len() - 1 {
                        assert(all2[k] == p);
                        assert(sys2[procs2.len() as int] == p);
                        assert(p.next_arrival + procs_rem(sys2) + extra <= TIME_LIMIT);
                    } else {
                        assert(all2[k] == l3[k - l1.len() - procs2.len()]);
                    }
                }
            },
            _ => {
                assert(sys2 =~= procs2);
                lemma_procs_rem_concat(l1, procs2);
                lemma_procs_rem_concat(l1 + procs2, l3);
                assert(all2 =~= l1 + procs2 + l3);
                assert(procs_rem(all2) == procs_rem(sys2) + extra);
                assert forall|k: int| 0 <= k < all2.len() implies proc_inv(#[trigger] all2[k])
                    && proc_live(all2[k]) && all2[k].next_arrival + procs_rem(all2)
                    <= TIME_LIMIT by {
                    if k < l1.len() {
                        assert(all2[k] == l1[k]);
                    } else if k < l1.len() + procs2.len() {
                        assert(all2[k] == sys2[k - l1.len()]);
                        assert(sys2[k - l1.len()].next_arrival + procs_rem(sys2) + extra
                            <= TIME_LIMIT);
                    } else {
                        assert(all2[k] == l3[k - l1.len() - procs2.len()]);
                    }
                }
            },
        }
    } else {
        let extra = procs_rem(l1) + procs_rem(l2);
        lemma_fcfs_step_preserves(l3, now, extra);
        let procs3 = fcfs_step_procs(l3, now);
        lemma_procs_rem_concat(l1, l2);
        lemma_procs_rem_concat(l1 + l2, procs3);
        assert(all2 =~= l1 + l2 + procs3);
        assert(procs_rem(all2) == procs_rem(procs3) + extra);
        assert forall|k: int| 0 <= k < all2.len() implies proc_inv(#[trigger] all2[k])
            && proc_live(all2[k]) && all2[k].next_arrival + procs_rem(all2) <= TIME_LIMIT by {
            if k < l1.len() {
                assert(all2[k] == l1[k]);
            } else if k < l1.len() + l2.len() {
                assert(all2[k] == l2[k - l1.len()]);
            } else {
                assert(all2[k] == procs3[k - l1.len() - l2.len()]);
                assert(procs3[k - l1.len() - l2.len()].next_arrival + procs_rem(procs3) + extra
                    <= TIME_LIMIT);
            }
        }
    }
}

/// Is a process with this id present in the collection?
pub open spec fn holds_id(s: Seq<ProcView>, id: u32) -> bool {
    exists|i: int| 0 <= i < s.len() && (#[trigger] s[i]).id == id
}

/// Processes flow strictly downward.  After one step, level 1 holds only
/// processes it already held; level 2 holds only processes that came from
/// level 1 or 2; level 3 holds only processes that came from level 2 or 3.
/// No process is ever promoted, a demotion moves exactly one level down,
/// and with three levels a process is demoted at most twice before it
/// finishes at the bottom.
pub proof fn lemma_demotion_only(m: MlfqView, now: u32, id: u32)
    requires
        mlfq_all(m).len() > 0,
    ensures
        ({
            let m2 = mlfq_step_state(m, now);
            &&& holds_id(m2.level_1.procs, id) ==> holds_id(m.level_1.procs, id)
            &&& holds_id(m2.level_2.procs, id) ==> holds_id(m.level_1.procs, id) || holds_id(
                m.level_2.procs,
                id,
            )
            &&& holds_id(m2.level_3, id) ==> holds_id(m.level_2.procs, id) || holds_id(
                m.level_3,
                id,
            )
        }),
{
    let m2 = mlfq_step_state(m, now);
    let lv = mlfq_pick(m, now);
    if lv == 1 {
        if holds_id(m2.level_1.procs, id) {
            lemma_holds_rr_step(m.level_1, now, id);
        }
        if holds_id(m2.level_2.procs, id) {
            let d = rr_step_data(m.level_1, now);
            match d.outcome {
                OutcomeView::QuantumExceeded(p) => {
                    lemma_holds_push(m.level_2.procs, p, id);
                    if p.id == id {
                        assert(p.id == m.level_1.procs[0].id);
                        assert(holds_id(m.level_1.procs, id));
                    }
                },
                _ => {},
            }
        }
    } else if lv == 2 {
        if holds_id(m2.level_2.procs, id) {
            lemma_holds_rr_step(m.level_2, now, id);
        }
        if holds_id(m2.level_3, id) {
            let d = rr_step_data(m.level_2, now);
            match d.outcome {
                OutcomeView::QuantumExceeded(p) => {
                    lemma_holds_push(m.level_3, p, id);
                    if p.id == id {
                        assert(p.id == m.level_2.procs[0].id);
                        assert(holds_id(m.level_2.procs, id));
                    }
                },
                _ => {},
            }
        }
    } else {
        if holds_id(m2.level_3, id) {
            lemma_holds_fcfs_step(m.level_3, now, id);
        }
    }
}


/// No two processes of the collection share an id.
pub open spec fn distinct_ids(s: Seq<ProcView>) -> bool {
    forall|i: int, j: int|
        0 <= i < j < s.len() ==> (#[trigger] s[i]).id != (#[trigger] s[j]).id
}

/// The level a process occupies: 1, 2 or 3 while it is in the queue, 0
/// once it has completed and left.
pub open spec fn level_of(m: MlfqView, id: u32) -> int {
    if holds_id(m.level_1.procs, id) {
        1
    } else if holds_id(m.level_2.procs, id) {
        2
    } else {
        if holds_id(m.level_3, id) {
            3
        } else {
            0
        }
    }
}

/// With unique ids, one step never raises a process's level and lowers it
/// by at most one.  Levels stop at 3, and every process starts at level 1,
/// so over any run a process is demoted at most twice and never promoted.
pub proof fn lemma_level_monotone(m: MlfqView, now: u32, id: u32)
    requires
        mlfq_all(m).len() > 0,
        distinct_ids(mlfq_all(m)),
        level_of(mlfq_step_state(m, now), id) != 0,
    ensures
        level_of(m, id) != 0,
        level_of(m, id) <= level_of(mlfq_step_state(m, now), id),
        level_of(mlfq_step_state(m, now), id) <= level_of(m, id) + 1,
{
    lemma_demotion_only(m, now, id);
    lemma_unique_levels(m, id);
}

/// With unique ids across the whole queue, a process occupies at most one
/// level.
proof fn lemma_unique_levels(m: MlfqView, id: u32)
    requires
        distinct_ids(mlfq_all(m)),
    ensures
        !(holds_id(m.level_1.procs, id) && holds_id(m.level_2.procs, id)),
        !(holds_id(m.level_1.procs, id) && holds_id(m.level_3, id)),
        !(holds_id(m.level_2.procs, id) && holds_id(m.level_3, id)),
{
    let l1 = m.level_1.procs;
    let l2 = m.level_2.procs;
    let l3 = m.level_3;
    let all = mlfq_all(m);
    if holds_id(l1, id) && holds_id(l2, id) {
        let i = choose|i: int| 0 <= i < l1.len() && (#[trigger] l1[i]).id == id;
        let j = choose|j: int| 0 <= j < l2.len() && (#[trigger] l2[j]).id == id;
        assert(all[i] == l1[i]);
        assert(all[l1.len() + j] == l2[j]);
    }
    if holds_id(l1, id) && holds_id(l3, id) {
        let i = choose|i: int| 0 <= i < l1.len() && (#[trigger] l1[i]).id == id;
        let j = choose|j: int| 0 <= j < l3.len() && (#[trigger] l3[j]).id == id;
        assert(all[i] == l1[i]);
        assert(all[l1.len() + l2.len() + j] == l3[j]);
    }
    if holds_id(l2, id) && holds_id(l3, id) {
        let i = choose|i: int| 0 <= i < l2.len() && (#[trigger] l2[i]).id == id;
        let j = choose|j: int| 0 <= j < l3.len() && (#[trigger] l3[j]).id == id;
        assert(all[l1.len() + i] == l2[i]);
        assert(all[l1.len() + l2.len() + j] == l3[j]);
    }
}

/// A member of the queue after a round-robin step was a member before it.
proof fn lemma_holds_rr_step(v: RrView, now: u32, id: u32)
    requires
        v.procs.len() > 0,
        holds_id(rr_step_procs(v, now), id),
    ensures
        holds_id(v.procs, id),
{
    let s = v.procs;
    let s2 = rr_step_procs(v, now);
    let i = choose|i: int| 0 <= i < s2.len() && (#[trigger] s2[i]).id == id;
    if i < s.len() - 1 {
        assert(s2[i] == s[i + 1]);
        assert((#[trigger] s[i + 1]).id == id);
    } else {
        assert(s2[i].id == s[0].id);
        assert((#[trigger] s[0]).id == id);
    }
}

/// A member of the queue after an FCFS step was a member before it.
proof fn lemma_holds_fcfs_step(s: Seq<ProcView>, now: u32, id: u32)
    requires
        s.len() > 0,
        holds_id(fcfs_step_procs(s, now), id),
    ensures
        holds_id(s, id),
{
    let k = crate::fcfs::fcfs_selected(s);
    crate::fcfs::lemma_selected_in_props(s, s.len() as int);
    let s2 = fcfs_step_procs(s, now);
    let i = choose|i: int| 0 <= i < s2.len() && (#[trigger] s2[i]).id == id;
    let p2 = crate::process::run_full(s[k], now);
    if p2.cpu.len() == 0 {
        if i < k {
            assert((#[trigger] s[i]).id == id);
        } else {
            assert(s2[i] == s[i + 1]);
            assert((#[trigger] s[i + 1]).id == id);
        }
    } else {
        if i == k {
            assert(s2[i] == p2);
            assert((#[trigger] s[k]).id == id);
        } else {
            assert((#[trigger] s[i]).id == id);
        }
    }
}

/// A member of a queue after a push was a member before, or is the pushed
/// process itself.
proof fn lemma_holds_push(s: Seq<ProcView>, p: ProcView, id: u32)
    requires
        holds_id(s.push(p), id),
    ensures
        holds_id(s, id) || p.id == id,
{
    let i = choose|i: int| 0 <= i < s.push(p).len() && (#[trigger] s.push(p)[i]).id == id;
    if i < s.len() {
        assert((#[trigger] s[i]).id == id);
    }
}

/// The global invariant and bound restrict each level on its own, with the
/// other levels' remaining work as the slack.
proof fn lemma_split_levels(m: MlfqView, now: u32)
    requires
        procs_inv(mlfq_all(m)),
        procs_bounded(mlfq_all(m), now, 0),
    ensures
        procs_rem(mlfq_all(m)) == procs_rem(m.level_1.procs) + procs_rem(m.level_2.procs)
            + procs_rem(m.level_3),
        procs_cpu_count(mlfq_all(m)) == procs_cpu_count(m.level_1.procs)
            + procs_cpu_count(m.level_2.procs) + procs_cpu_count(m.level_3),
        procs_rem(m.level_1.procs) >= 0,
        procs_rem(m.level_2.procs) >= 0,
        procs_rem(m.level_3) >= 0,
        procs_inv(m.level_1.procs),
        procs_inv(m.level_2.procs),
        procs_inv(m.level_3),
        procs_bounded(m.level_1.procs, now, procs_rem(m.level_2.procs) + procs_rem(m.level_3)),
        procs_bounded(m.level_2.procs, now, procs_rem(m.level_1.procs) + procs_rem(m.level_3)),
        procs_bounded(m.level_3, now, procs_rem(m.level_1.procs) + procs_rem(m.level_2.procs)),
        procs_bounded(m.level_1.procs, now, 0),
        procs_bounded(m.level_2.procs, now, 0),
        procs_bounded(m.level_3, now, 0),
{
    let l1 = m.level_1.procs;
    let l2 = m.level_2.procs;
    let l3 = m.level_3;
    let all = mlfq_all(m);
    lemma_procs_rem_concat(l1, l2);
    lemma_procs_rem_concat(l1 + l2, l3);
    lemma_procs_rem_nonneg(l1);
    lemma_procs_rem_nonneg(l2);
    lemma_procs_rem_nonneg(l3);
    assert forall|i: int| 0 <= i < l1.len() implies proc_inv(#[trigger] l1[i]) && proc_live(l1[i])
        && l1[i].next_arrival + procs_rem(all) <= TIME_LIMIT by {
        assert(l1[i] == all[i]);
    }
    assert forall|i: int| 0 <= i < l2.len() implies proc_inv(#[trigger] l2[i]) && proc_live(l2[i])
        && l2[i].next_arrival + procs_rem(all) <= TIME_LIMIT by {
        assert(l2[i] == all[l1.len() + i]);
    }
    assert forall|i: int| 0 <= i < l3.len() implies proc_inv(#[trigger] l3[i]) && proc_live(l3[i])
        && l3[i].next_arrival + procs_rem(all) <= TIME_LIMIT by {
        assert(l3[i] == all[l1.len() + l2.len() + i]);
    }
}

} // verus!
