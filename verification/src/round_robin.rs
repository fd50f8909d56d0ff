//! Round-robin scheduling: a FIFO queue of processes, each run for at most
//! one fixed time quantum per step.

use vstd::prelude::*;
use crate::process::{
    cpu_pairs, io_pairs,
    Process, ProcView, TIME_LIMIT, dispatch_of, idle_of, io_head, lemma_procs_rem_nonneg,
    lemma_procs_rem_push, lemma_time_sum_cons, lemma_time_sum_nonneg, proc_inv, proc_live,
    proc_rem, procs_bounded, procs_cpu_count, procs_inv, procs_rem, run_full, run_slice,
    sched_measure, time_sum, wait_of,
};
use crate::outcome::{OutcomeView, StepData, StepOutcome, StepView, out_carried};

verus! {

/// Model of a round-robin level: its queue, front first, and its quantum.
#[verifier::ext_equal]
pub ghost struct RrView {
    pub procs: Seq<ProcView>,
    pub quanta: u32,
}

/// Does the front process's burst fit within the quantum?
pub open spec fn rr_fits(v: RrView) -> bool {
    v.procs[0].cpu[0] <= v.quanta
}

/// The queue after one round-robin step: the head is dequeued; it re-enters
/// at the tail only when its burst fit within the quantum and more bursts
/// remain.  A completed or quantum-exceeded process leaves the queue.
pub open spec fn rr_step_procs(v: RrView, now: u32) -> Seq<ProcView> {
    if !rr_fits(v) {
        v.procs.drop_first()
    } else {
        let p2 = run_full(v.procs[0], now);
        if p2.cpu.len() == 0 {
            v.procs.drop_first()
        } else {
            v.procs.drop_first().push(p2)
        }
    }
}

/// The result of one round-robin step: a quantum-sized slice and a
/// quantum-exceeded signal when the burst is too long, otherwise the full
/// burst with completion reported when it was the last one.
pub open spec fn rr_step_data(v: RrView, now: u32) -> StepView {
    let p = v.procs[0];
    let idle = idle_of(p, now) as u32;
    if !rr_fits(v) {
        StepView {
            cpu_time: v.quanta,
            idle_time: idle,
            outcome: OutcomeView::QuantumExceeded(run_slice(p, now, v.quanta)),
        }
    } else {
        let p2 = run_full(p, now);
        StepView {
            cpu_time: p.cpu[0],
            idle_time: idle,
            outcome: if p2.cpu.len() == 0 {
                OutcomeView::Completed(p2)
            } else {
                OutcomeView::NoEvent
            },
        }
    }
}

/// A FIFO queue of live processes plus a fixed time quantum.
pub struct RoundRobin {
    pub processes: Vec<Process>,
    pub quanta: u32,
}

impl View for RoundRobin {
    type V = RrView;

    open spec fn view(&self) -> RrView {
        RrView { procs: self.processes@.map_values(|p: Process| p@), quanta: self.quanta }
    }
}

impl RoundRobin {
    /// Creates a new scheduler from a list of processes.
    pub fn from_processes(processes: Vec<Process>, quanta: u32) -> (s: RoundRobin)
        requires
            quanta >= 1,
        ensures
            s@.procs == processes@.map_values(|p: Process| p@),
            s@.quanta == quanta,
    {
        RoundRobin { processes, quanta }
    }

    pub fn is_empty(&self) -> (r: bool)
        ensures
            r == (self@.procs.len() == 0),
    {
        self.processes.len() == 0
    }

    /// True when every held process is still waiting on I/O at `now`, so the
    /// level has no runnable work.
    pub fn io_busy(&self, current_time: u32) -> (r: bool)
        ensures
            r == all_waiting(self@.procs, current_time),
    {
        let mut index: usize = 0;
        while index < self.processes.len()
            invariant
                0 <= index <= self.processes.len(),
                forall|j: int|
                    0 <= j < index ==> (#[trigger] self@.procs[j]).next_arrival > current_time,
            decreases self.processes.len() - index,
        {
            if self.processes[index].next_arrival <= current_time {
                proof {
                    assert(self@.procs[index as int].next_arrival <= current_time);
                }
                return false;
            }
            index += 1;
        }
        true
    }


    /// The (process id, remaining I/O wait) pairs of the processes still
    /// waiting on I/O.
    pub fn io_remaining(&self, current_time: u32) -> (r: Vec<(u32, u32)>)
        ensures
            r@ == io_pairs(self@.procs, current_time),
    {
        let mut result: Vec<(u32, u32)> = Vec::new();
        let mut index: usize = 0;
        while index < self.processes.len()
            invariant
                index <= self.processes@.len(),
                self@.procs.len() == self.processes@.len(),
                result@ == io_pairs(self@.procs.take(index as int), current_time),
            decreases self.processes@.len() - index,
        {
            let next_arrival = self.processes[index].next_arrival;
            if next_arrival > current_time {
                let id = self.processes[index].id;
                result.push((id, next_arrival - current_time));
            }
            index += 1;
            proof {
                assert(self@.procs.take(index as int).drop_last() =~= self@.procs.take(index as int - 1));
                assert(self@.procs.take(index as int).last() == self@.procs[index as int - 1]);
            }
        }
        proof {
            assert(self@.procs.take(self@.procs.len() as int) =~= self@.procs);
        }
        result
    }

    /// The (process id, next CPU burst length) pairs of the processes ready
    /// to run.
    pub fn cpu_remaining(&self, current_time: u32) -> (r: Vec<(u32, u32)>)
        requires
            procs_inv(self@.procs),
        ensures
            r@ == cpu_pairs(self@.procs, current_time),
    {
        let mut result: Vec<(u32, u32)> = Vec::new();
        let mut index: usize = 0;
        while index < self.processes.len()
            invariant
                procs_inv(self@.procs),
                index <= self.processes@.len(),
                self@.procs.len() == self.processes@.len(),
                result@ == cpu_pairs(self@.procs.take(index as int), current_time),
            decreases self.processes@.len() - index,
        {
            let next_arrival = self.processes[index].next_arrival;
            if next_arrival <= current_time {
                let id = self.processes[index].id;
                proof {
                    assert(proc_live(self@.procs[index as int]));
                }
                let burst = self.processes[index].cpu_times[0];
                result.push((id, burst));
            }
            index += 1;
            proof {
                assert(self@.procs.take(index as int).drop_last() =~= self@.procs.take(index as int - 1));
                assert(self@.procs.take(index as int).last() == self@.procs[index as int - 1]);
            }
        }
        proof {
            assert(self@.procs.take(self@.procs.len() as int) =~= self@.procs);
        }
        result
    }

    /// Steps the scheduler: dequeues the head process, idles until it
    /// arrives if necessary, and runs it for at most one quantum.
    pub fn step(&mut self, now: u32) -> (r: StepData)
        requires
            old(self)@.procs.len() > 0,
            old(self)@.quanta >= 1,
            procs_inv(old(self)@.procs),
            procs_bounded(old(self)@.procs, now, 0),
        ensures
            final(self)@.procs == rr_step_procs(old(self)@, now),
            final(self)@.quanta == old(self)@.quanta,
            r@ == rr_step_data(old(self)@, now),
            r.cpu_time <= old(self)@.quanta,
            old(self)@.procs[0].cpu[0] <= old(self)@.quanta ==> !(r@.outcome is QuantumExceeded),
    {
        let ghost v = old(self)@;
        let ghost p0 = v.procs[0];
        proof {
            assert(v.procs[0] == self.processes@[0]@);
            lemma_procs_rem_nonneg(v.procs.drop_first());
            lemma_time_sum_nonneg(p0.cpu.drop_first());
            lemma_time_sum_nonneg(p0.io);
            lemma_time_sum_nonneg(p0.cpu);
            if p0.io.len() > 0 {
                lemma_time_sum_nonneg(p0.io.drop_first());
            }
        }
        let mut process = self.processes.remove(0);
        proof {
            assert(self.processes@ =~= old(self).processes@.drop_first());
            assert(self@.procs =~= v.procs.drop_first());
            // the front burst and I/O are within the remaining work, so every
            // time computed below stays at or below TIME_LIMIT
            assert(proc_rem(p0) + procs_rem(v.procs.drop_first()) == procs_rem(v.procs));
        }

        let idle_time: u32;
        let waiting_time: u32;
        if process.next_arrival >= now {
            idle_time = process.next_arrival - now;
            waiting_time = 0;
        } else {
            idle_time = 0;
            waiting_time = now - process.next_arrival;
        }
        let dispatch = now + idle_time;
        proof {
            assert(dispatch == dispatch_of(p0, now));
            assert(waiting_time == wait_of(p0, now));
        }

        let cpu_time = process.cpu_times.remove(0);
        proof {
            assert(process.cpu_times@ =~= p0.cpu.drop_first());
            assert(cpu_time == p0.cpu[0]);
        }

        if cpu_time > self.quanta {
            // the burst exceeds the quantum: run a quantum-sized slice and
            // push the remainder back onto the front of the burst queue
            process.cpu_times.insert(0, cpu_time - self.quanta);
            proof {
                assert(process.cpu_times@ =~= seq![(p0.cpu[0] - v.quanta) as u32] + p0.cpu.drop_first());
            }
            let exec_time = self.quanta;
            process.next_arrival = dispatch + exec_time;
            process.waiting_time = process.waiting_time + waiting_time;
            process.turnaround_time = process.turnaround_time + exec_time + waiting_time;
            if process.response_time.is_none() {
                process.response_time = Some(dispatch);
            }
            proof {
                assert(process@ =~= run_slice(p0, now, v.quanta));
                assert(self@.procs =~= rr_step_procs(v, now));
            }
            StepData {
                cpu_time: exec_time,
                idle_time,
                outcome: StepOutcome::QuantumExceeded(process),
            }
        } else {
            // the burst fits: run it in full and consume the next I/O burst
            let io_time: u32 = if process.io_times.len() > 0 {
                let t = process.io_times.remove(0);
                proof {
                    assert(process.io_times@ =~= p0.io.drop_first());
                }
                t
            } else {
                0
            };
            proof {
                assert(io_time == io_head(p0));
            }
            process.next_arrival = dispatch + cpu_time + io_time;
            process.waiting_time = process.waiting_time + waiting_time;
            process.turnaround_time = process.turnaround_time + cpu_time + io_time + waiting_time;
            if process.response_time.is_none() {
                process.response_time = Some(dispatch);
            }
            proof {
                assert(process@ =~= run_full(p0, now));
            }
            if process.cpu_times.len() == 0 {
                proof {
                    assert(self@.procs =~= rr_step_procs(v, now));
                }
                StepData { cpu_time, idle_time, outcome: StepOutcome::Completed(process) }
            } else {
                let ghost p2 = process@;
                self.processes.push(process);
                proof {
                    assert(self@.procs =~= v.procs.drop_first().push(p2));
                    assert(self@.procs =~= rr_step_procs(v, now));
                }
                StepData { cpu_time, idle_time, outcome: StepOutcome::NoEvent }
            }
        }
    }
}

/// One round-robin step preserves the process invariants, keeps every
/// computed time under `TIME_LIMIT` even with `extra` units of remaining
/// work held by other schedulers, and strictly shrinks the termination
/// measure.  A completed process leaves with its books balanced: its
/// turnaround time is its waiting time plus every burst it was created
/// with, and its response time was set at its first dispatch.
pub proof fn lemma_rr_step_preserves(v: RrView, now: u32, extra: int)
    requires
        v.procs.len() > 0,
        v.quanta >= 1,
        procs_inv(v.procs),
        0 <= extra,
        procs_bounded(v.procs, now, extra),
    ensures
        ({
            let procs2 = rr_step_procs(v, now);
            let d = rr_step_data(v, now);
            let sys2 = procs2 + out_carried(d.outcome);
            let now2 = now + d.idle_time + d.cpu_time;
            &&& now2 <= TIME_LIMIT
            &&& procs_inv(sys2)
            &&& procs_bounded(sys2, now2 as u32, extra)
            &&& sched_measure(sys2) < sched_measure(v.procs)
            &&& procs_rem(sys2) <= procs_rem(v.procs)
            &&& sys2.len() == v.procs.len() - (if d.outcome is Completed { 1int } else { 0 })
            &&& match d.outcome {
                OutcomeView::Completed(p) => {
                    &&& p.cpu.len() == 0
                    &&& p.io.len() == 0
                    &&& p.turnaround == p.waiting + p.total
                    &&& (p.response matches Some(resp) && resp <= p.turnaround)
                    &&& p.id == v.procs[0].id
                },
                OutcomeView::QuantumExceeded(p) => proc_inv(p) && proc_live(p) && p.id
                    == v.procs[0].id,
                OutcomeView::NoEvent => true,
            }
        }),
{
    let s = v.procs;
    let p = s[0];
    let rest = s.drop_first();
    lemma_procs_rem_nonneg(rest);
    lemma_time_sum_nonneg(p.cpu);
    lemma_time_sum_nonneg(p.io);
    lemma_time_sum_nonneg(p.cpu.drop_first());
    if p.io.len() > 0 {
        lemma_time_sum_nonneg(p.io.drop_first());
    }
    assert(procs_rem(s) == proc_rem(p) + procs_rem(rest));
    assert(procs_cpu_count(s) == p.cpu.len() + procs_cpu_count(rest));
    let d = dispatch_of(p, now);
    assert(p.next_arrival + procs_rem(s) + extra <= TIME_LIMIT);
    assert(d + procs_rem(s) + extra <= TIME_LIMIT);
    assert forall|i: int| 0 <= i < rest.len() implies proc_inv(#[trigger] rest[i])
        && proc_live(rest[i]) && rest[i].next_arrival + procs_rem(s) + extra <= TIME_LIMIT by {
        assert(rest[i] == s[i + 1]);
        assert(s[i + 1].next_arrival + procs_rem(s) + extra <= TIME_LIMIT);
    }

    if !rr_fits(v) {
        // quantum exceeded: a slice of size quanta runs, the remainder of the
        // burst goes back to the front, and the process is handed out
        let q = v.quanta;
        let p2 = run_slice(p, now, q);
        let sys2 = rr_step_procs(v, now) + out_carried(rr_step_data(v, now).outcome);
        assert(sys2 =~= rest.push(p2));
        lemma_time_sum_cons((p.cpu[0] - q) as u32, p.cpu.drop_first());
        assert(proc_rem(p2) == proc_rem(p) - q);
        assert(proc_inv(p2));
        assert(proc_live(p2));
        lemma_procs_rem_push(rest, p2);
        assert(procs_rem(sys2) == procs_rem(s) - q);
        assert(procs_cpu_count(sys2) == procs_cpu_count(s));
        let now2 = now + idle_of(p, now) + q;
        assert(now2 == d + q);
        assert forall|i: int| 0 <= i < sys2.len() implies (#[trigger] sys2[i]).next_arrival
            + procs_rem(sys2) + extra <= TIME_LIMIT by {
            if i < rest.len() {
                assert(sys2[i] == rest[i]);
            } else {
                assert(sys2[i] == p2);
            }
        }
        assert forall|i: int| 0 <= i < sys2.len() implies proc_inv(#[trigger] sys2[i])
            && proc_live(sys2[i]) by {
            if i < rest.len() {
                assert(sys2[i] == rest[i]);
            } else {
                assert(sys2[i] == p2);
            }
        }
    } else {
        // the burst fits: it runs in full, one I/O burst is consumed
        let c = p.cpu[0] as int;
        let io0 = io_head(p);
        let p2 = run_full(p, now);
        assert(time_sum(p.cpu.drop_first()) == time_sum(p.cpu) - c);
        assert(proc_rem(p2) == proc_rem(p) - c - io0);
        let now2 = now + idle_of(p, now) + c;
        assert(now2 == d + c);
        assert(c + io0 <= proc_rem(p));
        if p2.cpu.len() == 0 {
            // completion: the last CPU burst just ran, so no I/O remains
            // and the remaining work is zero
            assert(p.cpu.len() == 1);
            assert(p.io.len() == 0);
            assert(proc_rem(p2) == 0);
            assert(p2.turnaround == p2.waiting + p2.total);
            let sys2 = rr_step_procs(v, now) + out_carried(rr_step_data(v, now).outcome);
            assert(sys2 =~= rest);
            assert(procs_rem(sys2) == procs_rem(s) - proc_rem(p));
            assert(procs_cpu_count(sys2) == procs_cpu_count(s) - 1);
            assert(procs_bounded(sys2, now2 as u32, extra));
        } else {
            assert(proc_inv(p2));
            assert(proc_live(p2));
            let sys2 = rr_step_procs(v, now) + out_carried(rr_step_data(v, now).outcome);
            assert(sys2 =~= rest.push(p2));
            lemma_procs_rem_push(rest, p2);
            assert(procs_rem(sys2) == procs_rem(s) - c - io0);
            assert(procs_cpu_count(sys2) == procs_cpu_count(s) - 1);
            assert forall|i: int| 0 <= i < sys2.len() implies (#[trigger] sys2[i]).next_arrival
                + procs_rem(sys2) + extra <= TIME_LIMIT by {
                if i < rest.len() {
                    assert(sys2[i] == rest[i]);
                } else {
                    assert(sys2[i] == p2);
                }
            }
            assert forall|i: int| 0 <= i < sys2.len() implies proc_inv(#[trigger] sys2[i])
                && proc_live(sys2[i]) by {
                if i < rest.len() {
                    assert(sys2[i] == rest[i]);
                } else {
                    assert(sys2[i] == p2);
                }
            }
        }
    }
}

/// All processes of the sequence are still waiting on I/O at `now`.
pub open spec fn all_waiting(s: Seq<ProcView>, now: u32) -> bool {
    forall|i: int| 0 <= i < s.len() ==> (#[trigger] s[i]).next_arrival > now
}

} // verus!
