//! First-come-first-serve scheduling: each step runs the process with the
//! earliest arrival time to the end of its next CPU burst.

use vstd::prelude::*;
use crate::process::{
    cpu_pairs, io_pairs,
    Process, ProcView, TIME_LIMIT, dispatch_of, idle_of, io_head, lemma_procs_rem_nonneg,
    lemma_procs_rem_remove, lemma_procs_rem_update, lemma_time_sum_nonneg, proc_inv, proc_live,
    proc_rem, procs_bounded, procs_cpu_count, procs_inv, procs_rem, run_full, sched_measure,
    time_sum, wait_of,
};
use crate::outcome::{OutcomeView, StepData, StepOutcome, StepView};

verus! {

/// Index the selection scan has chosen after looking at the first `n`
/// processes: the first one with the minimum arrival time among them.
pub open spec fn selected_in(s: Seq<ProcView>, n: int) -> int
    decreases n,
{
    if n <= 1 {
        0
    } else {
        let prev = selected_in(s, n - 1);
        if s[n - 1].next_arrival < s[prev].next_arrival {
            n - 1
        } else {
            prev
        }
    }
}

/// The process FCFS runs next: the first process holding the minimum
/// arrival time.  The tie-break — first in queue order wins — is a
/// deliberate, observable policy.
pub open spec fn fcfs_selected(s: Seq<ProcView>) -> int {
    selected_in(s, s.len() as int)
}

/// The selection scan picks, among the first `n` processes, one with a
/// minimal arrival time, and the first such.
pub proof fn lemma_selected_in_props(s: Seq<ProcView>, n: int)
    requires
        1 <= n <= s.len(),
    ensures
        0 <= selected_in(s, n) < n,
        forall|j: int| 0 <= j < n ==> (#[trigger] s[j]).next_arrival >= s[selected_in(s, n)].next_arrival,
        forall|j: int|
            0 <= j < selected_in(s, n) ==> (#[trigger] s[j]).next_arrival > s[selected_in(s, n)].next_arrival,
    decreases n,
{
    if n > 1 {
        lemma_selected_in_props(s, n - 1);
    }
}

/// FCFS selection is a stable, deterministic function of the arrival times
/// alone: two queues with pointwise-equal arrival times select the same
/// index.
pub proof fn lemma_selection_deterministic(s1: Seq<ProcView>, s2: Seq<ProcView>)
    requires
        s1.len() == s2.len(),
        forall|i: int| 0 <= i < s1.len() ==> (#[trigger] s1[i]).next_arrival == (#[trigger] s2[i]).next_arrival,
    ensures
        fcfs_selected(s1) == fcfs_selected(s2),
{
    lemma_selected_in_eq(s1, s2, s1.len() as int);
}

proof fn lemma_selected_in_eq(s1: Seq<ProcView>, s2: Seq<ProcView>, n: int)
    requires
        n <= s1.len() == s2.len(),
        forall|i: int| 0 <= i < s1.len() ==> (#[trigger] s1[i]).next_arrival == (#[trigger] s2[i]).next_arrival,
    ensures
        selected_in(s1, n) == selected_in(s2, n),
    decreases n,
{
    if n > 1 {
        lemma_selected_in_eq(s1, s2, n - 1);
        lemma_selected_in_props(s1, n - 1);
    }
}

/// The queue after one FCFS step: the selected process runs its whole front
/// CPU burst; it leaves the queue only when that was its last burst.
pub open spec fn fcfs_step_procs(s: Seq<ProcView>, now: u32) -> Seq<ProcView> {
    let i = fcfs_selected(s);
    let p2 = run_full(s[i], now);
    if p2.cpu.len() == 0 {
        s.remove(i)
    } else {
        s.update(i, p2)
    }
}

/// The result of one FCFS step.  FCFS has no quantum, so the outcome is
/// never a quantum-exceeded signal.
pub open spec fn fcfs_step_data(s: Seq<ProcView>, now: u32) -> StepView {
    let i = fcfs_selected(s);
    let p = s[i];
    let p2 = run_full(p, now);
    StepView {
        cpu_time: p.cpu[0],
        idle_time: idle_of(p, now) as u32,
        outcome: if p2.cpu.len() == 0 {
            OutcomeView::Completed(p2)
        } else {
            OutcomeView::NoEvent
        },
    }
}

/// An unordered collection of live processes; selection is computed fresh
/// at each step from the arrival times.
pub struct FirstComeFirstServe {
    pub processes: Vec<Process>,
}

impl View for FirstComeFirstServe {
    type V = Seq<ProcView>;

    open spec fn view(&self) -> Seq<ProcView> {
        self.processes@.map_values(|p: Process| p@)
    }
}

impl FirstComeFirstServe {
    /// Creates a new scheduler from a list of processes.
    pub fn from_processes(processes: Vec<Process>) -> (s: FirstComeFirstServe)
        ensures
            s@ == processes@.map_values(|p: Process| p@),
    {
        FirstComeFirstServe { processes }
    }

    pub fn is_empty(&self) -> (r: bool)
        ensures
            r == (self@.len() == 0),
    {
        self.processes.len() == 0
    }

    /// Finds the process with the lowest next arrival time; on ties the
    /// first in queue order wins.
    pub fn find_next_process(&self) -> (r: usize)
        requires
            self@.len() > 0,
        ensures
            r == fcfs_selected(self@),
            r < self@.len(),
    {
        let ghost s = self@;
        let mut chosen_index: usize = 0;
        let mut index: usize = 1;
        proof {
            lemma_selected_in_props(s, s.len() as int);
        }
        while index < self.processes.len()
            invariant
                self@ == s,
                s.len() == self.processes@.len(),
                self.processes@.len() >= 1,
                1 <= index,
                index <= self.processes@.len() || index == 1,
                chosen_index < self.processes@.len(),
                chosen_index == selected_in(s, index as int),
            decreases self.processes.len() - index,
        {
            if self.processes[index].next_arrival < self.processes[chosen_index].next_arrival {
                chosen_index = index;
            }
            index += 1;
            proof {
                assert(chosen_index == selected_in(s, index as int));
            }
        }
        chosen_index
    }


    /// The (process id, remaining I/O wait) pairs of the processes still
    /// waiting on I/O.
    pub fn io_remaining(&self, current_time: u32) -> (r: Vec<(u32, u32)>)
        ensures
            r@ == io_pairs(self@, current_time),
    {
        let mut result: Vec<(u32, u32)> = Vec::new();
        let mut index: usize = 0;
        while index < self.processes.len()
            invariant
                index <= self.processes@.len(),
                self@.len() == self.processes@.len(),
                result@ == io_pairs(self@.take(index as int), current_time),
            decreases self.processes@.len() - index,
        {
            let next_arrival = self.processes[index].next_arrival;
            if next_arrival > current_time {
                let id = self.processes[index].id;
                result.push((id, next_arrival - current_time));
            }
            index += 1;
            proof {
                assert(self@.take(index as int).drop_last() =~= self@.take(index as int - 1));
                assert(self@.take(index as int).last() == self@[index as int - 1]);
            }
        }
        proof {
            assert(self@.take(self@.len() as int) =~= self@);
        }
        result
    }

    /// The (process id, next CPU burst length) pairs of the processes ready
    /// to run.
    pub fn cpu_remaining(&self, current_time: u32) -> (r: Vec<(u32, u32)>)
        requires
            procs_inv(self@),
        ensures
            r@ == cpu_pairs(self@, current_time),
    {
        let mut result: Vec<(u32, u32)> = Vec::new();
        let mut index: usize = 0;
        while index < self.processes.len()
            invariant
                procs_inv(self@),
                index <= self.processes@.len(),
                self@.len() == self.processes@.len(),
                result@ == cpu_pairs(self@.take(index as int), current_time),
            decreases self.processes@.len() - index,
        {
            let next_arrival = self.processes[index].next_arrival;
            if next_arrival <= current_time {
                let id = self.processes[index].id;
                proof {
                    assert(proc_live(self@[index as int]));
                }
                let burst = self.processes[index].cpu_times[0];
                result.push((id, burst));
            }
            index += 1;
            proof {
                assert(self@.take(index as int).drop_last() =~= self@.take(index as int - 1));
                assert(self@.take(index as int).last() == self@[index as int - 1]);
            }
        }
        proof {
            assert(self@.take(self@.len() as int) =~= self@);
        }
        result
    }

    /// Steps the scheduler: selects the earliest-arriving process, idles
    /// until it arrives if necessary, and runs its whole front CPU burst.
    pub fn step(&mut self, now: u32) -> (r: StepData)
        requires
            old(self)@.len() > 0,
            procs_inv(old(self)@),
            procs_bounded(old(self)@, now, 0),
        ensures
            final(self)@ == fcfs_step_procs(old(self)@, now),
            r@ == fcfs_step_data(old(self)@, now),
            !(r@.outcome is QuantumExceeded),
    {
        let ghost s = old(self)@;
        let process_index = self.find_next_process();
        let ghost i = process_index as int;
        let ghost p0 = s[i];
        proof {
            assert(p0 == self.processes@[i]@);
            lemma_procs_rem_remove(s, i);
            lemma_procs_rem_nonneg(s.remove(i));
            lemma_time_sum_nonneg(p0.cpu.drop_first());
            lemma_time_sum_nonneg(p0.io);
            lemma_time_sum_nonneg(p0.cpu);
            if p0.io.len() > 0 {
                lemma_time_sum_nonneg(p0.io.drop_first());
            }
            assert(proc_rem(p0) + procs_rem(s.remove(i)) == procs_rem(s));
        }
        let mut process = self.processes.remove(process_index);
        proof {
            assert(self@ =~= s.remove(i));
        }

        let idle_time: u32;
        let waiting_time: u32;
        if process.next_arrival >= now {
            idle_time = process.next_arrival - now;
            waiting_time = 0;
        } else {
            idle_time = 0;
            waiting_time = now - process.next_arrival;
        }
        let dispatch = now + idle_time;
        proof {
            assert(dispatch == dispatch_of(p0, now));
            assert(waiting_time == wait_of(p0, now));
        }

        let cpu_time = process.cpu_times.remove(0);
        let io_time: u32 = if process.io_times.len() > 0 {
            process.io_times.remove(0)
        } else {
            0
        };
        proof {
            assert(process.cpu_times@ =~= p0.cpu.drop_first());
            assert(cpu_time == p0.cpu[0]);
            assert(io_time == io_head(p0));
            if p0.io.len() > 0 {
                assert(process.io_times@ =~= p0.io.drop_first());
            }
        }
        process.next_arrival = dispatch + cpu_time + io_time;
        process.waiting_time = process.waiting_time + waiting_time;
        process.turnaround_time = process.turnaround_time + cpu_time + io_time + waiting_time;
        if process.response_time.is_none() {
            process.response_time = Some(dispatch);
        }
        proof {
            assert(process@ =~= run_full(p0, now));
        }

        if process.cpu_times.len() == 0 {
            proof {
                assert(self@ =~= fcfs_step_procs(s, now));
            }
            StepData { cpu_time, idle_time, outcome: StepOutcome::Completed(process) }
        } else {
            let ghost p2 = process@;
            self.processes.insert(process_index, process);
            proof {
                assert(self@ =~= s.update(i, p2));
                assert(self@ =~= fcfs_step_procs(s, now));
            }
            StepData { cpu_time, idle_time, outcome: StepOutcome::NoEvent }
        }
    }
}

/// One FCFS step preserves the process invariants, keeps every computed
/// time under `TIME_LIMIT` even with `extra` units of remaining work held
/// by other schedulers, and strictly shrinks the termination measure.
pub proof fn lemma_fcfs_step_preserves(s: Seq<ProcView>, now: u32, extra: int)
    requires
        s.len() > 0,
        procs_inv(s),
        0 <= extra,
        procs_bounded(s, now, extra),
    ensures
        ({
            let procs2 = fcfs_step_procs(s, now);
            let d = fcfs_step_data(s, now);
            let now2 = now + d.idle_time + d.cpu_time;
            &&& now2 <= TIME_LIMIT
            &&& !(d.outcome is QuantumExceeded)
            &&& procs_inv(procs2)
            &&& procs_bounded(procs2, now2 as u32, extra)
            &&& sched_measure(procs2) < sched_measure(s)
            &&& procs_rem(procs2) <= procs_rem(s)
            &&& procs2.len() == s.len() - (if d.outcome is Completed { 1int } else { 0 })
            &&& match d.outcome {
                OutcomeView::Completed(p) => {
                    &&& p.cpu.len() == 0
                    &&& p.io.len() == 0
                    &&& p.turnaround == p.waiting + p.total
                    &&& (p.response matches Some(resp) && resp <= p.turnaround)
                    &&& p.id == s[fcfs_selected(s)].id
                },
                OutcomeView::QuantumExceeded(_) => false,
                OutcomeView::NoEvent => true,
            }
        }),
{
    let i = fcfs_selected(s);
    lemma_selected_in_props(s, s.len() as int);
    let p = s[i];
    lemma_procs_rem_remove(s, i);
    lemma_procs_rem_nonneg(s.remove(i));
    lemma_time_sum_nonneg(p.cpu);
    lemma_time_sum_nonneg(p.io);
    lemma_time_sum_nonneg(p.cpu.drop_first());
    if p.io.len() > 0 {
        lemma_time_sum_nonneg(p.io.drop_first());
    }
    assert(proc_rem(p) + procs_rem(s.remove(i)) == procs_rem(s));
    let d = dispatch_of(p, now);
    assert(p.next_arrival + procs_rem(s) + extra <= TIME_LIMIT);
    assert(d + procs_rem(s) + extra <= TIME_LIMIT);

    let c = p.cpu[0] as int;
    let io0 = io_head(p);
    let p2 = run_full(p, now);
    assert(time_sum(p.cpu.drop_first()) == time_sum(p.cpu) - c);
    assert(proc_rem(p2) == proc_rem(p) - c - io0);
    assert(c + io0 <= proc_rem(p));
    let now2 = now + idle_of(p, now) + c;
    assert(now2 == d + c);

    if p2.cpu.len() == 0 {
        // completion: the last CPU burst just ran, so no I/O remains
        assert(p.cpu.len() == 1);
        assert(p.io.len() == 0);
        assert(proc_rem(p2) == 0);
        assert(p2.turnaround == p2.waiting + p2.total);
        let procs2 = s.remove(i);
        assert(procs_rem(procs2) == procs_rem(s) - proc_rem(p));
        assert(procs_cpu_count(procs2) == procs_cpu_count(s) - 1);
        assert forall|j: int| 0 <= j < procs2.len() implies proc_inv(#[trigger] procs2[j])
            && proc_live(procs2[j]) && procs2[j].next_arrival + procs_rem(procs2) + extra
            <= TIME_LIMIT by {
            if j < i {
                assert(procs2[j] == s[j]);
            } else {
                assert(procs2[j] == s[j + 1]);
            }
        }
    } else {
        assert(proc_inv(p2));
        assert(proc_live(p2));
        let procs2 = s.update(i, p2);
        lemma_procs_rem_update(s, i, p2);
        assert(procs_rem(procs2) == procs_rem(s) - c - io0);
        assert(procs_cpu_count(procs2) == procs_cpu_count(s) - 1);
        assert forall|j: int| 0 <= j < procs2.len() implies proc_inv(#[trigger] procs2[j])
            && proc_live(procs2[j]) && procs2[j].next_arrival + procs_rem(procs2) + extra
            <= TIME_LIMIT by {
            if j == i {
                assert(procs2[j] == p2);
            } else {
                assert(procs2[j] == s[j]);
            }
        }
    }
}

} // verus!
