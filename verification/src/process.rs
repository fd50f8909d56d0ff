//! The simulated process: its burst queues, its accumulated metrics, and the
//! mathematical model (`ProcView`) that every scheduler contract speaks of.

use vstd::prelude::*;

verus! {

/// Every simulated-time quantity (clock, arrival time, metric accumulator)
/// stays at or below this bound; the schedulers' contracts require that the
/// total remaining work fits under it, which rules out arithmetic overflow.
pub const TIME_LIMIT: u32 = u32::MAX;

/// Sum of a sequence of burst durations.
pub open spec fn time_sum(s: Seq<u32>) -> int
    decreases s.len(),
{
    if s.len() == 0 {
        0
    } else {
        s[0] + time_sum(s.drop_first())
    }
}

/// The mathematical model of a process.
#[verifier::ext_equal]
pub ghost struct ProcView {
    pub id: u32,
    pub next_arrival: u32,
    pub io: Seq<u32>,
    pub cpu: Seq<u32>,
    pub turnaround: u32,
    pub waiting: u32,
    pub response: Option<u32>,
    /// Sum of all CPU and I/O bursts the process was created with.
    pub total: int,
}

/// Remaining work of a process: the sum of its outstanding CPU and I/O bursts.
pub open spec fn proc_rem(p: ProcView) -> int {
    time_sum(p.cpu) + time_sum(p.io)
}

/// Metric invariant of a process, established at construction and preserved
/// by every scheduler step:
/// - waiting and turnaround time never exceed the last arrival time;
/// - the turnaround time accounts exactly for the waiting time plus the work
///   consumed so far (total minus remaining);
/// - the response time, once set, records a dispatch no later than the
///   accumulated turnaround time.
pub open spec fn proc_inv(p: ProcView) -> bool {
    &&& p.waiting <= p.next_arrival
    &&& p.turnaround <= p.next_arrival
    &&& p.turnaround == p.waiting + p.total - proc_rem(p)
    &&& match p.response {
        None => p.next_arrival == 0 && p.turnaround == 0 && p.waiting == 0,
        Some(r) => r <= p.turnaround && r <= p.next_arrival,
    }
}

/// A live process still owes at least one CPU burst, and its I/O burst queue
/// is strictly shorter than its CPU burst queue (the final CPU burst has no
/// trailing I/O).
pub open spec fn proc_live(p: ProcView) -> bool {
    p.io.len() < p.cpu.len()
}

/// A freshly constructed process: ready at time zero, no metrics accumulated.
pub open spec fn proc_fresh(p: ProcView) -> bool {
    &&& p.next_arrival == 0
    &&& p.turnaround == 0
    &&& p.waiting == 0
    &&& p.response is None
    &&& p.total == proc_rem(p)
}

/// The time at which a process popped at clock `now` actually starts running:
/// immediately, or at its arrival time if that lies in the future.
pub open spec fn dispatch_of(p: ProcView, now: u32) -> int {
    if p.next_arrival >= now {
        p.next_arrival as int
    } else {
        now as int
    }
}

/// Idle time the processor spends before the dispatch.
pub open spec fn idle_of(p: ProcView, now: u32) -> int {
    dispatch_of(p, now) - now
}

/// Time the process spent runnable but not executing before the dispatch.
pub open spec fn wait_of(p: ProcView, now: u32) -> int {
    dispatch_of(p, now) - p.next_arrival
}

/// The I/O burst consumed after a completed CPU burst: the front of the I/O
/// queue, or zero when none remains (the final CPU burst).
pub open spec fn io_head(p: ProcView) -> int {
    if p.io.len() > 0 {
        p.io[0] as int
    } else {
        0
    }
}

/// A process after executing its front CPU burst in full at clock `now`,
/// followed by its next I/O burst.
pub open spec fn run_full(p: ProcView, now: u32) -> ProcView {
    let d = dispatch_of(p, now);
    let cpu_time = p.cpu[0] as int;
    let io_time = io_head(p);
    let w = wait_of(p, now);
    ProcView {
        id: p.id,
        next_arrival: (d + cpu_time + io_time) as u32,
        io: if p.io.len() > 0 {
            p.io.drop_first()
        } else {
            p.io
        },
        cpu: p.cpu.drop_first(),
        turnaround: (p.turnaround + cpu_time + io_time + w) as u32,
        waiting: (p.waiting + w) as u32,
        response: match p.response {
            None => Some(d as u32),
            Some(r) => Some(r),
        },
        total: p.total,
    }
}

/// A process after executing only a quantum-sized slice of its front CPU
/// burst at clock `now`: the remainder of the burst returns to the front of
/// its CPU queue and no I/O burst is consumed.
pub open spec fn run_slice(p: ProcView, now: u32, quanta: u32) -> ProcView {
    let d = dispatch_of(p, now);
    let w = wait_of(p, now);
    ProcView {
        id: p.id,
        next_arrival: (d + quanta) as u32,
        io: p.io,
        cpu: seq![(p.cpu[0] - quanta) as u32] + p.cpu.drop_first(),
        turnaround: (p.turnaround + quanta + w) as u32,
        waiting: (p.waiting + w) as u32,
        response: match p.response {
            None => Some(d as u32),
            Some(r) => Some(r),
        },
        total: p.total,
    }
}

/// A mutable simulation entity owned by exactly one scheduler level at a
/// time.  `cpu_times` and `io_times` hold the remaining burst durations,
/// front first; the metric fields accumulate as the schedulers run it.
pub struct Process {
    pub id: u32,
    pub next_arrival: u32,
    pub io_times: Vec<u32>,
    pub cpu_times: Vec<u32>,
    pub turnaround_time: u32,
    pub waiting_time: u32,
    pub response_time: Option<u32>,
    /// Sum of all bursts at construction; lets the invariant account for the
    /// work consumed so far.
    pub burst_total: Ghost<int>,
}

impl View for Process {
    type V = ProcView;

    open spec fn view(&self) -> ProcView {
        ProcView {
            id: self.id,
            next_arrival: self.next_arrival,
            io: self.io_times@,
            cpu: self.cpu_times@,
            turnaround: self.turnaround_time,
            waiting: self.waiting_time,
            response: self.response_time,
            total: self.burst_total@,
        }
    }
}

impl Process {
    /// Creates a process that is ready at time zero.  The caller assigns the
    /// unique id; each CPU burst but the last is followed by one I/O burst,
    /// so the I/O queue is exactly one entry shorter.
    pub fn new(id: u32, io_times: Vec<u32>, cpu_times: Vec<u32>) -> (p: Process)
        requires
            io_times@.len() + 1 == cpu_times@.len(),
        ensures
            p@ == (ProcView {
                id,
                next_arrival: 0,
                io: io_times@,
                cpu: cpu_times@,
                turnaround: 0,
                waiting: 0,
                response: None,
                total: time_sum(cpu_times@) + time_sum(io_times@),
            }),
            proc_inv(p@),
            proc_live(p@),
            proc_fresh(p@),
    {
        let ghost total = time_sum(cpu_times@) + time_sum(io_times@);
        Process {
            id,
            next_arrival: 0,
            io_times,
            cpu_times,
            turnaround_time: 0,
            waiting_time: 0,
            response_time: None,
            burst_total: Ghost(total),
        }
    }
}

/// Remaining work of a whole collection of processes.
pub open spec fn procs_rem(s: Seq<ProcView>) -> int
    decreases s.len(),
{
    if s.len() == 0 {
        0
    } else {
        proc_rem(s[0]) + procs_rem(s.drop_first())
    }
}

/// Number of outstanding CPU bursts over a whole collection of processes.
pub open spec fn procs_cpu_count(s: Seq<ProcView>) -> int
    decreases s.len(),
{
    if s.len() == 0 {
        0
    } else {
        s[0].cpu.len() + procs_cpu_count(s.drop_first())
    }
}

/// Termination measure of a scheduler state: every step strictly shrinks it,
/// because it either consumes at least one time unit of work or retires one
/// CPU burst.
pub open spec fn sched_measure(s: Seq<ProcView>) -> int {
    procs_rem(s) + procs_cpu_count(s)
}

/// Every process in the collection is live and satisfies its metric
/// invariant.
pub open spec fn procs_inv(s: Seq<ProcView>) -> bool {
    forall|i: int|
        0 <= i < s.len() ==> proc_inv(#[trigger] s[i]) && proc_live(s[i])
}

/// The clock and every arrival time leave room for the remaining work of the
/// collection plus `extra` units held elsewhere: no time computed by a step
/// can exceed `TIME_LIMIT`.
pub open spec fn procs_bounded(s: Seq<ProcView>, now: u32, extra: int) -> bool {
    &&& now + procs_rem(s) + extra <= TIME_LIMIT
    &&& forall|i: int|
        0 <= i < s.len() ==> (#[trigger] s[i]).next_arrival + procs_rem(s) + extra <= TIME_LIMIT
}

/// The pairs (id, remaining I/O wait) of the processes still waiting on
/// I/O at `now`, in queue order.
pub open spec fn io_pairs(s: Seq<ProcView>, now: u32) -> Seq<(u32, u32)>
    decreases s.len(),
{
    if s.len() == 0 {
        Seq::empty()
    } else {
        let front = io_pairs(s.drop_last(), now);
        let p = s.last();
        if p.next_arrival > now {
            front.push((p.id, (p.next_arrival - now) as u32))
        } else {
            front
        }
    }
}

/// The pairs (id, next CPU burst length) of the processes ready to run at
/// `now`, in queue order.
pub open spec fn cpu_pairs(s: Seq<ProcView>, now: u32) -> Seq<(u32, u32)>
    decreases s.len(),
{
    if s.len() == 0 {
        Seq::empty()
    } else {
        let front = cpu_pairs(s.drop_last(), now);
        let p = s.last();
        if p.next_arrival <= now {
            front.push((p.id, p.cpu[0]))
        } else {
            front
        }
    }
}

/// Both pair lists distribute over concatenation of process collections.
pub proof fn lemma_pairs_concat(a: Seq<ProcView>, b: Seq<ProcView>, now: u32)
    ensures
        io_pairs(a + b, now) == io_pairs(a, now) + io_pairs(b, now),
        cpu_pairs(a + b, now) == cpu_pairs(a, now) + cpu_pairs(b, now),
    decreases b.len(),
{
    if b.len() == 0 {
        assert(a + b =~= a);
        assert(io_pairs(a, now) + io_pairs(b, now) =~= io_pairs(a, now));
        assert(cpu_pairs(a, now) + cpu_pairs(b, now) =~= cpu_pairs(a, now));
    } else {
        lemma_pairs_concat(a, b.drop_last(), now);
        assert((a + b).drop_last() =~= a + b.drop_last());
        assert((a + b).last() == b.last());
        let p = b.last();
        if p.next_arrival > now {
            assert(io_pairs(a, now) + io_pairs(b, now) =~= (io_pairs(a, now) + io_pairs(
                b.drop_last(),
                now,
            )).push((p.id, (p.next_arrival - now) as u32)));
        } else {
            assert(io_pairs(b, now) == io_pairs(b.drop_last(), now));
        }
        if p.next_arrival <= now {
            assert(cpu_pairs(a, now) + cpu_pairs(b, now) =~= (cpu_pairs(a, now) + cpu_pairs(
                b.drop_last(),
                now,
            )).push((p.id, p.cpu[0])));
        } else {
            assert(cpu_pairs(b, now) == cpu_pairs(b.drop_last(), now));
        }
    }
}

pub proof fn lemma_procs_rem_nonneg(s: Seq<ProcView>)
    ensures
        procs_rem(s) >= 0,
        procs_cpu_count(s) >= 0,
    decreases s.len(),
{
    if s.len() > 0 {
        lemma_time_sum_nonneg(s[0].cpu);
        lemma_time_sum_nonneg(s[0].io);
        lemma_procs_rem_nonneg(s.drop_first());
    }
}

pub proof fn lemma_procs_rem_push(s: Seq<ProcView>, p: ProcView)
    ensures
        procs_rem(s.push(p)) == procs_rem(s) + proc_rem(p),
        procs_cpu_count(s.push(p)) == procs_cpu_count(s) + p.cpu.len(),
    decreases s.len(),
{
    if s.len() == 0 {
        assert(s.push(p)[0] == p);
        assert(s.push(p).drop_first() =~= Seq::<ProcView>::empty());
        assert(procs_rem(s.push(p)) == proc_rem(p) + procs_rem(Seq::<ProcView>::empty()));
        assert(procs_cpu_count(s.push(p)) == p.cpu.len() + procs_cpu_count(Seq::<ProcView>::empty()));
        assert(procs_rem(Seq::<ProcView>::empty()) == 0);
        assert(procs_cpu_count(Seq::<ProcView>::empty()) == 0);
        assert(procs_rem(s) == 0);
        assert(procs_cpu_count(s) == 0);
    } else {
        assert(s.push(p)[0] == s[0]);
        assert(s.push(p).drop_first() =~= s.drop_first().push(p));
        lemma_procs_rem_push(s.drop_first(), p);
        assert(procs_rem(s.push(p)) == proc_rem(s[0]) + procs_rem(s.drop_first().push(p)));
        assert(procs_cpu_count(s.push(p)) == s[0].cpu.len() + procs_cpu_count(s.drop_first().push(p)));
        assert(procs_rem(s) == proc_rem(s[0]) + procs_rem(s.drop_first()));
        assert(procs_cpu_count(s) == s[0].cpu.len() + procs_cpu_count(s.drop_first()));
    }
}

pub proof fn lemma_procs_rem_remove(s: Seq<ProcView>, i: int)
    requires
        0 <= i < s.len(),
    ensures
        procs_rem(s.remove(i)) == procs_rem(s) - proc_rem(s[i]),
        procs_cpu_count(s.remove(i)) == procs_cpu_count(s) - s[i].cpu.len(),
    decreases s.len(),
{
    if i == 0 {
        assert(s.remove(0) =~= s.drop_first());
    } else {
        assert(s.remove(i).drop_first() =~= s.drop_first().remove(i - 1));
        lemma_procs_rem_remove(s.drop_first(), i - 1);
    }
}

pub proof fn lemma_procs_rem_update(s: Seq<ProcView>, i: int, p: ProcView)
    requires
        0 <= i < s.len(),
    ensures
        procs_rem(s.update(i, p)) == procs_rem(s) - proc_rem(s[i]) + proc_rem(p),
        procs_cpu_count(s.update(i, p)) == procs_cpu_count(s) - s[i].cpu.len() + p.cpu.len(),
    decreases s.len(),
{
    if i == 0 {
        assert(s.update(0, p).drop_first() =~= s.drop_first());
        assert(s.update(0, p)[0] == p);
    } else {
        assert(s.update(i, p).drop_first() =~= s.drop_first().update(i - 1, p));
        assert(s.update(i, p)[0] == s[0]);
        lemma_procs_rem_update(s.drop_first(), i - 1, p);
    }
}

pub proof fn lemma_procs_rem_concat(a: Seq<ProcView>, b: Seq<ProcView>)
    ensures
        procs_rem(a + b) == procs_rem(a) + procs_rem(b),
        procs_cpu_count(a + b) == procs_cpu_count(a) + procs_cpu_count(b),
    decreases a.len(),
{
    if a.len() == 0 {
        assert(a + b =~= b);
    } else {
        assert((a + b).drop_first() =~= a.drop_first() + b);
        assert((a + b)[0] == a[0]);
        lemma_procs_rem_concat(a.drop_first(), b);
    }
}

/// Bounds the remaining work of a collection whose members each owe at
/// most `b`.
pub proof fn lemma_procs_rem_bound(s: Seq<ProcView>, b: int)
    requires
        b >= 0,
        forall|i: int| 0 <= i < s.len() ==> proc_rem(#[trigger] s[i]) <= b,
    ensures
        procs_rem(s) <= s.len() * b,
    decreases s.len(),
{
    if s.len() > 0 {
        assert forall|i: int| 0 <= i < s.drop_first().len() implies proc_rem(
            #[trigger] s.drop_first()[i],
        ) <= b by {
            assert(s.drop_first()[i] == s[i + 1]);
        }
        lemma_procs_rem_bound(s.drop_first(), b);
        assert(s.len() * b == (s.len() - 1) * b + b) by (nonlinear_arith);
    }
}

pub proof fn lemma_time_sum_nonneg(s: Seq<u32>)
    ensures
        time_sum(s) >= 0,
    decreases s.len(),
{
    if s.len() > 0 {
        lemma_time_sum_nonneg(s.drop_first());
    }
}

pub proof fn lemma_time_sum_cons(x: u32, s: Seq<u32>)
    ensures
        time_sum(seq![x] + s) == x + time_sum(s),
{
    let joined = seq![x] + s;
    assert(joined.drop_first() =~= s);
    assert(joined[0] == x);
}

/// At completion, a process's turnaround time equals its waiting time
/// plus the sum of all the CPU and I/O bursts it was created with: every
/// unit of simulated time it accumulated is accounted for.
pub proof fn lemma_completion_accounting(p: ProcView)
    requires
        proc_inv(p),
        p.cpu.len() == 0,
        p.io.len() == 0,
    ensures
        p.turnaround == p.waiting + p.total,
{
}

/// A response time, once observed, never exceeds the turnaround time.  The
/// step transforms record it exactly once: `run_full` and `run_slice` set
/// it at the first dispatch and never overwrite it afterwards.
pub proof fn lemma_response_within_turnaround(p: ProcView)
    requires
        proc_inv(p),
        p.response is Some,
    ensures
        p.response->0 <= p.turnaround,
        p.response->0 <= p.next_arrival,
{
}

/// The response time is observed exactly once: both step transforms record
/// the dispatch time at a process's first run and never overwrite it on a
/// later one.
pub proof fn lemma_response_observed_once(p: ProcView, now: u32, quanta: u32)
    ensures
        p.response is None ==> run_full(p, now).response == Some(dispatch_of(p, now) as u32),
        p.response is None ==> run_slice(p, now, quanta).response == Some(
            dispatch_of(p, now) as u32,
        ),
        p.response is Some ==> run_full(p, now).response == p.response,
        p.response is Some ==> run_slice(p, now, quanta).response == p.response,
{
}

/// Bounds the sum of a sequence whose elements all stay at or below `b`.
pub proof fn lemma_time_sum_bound(s: Seq<u32>, b: int)
    requires
        forall|i: int| 0 <= i < s.len() ==> s[i] <= b,
    ensures
        time_sum(s) <= s.len() * b,
    decreases s.len(),
{
    if s.len() == 0 {
    } else {
        assert(forall|i: int| 0 <= i < s.drop_first().len() ==> s.drop_first()[i] <= b);
        lemma_time_sum_bound(s.drop_first(), b);
        assert(s.len() * b == (s.len() - 1) * b + b) by (nonlinear_arith);
    }
}

} // verus!
