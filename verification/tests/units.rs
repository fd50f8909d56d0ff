//! Unit tests of the process model and the single schedulers.

use scheduler_sim::fcfs::FirstComeFirstServe;
use scheduler_sim::outcome::StepOutcome;
use scheduler_sim::process::Process;
use scheduler_sim::round_robin::RoundRobin;
use scheduler_sim::mlfq::MultiLevelFeedbackQueue;

#[test]
fn new_process_is_fresh() {
    let p = Process::new(7, vec![2, 3], vec![4, 5, 6]);
    assert_eq!(p.id, 7);
    assert_eq!(p.next_arrival, 0);
    assert_eq!(p.cpu_times, vec![4, 5, 6]);
    assert_eq!(p.io_times, vec![2, 3]);
    assert_eq!(p.turnaround_time, 0);
    assert_eq!(p.waiting_time, 0);
    assert_eq!(p.response_time, None);
}

/// Selection is stable: with identical arrival times the first process in
/// queue order wins, every time.
#[test]
fn fcfs_selection_breaks_ties_by_queue_order() {
    let scheduler = FirstComeFirstServe::from_processes(vec![
        Process::new(1, vec![], vec![4]),
        Process::new(2, vec![], vec![4]),
        Process::new(3, vec![], vec![4]),
    ]);
    for _ in 0..3 {
        assert_eq!(scheduler.find_next_process(), 0);
    }
}

#[test]
fn fcfs_selection_prefers_earliest_arrival() {
    let mut early = Process::new(1, vec![], vec![4]);
    early.next_arrival = 9;
    let mut earlier = Process::new(2, vec![], vec![4]);
    earlier.next_arrival = 3;
    let scheduler = FirstComeFirstServe::from_processes(vec![early, earlier]);
    assert_eq!(scheduler.find_next_process(), 1);
}

/// A step on a process whose arrival lies in the future idles until it
/// arrives; the idle time is reported, not charged as waiting.
#[test]
fn fcfs_step_idles_until_arrival() {
    let mut p = Process::new(1, vec![], vec![4]);
    p.next_arrival = 10;
    let mut scheduler = FirstComeFirstServe::from_processes(vec![p]);
    let data = scheduler.step(0);
    assert_eq!(data.idle_time, 10);
    assert_eq!(data.cpu_time, 4);
    match data.outcome {
        StepOutcome::Completed(done) => {
            assert_eq!(done.waiting_time, 0);
            assert_eq!(done.response_time, Some(10));
            assert_eq!(done.turnaround_time, 4);
        }
        _ => panic!("a single burst must complete"),
    }
}

/// The round-robin queue is strict FIFO: the head runs even when a later
/// process arrived earlier.
#[test]
fn rr_is_strict_fifo() {
    let mut head = Process::new(1, vec![], vec![3]);
    head.next_arrival = 8;
    let tail = Process::new(2, vec![], vec![3]);
    let mut scheduler = RoundRobin::from_processes(vec![head, tail], 5);
    let data = scheduler.step(0);
    assert_eq!(data.idle_time, 8);
    match data.outcome {
        StepOutcome::Completed(done) => assert_eq!(done.id, 1),
        _ => panic!("the head process must run to completion"),
    }
}

#[test]
fn rr_never_runs_longer_than_the_quantum() {
    let p = Process::new(1, vec![], vec![100]);
    let mut scheduler = RoundRobin::from_processes(vec![p], 7);
    let data = scheduler.step(0);
    assert_eq!(data.cpu_time, 7);
    assert!(matches!(data.outcome, StepOutcome::QuantumExceeded(_)));
}

#[test]
fn io_busy_reports_blocked_levels() {
    let mut p = Process::new(1, vec![], vec![4]);
    p.next_arrival = 5;
    let scheduler = RoundRobin::from_processes(vec![p], 5);
    assert!(scheduler.io_busy(4));
    assert!(!scheduler.io_busy(5));
}

#[test]
fn remaining_lists_split_by_arrival() {
    let mut waiting = Process::new(1, vec![], vec![4]);
    waiting.next_arrival = 9;
    let ready = Process::new(2, vec![1], vec![6, 2]);
    let scheduler = FirstComeFirstServe::from_processes(vec![waiting, ready]);
    assert_eq!(scheduler.io_remaining(5), vec![(1, 4)]);
    assert_eq!(scheduler.cpu_remaining(5), vec![(2, 6)]);

    let rr = RoundRobin::from_processes(
        vec![Process::new(3, vec![], vec![8]), Process::new(4, vec![], vec![2])],
        5,
    );
    assert_eq!(rr.io_remaining(0), vec![]);
    assert_eq!(rr.cpu_remaining(0), vec![(3, 8), (4, 2)]);
}

#[test]
fn mlfq_remaining_lists_cover_all_levels() {
    let mut scheduler = MultiLevelFeedbackQueue::from_processes(vec![
        Process::new(1, vec![2], vec![6, 1]),
        Process::new(2, vec![], vec![3]),
    ]);
    // run process 1 for one quantum: it exceeds and is demoted to level 2
    let data = scheduler.step(0);
    assert!(matches!(data.outcome, StepOutcome::NoEvent));
    // process 1 now sits at level 2 with one unit of its burst left
    let cpu = scheduler.cpu_remaining(5);
    assert_eq!(cpu, vec![(2, 3), (1, 1)]);
    let io = scheduler.io_remaining(5);
    assert_eq!(io, vec![]);
}

#[test]
fn mlfq_empties_only_when_all_levels_empty() {
    let mut scheduler = MultiLevelFeedbackQueue::from_processes(vec![Process::new(
        1,
        vec![],
        vec![7],
    )]);
    assert!(!scheduler.is_empty());
    let first = scheduler.step(0);
    assert!(matches!(first.outcome, StepOutcome::NoEvent));
    assert!(!scheduler.is_empty());
    let second = scheduler.step(5);
    assert!(matches!(second.outcome, StepOutcome::Completed(_)));
    assert!(scheduler.is_empty());
}
