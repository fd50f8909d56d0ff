//! End-to-end scenarios with exact expected values.

use scheduler_sim::driver::run_fcfs;
use scheduler_sim::outcome::StepOutcome;
use scheduler_sim::process::Process;
use scheduler_sim::round_robin::RoundRobin;
use scheduler_sim::mlfq::MultiLevelFeedbackQueue;

/// FCFS, two processes.  A = CPU bursts [5, 3], I/O bursts [2];
/// B = CPU bursts [4], I/O bursts [].
/// A is dispatched at time 0 (response 0), runs 5, goes on I/O until 7.
/// B is dispatched at time 5, runs 4, completes at 9 with waiting 5 and
/// turnaround 9.  A resumes at 9 (wait 2), runs 3, completes at 12 with
/// waiting 2 and turnaround 12.
#[test]
fn fcfs_two_process_scenario() {
    let a = Process::new(1, vec![2], vec![5, 3]);
    let b = Process::new(2, vec![], vec![4]);
    let report = run_fcfs(vec![a, b]);

    assert_eq!(report.completions.len(), 2);

    let first = report.completions[0];
    assert_eq!(first.id, 2);
    assert_eq!(first.turnaround_time, 9);
    assert_eq!(first.waiting_time, 5);
    assert_eq!(first.response_time, 5);

    let second = report.completions[1];
    assert_eq!(second.id, 1);
    assert_eq!(second.turnaround_time, 12);
    assert_eq!(second.waiting_time, 2);
    assert_eq!(second.response_time, 0);

    assert_eq!(report.total_turnaround_time, 21);
    assert_eq!(report.total_waiting_time, 7);
    assert_eq!(report.total_response_time, 5);
    assert_eq!(report.total_idle_time, 0);
    assert_eq!(report.total_elapsed_time, 12);
}

/// Round-robin with quantum 5 over a single CPU burst of 12: the burst is
/// split into executed slices of 5, 5 and 2, with two quantum-exceeded
/// signals before the completion.
#[test]
fn rr_quantum_exceeded_scenario() {
    let p = Process::new(1, vec![], vec![12]);
    let mut scheduler = RoundRobin::from_processes(vec![p], 5);
    let mut now: u32 = 0;
    let mut slices: Vec<u32> = Vec::new();
    let mut exceeded_signals: u32 = 0;

    loop {
        let data = scheduler.step(now);
        slices.push(data.cpu_time);
        now += data.idle_time + data.cpu_time;
        match data.outcome {
            StepOutcome::QuantumExceeded(process) => {
                exceeded_signals += 1;
                // plain RR usage: re-queue the process at the same level
                scheduler.processes.push(process);
            }
            StepOutcome::Completed(process) => {
                assert_eq!(process.turnaround_time, 12);
                assert_eq!(process.waiting_time, 0);
                assert_eq!(process.response_time, Some(0));
                break;
            }
            StepOutcome::NoEvent => {}
        }
    }

    assert_eq!(slices, vec![5, 5, 2]);
    assert_eq!(exceeded_signals, 2);
    assert_eq!(now, 12);
}

/// A burst that fits the quantum exactly produces no quantum-exceeded
/// signal: the process re-enters its own queue.
#[test]
fn rr_exact_fit_consumes_no_demotion_signal() {
    let p = Process::new(1, vec![1], vec![5, 3]);
    let mut scheduler = RoundRobin::from_processes(vec![p], 5);
    let data = scheduler.step(0);
    assert_eq!(data.cpu_time, 5);
    assert!(matches!(data.outcome, StepOutcome::NoEvent));
}

/// MLFQ demotes a long-running process one level per expired quantum:
/// a single burst of 20 runs 5 units at level 1, 10 at level 2, and the
/// last 5 at level 3, completing at time 20 after two demotions.
#[test]
fn mlfq_double_demotion_scenario() {
    let p = Process::new(1, vec![], vec![20]);
    let mut scheduler = MultiLevelFeedbackQueue::from_processes(vec![p]);
    let mut now: u32 = 0;
    let mut steps: Vec<u32> = Vec::new();

    let completed = loop {
        let data = scheduler.step(now);
        steps.push(data.cpu_time);
        now += data.idle_time + data.cpu_time;
        match data.outcome {
            StepOutcome::Completed(process) => break process,
            StepOutcome::QuantumExceeded(_) => {
                panic!("the queue must absorb quantum-exceeded signals");
            }
            StepOutcome::NoEvent => {}
        }
    };

    assert_eq!(steps, vec![5, 10, 5]);
    assert_eq!(now, 20);
    assert_eq!(completed.turnaround_time, 20);
    assert_eq!(completed.waiting_time, 0);
    assert_eq!(completed.response_time, Some(0));
}
