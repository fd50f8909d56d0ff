//! Whole-run properties on the fixed test population.

use scheduler_sim::driver::{run_fcfs, run_mlfq};
use scheduler_sim::fixture::load_test_processes;

/// Sum of all bursts of the fixture process with the given id.
fn fixture_burst_total(id: u32) -> u32 {
    let io: [&[u32]; 8] = [
        &[27, 31, 43, 18, 22, 26, 24],
        &[48, 44, 42, 37, 76, 41, 31, 43],
        &[33, 41, 65, 21, 61, 18, 26, 31],
        &[35, 41, 45, 51, 61, 54, 82, 77],
        &[24, 21, 36, 26, 31, 28, 21, 13, 11],
        &[22, 8, 10, 12, 14, 18, 24, 30],
        &[46, 41, 42, 21, 32, 19, 33],
        &[14, 33, 51, 73, 87],
    ];
    let cpu: [&[u32]; 8] = [
        &[5, 3, 5, 4, 6, 4, 3, 4],
        &[4, 5, 7, 12, 9, 4, 9, 7, 8],
        &[8, 12, 18, 14, 4, 15, 14, 5, 6],
        &[3, 4, 5, 3, 4, 5, 6, 5, 3],
        &[16, 17, 5, 16, 7, 13, 11, 6, 3, 4],
        &[11, 4, 5, 6, 7, 9, 12, 15, 8],
        &[14, 17, 11, 15, 4, 7, 16, 10],
        &[4, 5, 6, 14, 16, 6],
    ];
    let index = (id - 1) as usize;
    io[index].iter().sum::<u32>() + cpu[index].iter().sum::<u32>()
}

#[test]
fn fixture_has_eight_fresh_processes() {
    let processes = load_test_processes();
    assert_eq!(processes.len(), 8);
    for (index, process) in processes.iter().enumerate() {
        assert_eq!(process.id, index as u32 + 1);
        assert_eq!(process.next_arrival, 0);
        assert_eq!(process.turnaround_time, 0);
        assert_eq!(process.waiting_time, 0);
        assert_eq!(process.response_time, None);
        assert_eq!(process.io_times.len() + 1, process.cpu_times.len());
    }
    assert_eq!(processes[0].cpu_times, vec![5, 3, 5, 4, 6, 4, 3, 4]);
    assert_eq!(processes[0].io_times, vec![27, 31, 43, 18, 22, 26, 24]);
}

/// Every process completes, and at completion its turnaround time equals
/// its waiting time plus the sum of all its CPU and I/O bursts.
#[test]
fn fcfs_run_accounts_for_every_burst() {
    let report = run_fcfs(load_test_processes());
    assert_eq!(report.completions.len(), 8);
    for completion in &report.completions {
        assert_eq!(
            completion.turnaround_time,
            completion.waiting_time + fixture_burst_total(completion.id)
        );
    }
}

#[test]
fn mlfq_run_accounts_for_every_burst() {
    let report = run_mlfq(load_test_processes());
    assert_eq!(report.completions.len(), 8);
    for completion in &report.completions {
        assert_eq!(
            completion.turnaround_time,
            completion.waiting_time + fixture_burst_total(completion.id)
        );
    }
}

/// The response time never exceeds the turnaround time.
#[test]
fn response_time_within_turnaround() {
    for report in [run_fcfs(load_test_processes()), run_mlfq(load_test_processes())] {
        for completion in &report.completions {
            assert!(completion.response_time <= completion.turnaround_time);
        }
    }
}

/// Re-running the full simulation on the same fixture yields bit-identical
/// totals, per-process metrics, and completion order.
#[test]
fn identical_fixtures_give_identical_reports() {
    let first = run_mlfq(load_test_processes());
    let second = run_mlfq(load_test_processes());
    assert_eq!(first.completions, second.completions);
    assert_eq!(first.total_turnaround_time, second.total_turnaround_time);
    assert_eq!(first.total_waiting_time, second.total_waiting_time);
    assert_eq!(first.total_response_time, second.total_response_time);
    assert_eq!(first.total_idle_time, second.total_idle_time);
    assert_eq!(first.total_elapsed_time, second.total_elapsed_time);

    let fcfs_first = run_fcfs(load_test_processes());
    let fcfs_second = run_fcfs(load_test_processes());
    assert_eq!(fcfs_first.completions, fcfs_second.completions);
    assert_eq!(fcfs_first.total_elapsed_time, fcfs_second.total_elapsed_time);
    assert_eq!(fcfs_first.total_idle_time, fcfs_second.total_idle_time);
}

/// The totals are the sums over the completion log.
#[test]
fn totals_match_completion_log() {
    let report = run_mlfq(load_test_processes());
    let turnaround: u64 = report.completions.iter().map(|c| c.turnaround_time as u64).sum();
    let waiting: u64 = report.completions.iter().map(|c| c.waiting_time as u64).sum();
    let response: u64 = report.completions.iter().map(|c| c.response_time as u64).sum();
    assert_eq!(report.total_turnaround_time, turnaround);
    assert_eq!(report.total_waiting_time, waiting);
    assert_eq!(report.total_response_time, response);
    assert!(report.total_idle_time <= report.total_elapsed_time as u64);
}
