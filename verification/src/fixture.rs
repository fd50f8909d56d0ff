//! The fixed test population the simulations run on.
//!
//! Eight processes, each with one more CPU burst than I/O bursts, ready at
//! time zero.  IDs are assigned monotonically starting at 1.

use vstd::prelude::*;
use crate::process::{
    Process, lemma_procs_rem_bound, lemma_time_sum_bound, proc_fresh, proc_live, proc_rem,
    procs_rem,
};
use crate::driver::startable;

verus! {

/// Loads the test processes.
pub fn load_test_processes() -> (r: Vec<Process>)
    ensures
        r@.len() == 8,
        startable(r@.map_values(|p: Process| p@)),
        forall|i: int| 0 <= i < 8 ==> (#[trigger] r@[i])@.id == i + 1,
{
    let mut list: Vec<Process> = Vec::new();
    let io_1: Vec<u32> = vec![27, 31, 43, 18, 22, 26, 24];
    let cpu_1: Vec<u32> = vec![5, 3, 5, 4, 6, 4, 3, 4];
    list.push(Process::new(1, io_1, cpu_1));
    let io_2: Vec<u32> = vec![48, 44, 42, 37, 76, 41, 31, 43];
    let cpu_2: Vec<u32> = vec![4, 5, 7, 12, 9, 4, 9, 7, 8];
    list.push(Process::new(2, io_2, cpu_2));
    let io_3: Vec<u32> = vec![33, 41, 65, 21, 61, 18, 26, 31];
    let cpu_3: Vec<u32> = vec![8, 12, 18, 14, 4, 15, 14, 5, 6];
    list.push(Process::new(3, io_3, cpu_3));
    let io_4: Vec<u32> = vec![35, 41, 45, 51, 61, 54, 82, 77];
    let cpu_4: Vec<u32> = vec![3, 4, 5, 3, 4, 5, 6, 5, 3];
    list.push(Process::new(4, io_4, cpu_4));
    let io_5: Vec<u32> = vec![24, 21, 36, 26, 31, 28, 21, 13, 11];
    let cpu_5: Vec<u32> = vec![16, 17, 5, 16, 7, 13, 11, 6, 3, 4];
    list.push(Process::new(5, io_5, cpu_5));
    let io_6: Vec<u32> = vec![22, 8, 10, 12, 14, 18, 24, 30];
    let cpu_6: Vec<u32> = vec![11, 4, 5, 6, 7, 9, 12, 15, 8];
    list.push(Process::new(6, io_6, cpu_6));
    let io_7: Vec<u32> = vec![46, 41, 42, 21, 32, 19, 33];
    let cpu_7: Vec<u32> = vec![14, 17, 11, 15, 4, 7, 16, 10];
    list.push(Process::new(7, io_7, cpu_7));
    let io_8: Vec<u32> = vec![14, 33, 51, 73, 87];
    let cpu_8: Vec<u32> = vec![4, 5, 6, 14, 16, 6];
    list.push(Process::new(8, io_8, cpu_8));
    proof {
        let s = list@.map_values(|p: Process| p@);
        assert(s.len() == 8);
        assert forall|i: int| 0 <= i < 8 implies proc_fresh(#[trigger] s[i]) && proc_live(s[i])
            && proc_rem(s[i]) <= 2000 && s[i].id == i + 1 by {
            if i == 0 {
                lemma_time_sum_bound(s[i].io, 100);
                lemma_time_sum_bound(s[i].cpu, 100);
            }
            if i == 1 {
                lemma_time_sum_bound(s[i].io, 100);
                lemma_time_sum_bound(s[i].cpu, 100);
            }
            if i == 2 {
                lemma_time_sum_bound(s[i].io, 100);
                lemma_time_sum_bound(s[i].cpu, 100);
            }
            if i == 3 {
                lemma_time_sum_bound(s[i].io, 100);
                lemma_time_sum_bound(s[i].cpu, 100);
            }
            if i == 4 {
                lemma_time_sum_bound(s[i].io, 100);
                lemma_time_sum_bound(s[i].cpu, 100);
            }
            if i == 5 {
                lemma_time_sum_bound(s[i].io, 100);
                lemma_time_sum_bound(s[i].cpu, 100);
            }
            if i == 6 {
                lemma_time_sum_bound(s[i].io, 100);
                lemma_time_sum_bound(s[i].cpu, 100);
            }
            if i == 7 {
                lemma_time_sum_bound(s[i].io, 100);
                lemma_time_sum_bound(s[i].cpu, 100);
            }
        }
        lemma_procs_rem_bound(s, 2000);
        assert(procs_rem(s) <= 16000);
    }
    list
}

} // verus!
