//! Metrics of one benchmark run, and the readings of the clock and of the
//! process's memory that a run takes.
use vstd::prelude::*;
use std::time::{Duration, Instant};
use sysinfo::{Pid, Process, System};

verus! {

/// How the distance between two bit-packed images is computed.
#[derive(Debug, Clone, Copy, PartialEq, Eq, Structural)]
pub enum DistanceMetric {
    /// Differing bits, counted per byte.
    Hamming,
    /// Squared Euclidean distance over the unpacked binary pixels.
    Euclidean,
}

/// Metrics returned by every benchmark function.
#[derive(Debug)]
pub struct Results {
    /// Wall-clock time of the classification, in nanoseconds.
    pub elapsed_ns: u128,
    /// Test samples whose predicted label is their true label.
    pub correct: usize,
    /// Test samples classified.
    pub total: usize,
    /// Change of the resident memory of the process during the run (KB).
    pub memory_delta_kb: i64,
    /// The distance the run used.
    pub distance_metric: DistanceMetric,
}

/// The longest time a `Duration` holds, in nanoseconds.
pub open spec fn max_duration_ns() -> int {
    (u64::MAX as int) * 1000000000 + 999999999
}

impl Results {
    /// The metrics of a run: its time, its counts, its metric, and the
    /// change of the process's memory between the reading taken before the
    /// run and the one taken after it.
    pub fn from_run(
        elapsed_ns: u128,
        correct: usize,
        total: usize,
        mem_before_kb: i64,
        mem_after_kb: i64,
        distance_metric: DistanceMetric,
    ) -> (r: Results)
        requires
            i64::MIN <= mem_after_kb - mem_before_kb <= i64::MAX,
        ensures
            r.elapsed_ns == elapsed_ns,
            r.correct == correct,
            r.total == total,
            r.memory_delta_kb == mem_after_kb - mem_before_kb,
            r.distance_metric == distance_metric,
    {
        Results { elapsed_ns, correct, total, memory_delta_kb: mem_after_kb - mem_before_kb, distance_metric }
    }

    /// Parallel overhead in nanoseconds: the CPU time that `num_threads`
    /// threads spent, minus the time of the sequential `baseline`, or zero
    /// where the baseline took longer. Formula: T(n) * n - T(1).
    pub fn parallel_overhead(&self, baseline: &Results, num_threads: usize) -> (overhead: u128)
        requires
            self.elapsed_ns * num_threads <= max_duration_ns(),
        ensures
            overhead == (if self.elapsed_ns * num_threads >= baseline.elapsed_ns {
                self.elapsed_ns * num_threads - baseline.elapsed_ns
            } else {
                0
            }),
    {
        let total_cpu = self.elapsed_ns * (num_threads as u128);
        if total_cpu >= baseline.elapsed_ns {
            total_cpu - baseline.elapsed_ns
        } else {
            0
        }
    }
}

#[verifier::external_type_specification]
#[verifier::external_body]
pub struct ExInstant(Instant);

#[verifier::external_type_specification]
#[verifier::external_body]
pub struct ExPid(Pid);

#[verifier::external_type_specification]
#[verifier::external_body]
pub struct ExSystem(System);

#[verifier::external_type_specification]
#[verifier::external_body]
pub struct ExProcess(Process);

/// `Instant::now`: the current reading of the monotonic clock. It depends on
/// the time alone, so nothing is stated of it.
#[verifier::external_body]
pub(crate) fn clock_now() -> Instant {
    Instant::now()
}

/// `Instant::elapsed`: the time passed since `start`. It depends on the
/// time alone, so nothing is stated of it.
#[verifier::external_body]
pub(crate) fn clock_elapsed(start: &Instant) -> Duration {
    start.elapsed()
}

/// `Duration::as_nanos`: the whole duration in nanoseconds. A `Duration` is
/// opaque here, so the contract states only the largest value it can have
/// (`Duration::MAX`: `u64::MAX` seconds and 999 999 999 nanoseconds).
#[verifier::external_body]
pub(crate) fn duration_nanos(d: &Duration) -> (ns: u128)
    ensures
        ns <= max_duration_ns(),
{
    d.as_nanos()
}

/// `sysinfo::get_current_pid`: the id of this process, or `None` where the
/// platform is not supported. It depends on the machine, so nothing more is stated.
#[verifier::external_body]
fn current_pid() -> Option<Pid> {
    sysinfo::get_current_pid().ok()
}

/// `System::new`: a record of the system with nothing loaded.
#[verifier::external_body]
fn new_system() -> System {
    System::new()
}

/// `System::refresh_process`: reloads what the record holds of process `pid`
/// and tells whether it exists. It reads the machine, so nothing is stated.
#[verifier::external_body]
fn refresh_process(sys: &mut System, pid: Pid) -> bool {
    sys.refresh_process(pid)
}

/// `System::process`: the loaded record of process `pid`, if any. It depends
/// on what the machine reported, so nothing is stated.
#[verifier::external_body]
fn find_process(sys: &System, pid: Pid) -> Option<&Process> {
    sys.process(pid)
}

/// `Process::memory`: the resident memory of the process in bytes. It depends
/// on the machine, so nothing is stated.
#[verifier::external_body]
fn resident_memory_bytes(process: &Process) -> u64 {
    process.memory()
}

/// Resident memory in whole KB for a reading in bytes, or 0 where there is
/// no reading.
pub fn memory_kb(resident_bytes: Option<u64>) -> (kb: i64)
    ensures
        kb == (match resident_bytes {
            Some(bytes) => (bytes / 1024) as int,
            None => 0,
        }),
{
    match resident_bytes {
        Some(bytes) => (bytes / 1024) as i64,
        None => 0,
    }
}

/// Snapshot of the resident memory of this process, in KB (0 where the
/// platform or the process record is not available). The reading comes
/// from the machine, so only its range is stated; `memory_kb` states how
/// a reading becomes KB.
pub fn process_memory_kb() -> (kb: i64)
    ensures
        0 <= kb <= u64::MAX / 1024,
{
    let reading = match current_pid() {
        None => None,
        Some(pid) => {
            let mut sys = new_system();
            let _ = refresh_process(&mut sys, pid);
            match find_process(&sys, pid) {
                Some(p) => Some(resident_memory_bytes(p)),
                None => None,
            }
        },
    };
    memory_kb(reading)
}

} // verus!
