use vstd::prelude::*;
use crate::error::PipelineError;
use crate::partition::{get_work_intervals, partition, spans_of, splits_evenly, WorkInterval};

verus! {

/// The threads of the streaming engine: one of them aggregates, the
/// others produce samples.
#[derive(Clone, Copy, Debug, PartialEq, Eq, Structural)]
pub struct StreamingPool {
    pub threads: usize,
    pub producers: usize,
}

impl StreamingPool {
    /// A pool has at least the aggregating thread, and every other thread
    /// is a producer.
    pub open spec fn wf(&self) -> bool {
        self.threads >= 1 && self.producers == self.threads - 1
    }

    /// The pool of `threads` threads. A pool of no threads is refused.
    pub fn of(threads: usize) -> (result: Result<StreamingPool, PipelineError>)
        ensures
            result is Err <==> threads == 0,
            result matches Err(e) ==> e == PipelineError::InvalidConfiguration,
            result matches Ok(pool) ==> pool.wf() && pool.threads == threads,
    {
        if threads == 0 {
            Err(PipelineError::InvalidConfiguration)
        } else {
            Ok(StreamingPool { threads, producers: threads - 1 })
        }
    }

    /// The pool that uses one thread per CPU available to this process.
    pub fn for_host() -> (pool: StreamingPool)
        ensures
            pool.wf(),
    {
        StreamingPool::of(available_cpus()).unwrap()
    }
}

/// `num_cpus::get`: the number of logical CPUs available to the process.
/// Its documentation promises that the number is at least 1, and that is
/// all that is assumed of it here; it depends on the machine, on the
/// scheduler affinity of the thread and on cgroup limits.
#[verifier::external_body]
fn available_cpus() -> (cpus: usize)
    ensures
        cpus >= 1,
{
    num_cpus::get()
}

/// Splits the indices `0..n` evenly among as many workers as this process
/// has CPUs available: one interval per worker thread to spawn.
pub fn host_work_intervals(n: u64) -> (intervals: Vec<WorkInterval>)
    ensures
        intervals.len() >= 1,
        spans_of(intervals@) == partition(n as nat, intervals.len() as nat),
        splits_evenly(spans_of(intervals@), n as nat, intervals.len() as nat),
        forall|k: int| 0 <= k < intervals.len() ==> (#[trigger] intervals[k]).wf(),
{
    let workers: usize = available_cpus();
    let intervals = get_work_intervals(n, workers).unwrap();
    assert(spans_of(intervals@).len() == workers);
    intervals
}

} // verus!
