use parallel_pi::error::PipelineError;
use parallel_pi::pool::{host_work_intervals, StreamingPool};

#[test]
fn a_pool_keeps_one_thread_for_the_aggregator() {
    let pool = StreamingPool::of(8).unwrap();
    assert_eq!(pool.threads, 8);
    assert_eq!(pool.producers, 7);
}

#[test]
fn a_pool_of_one_thread_has_no_producer() {
    let pool = StreamingPool::of(1).unwrap();
    assert_eq!(pool, StreamingPool { threads: 1, producers: 0 });
}

#[test]
fn a_pool_of_no_threads_is_refused() {
    assert_eq!(StreamingPool::of(0), Err(PipelineError::InvalidConfiguration));
}

#[test]
fn the_largest_pool_is_accepted() {
    let pool = StreamingPool::of(usize::MAX).unwrap();
    assert_eq!(pool.producers, usize::MAX - 1);
}

#[test]
fn the_host_pool_has_a_thread_per_cpu() {
    let pool = StreamingPool::for_host();
    assert!(pool.threads >= 1);
    assert_eq!(pool.producers, pool.threads - 1);
    assert_eq!(pool.threads, num_cpus::get());
}

#[test]
fn the_host_split_has_an_interval_per_cpu() {
    let intervals = host_work_intervals(1000);
    assert!(!intervals.is_empty());
    assert_eq!(intervals.len(), num_cpus::get());
    assert_eq!(intervals[0].start, 0);
    assert_eq!(intervals[intervals.len() - 1].end, 1000);
    let mut next: u64 = 0;
    for iv in intervals.iter() {
        assert_eq!(iv.start, next);
        next = iv.end;
    }
    assert_eq!(next, 1000);
}

#[test]
fn the_host_split_of_nothing_is_all_empty() {
    let intervals = host_work_intervals(0);
    assert!(!intervals.is_empty());
    for iv in intervals.iter() {
        assert_eq!((iv.start, iv.end), (0, 0));
    }
}

#[test]
fn the_error_can_be_copied_and_compared() {
    let error = PipelineError::InvalidConfiguration;
    let copy = error;
    assert_eq!(error, copy);
    assert_eq!(format!("{:?}", copy), "InvalidConfiguration");
}
