use parallel_pi::error::PipelineError;
use parallel_pi::partition::{get_work_intervals, WorkInterval};

fn bounds(intervals: &[WorkInterval]) -> Vec<(u64, u64)> {
    intervals.iter().map(|iv| (iv.start, iv.end)).collect()
}

#[test]
fn four_indices_among_three_workers() {
    let intervals = get_work_intervals(4, 3).unwrap();
    assert_eq!(bounds(&intervals), vec![(0, 2), (2, 3), (3, 4)]);
    let sizes: Vec<u64> = intervals.iter().map(|iv| iv.len()).collect();
    assert_eq!(sizes, vec![2, 1, 1]);
}

#[test]
fn no_indices_among_four_workers() {
    let intervals = get_work_intervals(0, 4).unwrap();
    assert_eq!(intervals.len(), 4);
    for iv in intervals.iter() {
        assert_eq!(iv.start, iv.end);
        assert!(iv.is_empty());
        assert_eq!(iv.len(), 0);
    }
    assert_eq!(bounds(&intervals), vec![(0, 0), (0, 0), (0, 0), (0, 0)]);
}

#[test]
fn zero_workers_are_refused() {
    let counts: Vec<u64> = vec![0, 1, 4, 1000, 1_000_000_000, u64::MAX];
    for n in counts {
        assert_eq!(get_work_intervals(n, 0), Err(PipelineError::InvalidConfiguration));
    }
}

#[test]
fn one_worker_gets_everything() {
    let intervals = get_work_intervals(1000, 1).unwrap();
    assert_eq!(bounds(&intervals), vec![(0, 1000)]);
    assert_eq!(intervals[0].len(), 1000);
    assert!(!intervals[0].is_empty());
}

#[test]
fn more_workers_than_indices() {
    let intervals = get_work_intervals(2, 5).unwrap();
    assert_eq!(bounds(&intervals), vec![(0, 1), (1, 2), (2, 2), (2, 2), (2, 2)]);
}

#[test]
fn even_division_gives_equal_shares() {
    let intervals = get_work_intervals(12, 4).unwrap();
    assert_eq!(bounds(&intervals), vec![(0, 3), (3, 6), (6, 9), (9, 12)]);
}

#[test]
fn ten_indices_among_four_workers() {
    let intervals = get_work_intervals(10, 4).unwrap();
    assert_eq!(bounds(&intervals), vec![(0, 3), (3, 6), (6, 8), (8, 10)]);
}

#[test]
fn the_largest_count_does_not_overflow() {
    let intervals = get_work_intervals(u64::MAX, 3).unwrap();
    let third: u64 = u64::MAX / 3;
    assert_eq!(bounds(&intervals), vec![(0, third), (third, 2 * third), (2 * third, u64::MAX)]);
    let seven = get_work_intervals(u64::MAX, 7).unwrap();
    assert_eq!(seven.len(), 7);
    assert_eq!(seven[0].start, 0);
    assert_eq!(seven[6].end, u64::MAX);
}

#[test]
fn every_split_is_even_and_covers_the_range() {
    let counts: Vec<u64> = vec![0, 1, 2, 3, 7, 16, 100, 101, 999, 1000];
    let pools: Vec<usize> = vec![1, 2, 3, 4, 7, 8, 16, 33];
    for n in counts.iter() {
        for workers in pools.iter() {
            let intervals = get_work_intervals(*n, *workers).unwrap();
            assert_eq!(intervals.len(), *workers);
            let floor: u64 = *n / (*workers as u64);
            let ceil: u64 = if *n % (*workers as u64) == 0 { floor } else { floor + 1 };
            let mut next: u64 = 0;
            let mut total: u64 = 0;
            for iv in intervals.iter() {
                assert_eq!(iv.start, next);
                assert!(iv.start <= iv.end);
                assert!(iv.len() == floor || iv.len() == ceil);
                total += iv.len();
                next = iv.end;
            }
            assert_eq!(next, *n);
            assert_eq!(total, *n);
            let mut indices: Vec<u64> = Vec::new();
            for iv in intervals.iter() {
                indices.extend(iv.start..iv.end);
            }
            let expected: Vec<u64> = (0..*n).collect();
            assert_eq!(indices, expected);
        }
    }
}

#[test]
fn the_larger_shares_come_first() {
    let intervals = get_work_intervals(11, 4).unwrap();
    let sizes: Vec<u64> = intervals.iter().map(|iv| iv.len()).collect();
    assert_eq!(sizes, vec![3, 3, 3, 2]);
}

#[test]
fn the_same_input_gives_the_same_split() {
    assert_eq!(get_work_intervals(1000, 8), get_work_intervals(1000, 8));
}

#[test]
fn a_backwards_interval_is_empty() {
    let iv = WorkInterval { start: 5, end: 3 };
    assert_eq!(iv.len(), 0);
    assert!(iv.is_empty());
}
