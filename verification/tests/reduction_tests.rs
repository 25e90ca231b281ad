use parallel_pi::partition::get_work_intervals;

fn nth_term(n: f64) -> f64 {
    2.0 / (((4.0 * n) + 1.0) * ((4.0 * n) + 3.0))
}

fn reduce(n: u64, workers: usize) -> f64 {
    let mut partials: Vec<f64> = Vec::new();
    for iv in get_work_intervals(n, workers).unwrap() {
        let mut sum: f64 = 0.0;
        for i in iv.start..iv.end {
            sum += nth_term(i as f64);
        }
        partials.push(sum);
    }
    let mut total: f64 = 0.0;
    for partial in partials {
        total += partial;
    }
    total
}

#[test]
fn the_sum_does_not_depend_on_the_worker_count() {
    let single: f64 = reduce(1000, 1);
    let eight: f64 = reduce(1000, 8);
    assert!((single - eight).abs() < 1e-12);
    let many: f64 = reduce(1000, 33);
    assert!((single - many).abs() < 1e-12);
}

#[test]
fn a_thousand_terms_on_one_worker_approach_pi() {
    let estimate: f64 = reduce(1000, 1) * 4.0;
    assert!(estimate > 3.0);
    assert!(estimate < 3.2);
    assert!((estimate - std::f64::consts::PI).abs() < 1e-3);
    assert!(estimate < std::f64::consts::PI);
}

#[test]
fn the_first_term_is_two_thirds() {
    let estimate: f64 = reduce(1, 1);
    assert!((estimate - 2.0 / 3.0).abs() < 1e-15);
}

#[test]
fn no_terms_sum_to_zero() {
    assert_eq!(reduce(0, 4), 0.0);
}
