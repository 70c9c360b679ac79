use parallel_sum::plan_chunks;

/// Sums `x` chunk by chunk along the library's plan, adding the partial sums
/// in ascending chunk order.
fn sum_reals_by_plan(x: Vec<f64>, n: usize) -> f64 {
    let mut total = 0.0;
    for (start, end) in plan_chunks(x.len(), n) {
        total += x[start..end].iter().sum::<f64>();
    }
    total
}

#[test]
fn test_single_thread_rel() {
    let numbers = vec![1.0, 2.0, 3.0, 4.0, 5.0];
    let n = 1;
    assert_eq!(sum_reals_by_plan(numbers, n), 15.0);
}

#[test]
fn test_multiple_threads_rel() {
    let x = vec![1.0, 2.0, 3.0, 4.0];
    let num_threads = 2;
    let result = sum_reals_by_plan(x, num_threads);
    assert_eq!(result, 10.0);
}

#[test]
fn test_more_threads_than_elements_rel() {
    let numbers = vec![1.0, 2.0, 3.0, 4.0, 5.0];
    let n = 10;
    assert_eq!(sum_reals_by_plan(numbers, n), 15.0);
}

#[test]
fn test_empty_vector_rel() {
    let numbers: Vec<f64> = vec![];
    let n = 4;
    assert_eq!(sum_reals_by_plan(numbers, n), 0.0);
}

#[test]
fn test_large_numbers_rel() {
    let numbers = vec![1_000_000.0, 2_000_000.0, 3_000_000.0];
    let n = 3;
    assert_eq!(sum_reals_by_plan(numbers, n), 6_000_000.0);
}

#[test]
fn test_negative_numbers_rel() {
    let numbers = vec![-1.0, -2.0, -3.0, -4.0, -5.0];
    let n = 2;
    assert_eq!(sum_reals_by_plan(numbers, n), -15.0);
}

#[test]
fn test_mixed_numbers_rel() {
    let numbers = vec![-1.0, 2.0, -3.0, 4.0, -5.0, 6.0];
    let n = 3;
    assert_eq!(sum_reals_by_plan(numbers, n), 3.0);
}

#[test]
fn test_large_vector_rel() {
    let numbers: Vec<f64> = (1..=1000).map(|x| x as f64).collect();
    let n = 4;
    let expected_sum: f64 = numbers.iter().sum();
    assert_eq!(sum_reals_by_plan(numbers, n), expected_sum);
}

#[test]
fn fractional_reals_over_three_workers() {
    let numbers = vec![-1.5, 2.0, -3.5, 4.0, -5.0, 6.5];
    assert_eq!(sum_reals_by_plan(numbers, 3), 2.5);
}

#[test]
fn reals_with_uneven_tail_chunks() {
    let numbers = vec![1.0, 2.0, 3.0, 4.0, 5.0];
    assert_eq!(sum_reals_by_plan(numbers, 4), 15.0);
}
