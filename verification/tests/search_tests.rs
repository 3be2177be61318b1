use subset_sum::search::find_first_combination;

fn search(nums: &[f64], target: f64) -> Option<Vec<f64>> {
    let enc: Vec<u64> = nums.iter().map(|x| x.to_bits()).collect();
    let r = find_first_combination(
        &enc,
        target.to_bits(),
        (0.0f64).to_bits(),
        |a: u64, b: u64| (f64::from_bits(a) + f64::from_bits(b)).to_bits(),
        |s: u64, t: u64| f64::from_bits(s) == f64::from_bits(t),
        |s: u64, t: u64| f64::from_bits(s) > f64::from_bits(t).abs(),
    );
    r.map(|v| v.into_iter().map(f64::from_bits).collect())
}

#[test]
fn first_match_minimality() {
    // [1, 2] is visited before [3] in index-ordered, shallowest-first order.
    assert_eq!(search(&[1.0, 2.0, 3.0], 3.0), Some(vec![1.0, 2.0]));
}

#[test]
fn no_solution_is_absent() {
    assert_eq!(search(&[2.0, 4.0, 6.0], 5.0), None);
}

#[test]
fn zero_target_matches_empty_combination() {
    assert_eq!(search(&[5.0, 7.0], 0.0), Some(vec![]));
    assert_eq!(search(&[1.0], 0.0), Some(vec![]));
}

#[test]
fn empty_input_no_solution() {
    assert_eq!(search(&[], 3.0), None);
    assert_eq!(search(&[], 0.0), Some(vec![]));
}

#[test]
fn exact_sum_of_returned_combination() {
    let nums = [0.5, 0.25, 0.75];
    let target = 1.25f64;
    let found = search(&nums, target).expect("a combination exists");
    assert_eq!(found, vec![0.5, 0.75]);
    let total: f64 = found.iter().sum();
    assert!(total == target);
}

#[test]
fn returned_combination_is_subsequence() {
    let nums = [3.0, 1.0, 4.0, 1.0, 5.0];
    let found = search(&nums, 8.0).expect("a combination exists");
    // the combination must read off nums at strictly increasing indices
    let mut at: usize = 0;
    for x in &found {
        while at < nums.len() && nums[at].to_bits() != x.to_bits() {
            at += 1;
        }
        assert!(at < nums.len());
        at += 1;
    }
}

#[test]
fn negative_target_is_found() {
    assert_eq!(search(&[-5.0], -5.0), Some(vec![-5.0]));
}

#[test]
fn branch_exceeding_target_magnitude_is_pruned() {
    assert_eq!(search(&[10.0, 1.0], 1.0), Some(vec![1.0]));
}

#[test]
fn single_element_match() {
    assert_eq!(search(&[3.0], 3.0), Some(vec![3.0]));
}

#[test]
fn duplicate_values_use_earliest_positions() {
    assert_eq!(search(&[2.0, 2.0, 2.0], 4.0), Some(vec![2.0, 2.0]));
}

#[test]
fn search_is_idempotent() {
    let nums = [1.5, 2.5, 4.0, 8.0];
    let first = search(&nums, 6.5);
    let second = search(&nums, 6.5);
    assert_eq!(first, second);
    assert_eq!(first, Some(vec![2.5, 4.0]));
}
