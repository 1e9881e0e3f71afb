use chainlightning::order::stable_order;
use chainlightning::share::{checked_sum, pick, position_of_first_min, position_of_last_max, sum};

#[test]
fn shares_are_picked_in_proportion() {
    let shares = vec![2, 0, 3];
    let picks: Vec<Option<usize>> = (0..6).map(|pos| pick(&shares, pos)).collect();
    assert_eq!(picks, vec![Some(0), Some(0), Some(2), Some(2), Some(2), None]);
    assert_eq!(sum(&shares), 5);
}

#[test]
fn sums_that_do_not_fit_are_noticed() {
    assert_eq!(checked_sum(&vec![]), Some(0));
    assert_eq!(checked_sum(&vec![u64::MAX - 1, 1]), Some(u64::MAX));
    assert_eq!(checked_sum(&vec![u64::MAX, 1]), None);
}

#[test]
fn extremes_are_found_from_their_side() {
    let values = vec![1, 5, 5, 1];
    assert_eq!(position_of_last_max(&values), Some(2));
    assert_eq!(position_of_first_min(&values), Some(0));
    assert_eq!(position_of_last_max(&vec![]), None);
    assert_eq!(position_of_first_min(&vec![]), None);
}

#[test]
fn equal_keys_keep_their_order() {
    assert_eq!(stable_order(&vec![3, 1, 3, 1, 2]), vec![1, 3, 4, 0, 2]);
    assert_eq!(stable_order(&vec![]), Vec::<usize>::new());
}
