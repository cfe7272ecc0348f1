use cribbage::util::{binomial_coefficient, decimal_string, factorial_u64, group_by, power_set};

#[test]
fn test_power_set() {
    let set = vec![1, 2, 3];
    let mut pset = power_set(&set);
    assert!(pset.next().unwrap().is_empty());
    assert_eq!(pset.next().unwrap(), vec![1]);
    assert_eq!(pset.next().unwrap(), vec![2]);
    assert_eq!(pset.next().unwrap(), vec![1, 2]);
    assert_eq!(pset.next().unwrap(), vec![3]);
    assert_eq!(pset.next().unwrap(), vec![1, 3]);
    assert_eq!(pset.next().unwrap(), vec![2, 3]);
    assert_eq!(pset.next().unwrap(), vec![1, 2, 3]);
    assert!(pset.next().is_none());
}

#[test]
fn power_set_has_two_to_the_n_subsets() {
    for n in 0..10usize {
        let items: Vec<usize> = (0..n).collect();
        let mut pset = power_set(&items);
        let mut subsets = Vec::new();
        while let Some(s) = pset.next() {
            subsets.push(s);
        }
        assert_eq!(subsets.len(), 1 << n);
        assert!(subsets[0].is_empty());
        assert_eq!(subsets[subsets.len() - 1], items);
        assert!(pset.next().is_none());
    }
}

#[test]
fn test_group_by() {
    let items = vec![1, 2, 3, 10, 11, 20];
    let by_tens = group_by(&items, |n| n / 10);
    assert_eq!(by_tens.get(&0).unwrap(), &vec![1, 2, 3]);
    assert_eq!(by_tens.get(&1).unwrap(), &vec![10, 11]);
    assert_eq!(by_tens.get(&2).unwrap(), &vec![20]);
    assert!(by_tens.get(&3).is_none());
}

#[test]
fn group_by_iterates_keys_in_ascending_order() {
    let items = vec![20, 1, 11, 2, 10, 3];
    let by_tens = group_by(&items, |n| n / 10);
    let groups: Vec<(i32, Vec<i32>)> = by_tens.into_iter().collect();
    assert_eq!(groups, vec![(0, vec![1, 2, 3]), (1, vec![11, 10]), (2, vec![20])]);
}

#[test]
fn test_binomial_coefficient() {
    assert_eq!(binomial_coefficient(0, 2), 0);
    assert_eq!(binomial_coefficient(1, 2), 0);
    assert_eq!(binomial_coefficient(2, 2), 1);
    assert_eq!(binomial_coefficient(3, 2), 3);
    assert_eq!(binomial_coefficient(4, 2), 6);
    assert_eq!(binomial_coefficient(5, 2), 10);
}

#[test]
fn binomial_coefficient_beyond_small_factorials() {
    assert_eq!(binomial_coefficient(11, 2), 55);
    assert_eq!(binomial_coefficient(13, 1), 13);
    assert_eq!(binomial_coefficient(7, 0), 1);
    assert_eq!(binomial_coefficient(8, 4), 70);
    assert_eq!(binomial_coefficient(20, 19), 20);
}

#[test]
fn binomial_coefficient_is_zero_below_m() {
    assert_eq!(binomial_coefficient(-3, -1), 0);
    assert_eq!(binomial_coefficient(30, 40), 0);
    assert_eq!(binomial_coefficient(-128, 127), 0);
}

#[test]
fn factorial_values() {
    assert_eq!(factorial_u64(0), 1);
    assert_eq!(factorial_u64(5), 120);
    assert_eq!(factorial_u64(20), 2432902008176640000);
}

#[test]
fn decimal_rendering() {
    assert_eq!(decimal_string(0), "0");
    assert_eq!(decimal_string(7), "7");
    assert_eq!(decimal_string(10), "10");
    assert_eq!(decimal_string(1234), "1234");
}
