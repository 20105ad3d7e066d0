use binary_merge::set_ops::merge_difference;
use binary_merge::set_ops::merge_intersection;
use binary_merge::set_ops::merge_symmetric_difference;
use binary_merge::set_ops::merge_union;

#[test]
fn union_scenario() {
    let a: Vec<u64> = vec![1, 3, 5, 7];
    let b: Vec<u64> = vec![3, 4, 5, 9];
    assert_eq!(merge_union(&a, &b), vec![1, 3, 4, 5, 7, 9]);
}

#[test]
fn intersection_scenario() {
    let a: Vec<u64> = vec![1, 3, 5, 7];
    let b: Vec<u64> = vec![3, 4, 5, 9];
    assert_eq!(merge_intersection(&a, &b), vec![3, 5]);
}

#[test]
fn difference_scenario() {
    let a: Vec<u64> = vec![1, 3, 5, 7];
    let b: Vec<u64> = vec![3, 4, 5, 9];
    assert_eq!(merge_difference(&a, &b), vec![1, 7]);
}

#[test]
fn symmetric_difference_scenario() {
    let a: Vec<u64> = vec![1, 3, 5, 7];
    let b: Vec<u64> = vec![3, 4, 5, 9];
    assert_eq!(merge_symmetric_difference(&a, &b), vec![1, 4, 7, 9]);
}

#[test]
fn union_with_empty_sides() {
    let e: Vec<u64> = vec![];
    let b: Vec<u64> = vec![2, 4, 6];
    assert_eq!(merge_union(&e, &b), vec![2, 4, 6]);
    assert_eq!(merge_union(&b, &e), vec![2, 4, 6]);
    assert_eq!(merge_union(&e, &e), Vec::<u64>::new());
}

#[test]
fn intersection_of_disjoint_is_empty() {
    let a: Vec<u64> = vec![1, 3, 5];
    let b: Vec<u64> = vec![2, 4, 6];
    assert_eq!(merge_intersection(&a, &b), Vec::<u64>::new());
}

#[test]
fn difference_against_superset_is_empty() {
    let a: Vec<u64> = vec![2, 4];
    let b: Vec<u64> = vec![1, 2, 3, 4, 5];
    assert_eq!(merge_difference(&a, &b), Vec::<u64>::new());
}

#[test]
fn union_of_identical_inputs_is_the_input() {
    let a: Vec<u64> = vec![10, 20, 30, 40, 50];
    assert_eq!(merge_union(&a, &a), a);
    assert_eq!(merge_intersection(&a, &a), a);
    assert_eq!(merge_difference(&a, &a), Vec::<u64>::new());
    assert_eq!(merge_symmetric_difference(&a, &a), Vec::<u64>::new());
}

#[test]
fn skewed_sizes_merge_correctly() {
    let a: Vec<u64> = vec![500];
    let b: Vec<u64> = (0..100u64).map(|i| i * 10).collect();
    assert_eq!(merge_union(&a, &b).len(), 100);
    assert_eq!(merge_intersection(&a, &b), vec![500]);
    assert_eq!(merge_difference(&a, &b), Vec::<u64>::new());
    let c: Vec<u64> = vec![505];
    assert_eq!(merge_union(&c, &b).len(), 101);
    assert_eq!(merge_intersection(&c, &b), Vec::<u64>::new());
    assert_eq!(merge_difference(&c, &b), vec![505]);
}

#[test]
fn singletons_in_each_order() {
    let a: Vec<u64> = vec![2];
    let b: Vec<u64> = vec![7];
    assert_eq!(merge_union(&a, &b), vec![2, 7]);
    assert_eq!(merge_union(&b, &a), vec![2, 7]);
    assert_eq!(merge_symmetric_difference(&a, &b), vec![2, 7]);
}

#[test]
fn largest_keys_merge_without_overflow() {
    let a: Vec<u64> = vec![0, u64::MAX];
    let b: Vec<u64> = vec![u64::MAX - 1, u64::MAX];
    assert_eq!(merge_union(&a, &b), vec![0, u64::MAX - 1, u64::MAX]);
    assert_eq!(merge_intersection(&a, &b), vec![u64::MAX]);
}
