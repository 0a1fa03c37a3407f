use weggli::chains::{combine_results, filter_chains, group_results, retain_combinable};

#[test]
fn results_are_sorted_by_query() {
    let groups = group_results(vec![(1, 'a'), (0, 'b'), (1, 'c')], 3);
    assert_eq!(groups, vec![vec!['b'], vec!['a', 'c'], vec![]]);
}

#[test]
fn only_combinable_results_stay() {
    let same_parity = |a: &u32, b: &u32| a % 2 == b % 2;
    assert_eq!(retain_combinable(vec![1, 2, 3, 4], &vec![8], &same_parity), vec![2, 4]);
    assert_eq!(retain_combinable(vec![1, 2], &vec![], &same_parity), Vec::<u32>::new());
}

#[test]
fn two_queries_are_reduced_to_each_other() {
    let equal = |a: &u32, b: &u32| a == b;
    let kept = filter_chains(vec![vec![1, 2, 3, 2], vec![4, 3, 2]], equal);
    assert_eq!(kept, vec![vec![2, 3, 2], vec![3, 2]]);
}

#[test]
fn three_queries_need_a_partner_in_each() {
    let equal = |a: &u32, b: &u32| a == b;
    let kept = filter_chains(vec![vec![1, 2, 3], vec![1, 3, 4], vec![3, 1, 5]], equal);
    assert_eq!(kept, vec![vec![1, 3], vec![1, 3], vec![3, 1]]);
}

#[test]
fn a_query_without_results_silences_the_others() {
    let any = |_: &u32, _: &u32| true;
    let kept = filter_chains(vec![vec![1, 2], vec![], vec![3]], any);
    assert_eq!(kept, vec![Vec::<u32>::new(), vec![], vec![]]);
}

#[test]
fn a_single_query_is_not_reduced() {
    let never = |_: &u32, _: &u32| false;
    assert_eq!(filter_chains(vec![vec![1, 2]], never), vec![vec![1, 2]]);
    assert_eq!(filter_chains(Vec::<Vec<u32>>::new(), never), Vec::<Vec<u32>>::new());
}

#[test]
fn a_partner_may_be_dropped_later() {
    // Result 10 is combinable with 20 and 31, 20 with 10 alone, 31 with 10 alone: 20 goes when
    // it is paired with the third query, and 10 stays.
    let linked = |a: &u32, b: &u32| matches!((*a, *b), (10, 20) | (20, 10) | (10, 31) | (31, 10));
    let kept = filter_chains(vec![vec![10], vec![20], vec![31]], linked);
    assert_eq!(kept, vec![vec![10], vec![], vec![]]);
}

#[test]
fn mutually_combinable_results_are_shown() {
    let linked = |a: &(u32, u32), b: &(u32, u32)| a.1 == b.1;
    let results = vec![(0, (0, 7)), (1, (1, 7)), (2, (2, 7)), (0, (3, 8)), (1, (4, 8))];
    let kept = combine_results(results, 3, linked);
    assert_eq!(kept, vec![vec![(0, 7)], vec![(1, 7)], vec![(2, 7)]]);
}
