use weggli::matches::{
    all_different, deliver_matches, needs_combining, select_matches, Delivery, MatchRules,
    QueryMatch,
};

fn found(start_offset: usize, values: &[&str], inner: u32) -> QueryMatch<u32> {
    QueryMatch { start_offset, values: values.iter().map(|v| v.to_string()).collect(), inner }
}

fn sample() -> Vec<QueryMatch<u32>> {
    vec![
        found(0, &["a", "a"], 1),
        found(0, &["a", "b"], 2),
        found(0, &["c", "d"], 3),
        found(4, &["x"], 4),
        found(4, &["y"], 5),
    ]
}

fn ids(matches: Vec<QueryMatch<u32>>) -> Vec<u32> {
    matches.iter().map(|m| m.inner).collect()
}

#[test]
fn values_are_compared() {
    assert!(all_different(&vec![]));
    assert!(all_different(&vec!["a".to_string(), "b".to_string()]));
    assert!(!all_different(&vec!["a".to_string(), "b".to_string(), "a".to_string()]));
}

#[test]
fn without_rules_all_matches_stay() {
    let rules = MatchRules { unique: false, limit: false };
    assert_eq!(ids(select_matches(sample(), rules)), vec![1, 2, 3, 4, 5]);
}

#[test]
fn unique_drops_matches_with_equal_values() {
    let rules = MatchRules { unique: true, limit: false };
    assert_eq!(ids(select_matches(sample(), rules)), vec![2, 3, 4, 5]);
}

#[test]
fn limit_keeps_one_match_per_place() {
    let rules = MatchRules { unique: false, limit: true };
    assert_eq!(ids(select_matches(sample(), rules)), vec![1, 4]);
}

#[test]
fn a_match_that_is_not_unique_takes_no_place() {
    let rules = MatchRules { unique: true, limit: true };
    assert_eq!(ids(select_matches(sample(), rules)), vec![2, 4]);
}

#[test]
fn choosing_again_changes_nothing() {
    for (unique, limit) in [(false, false), (false, true), (true, false), (true, true)] {
        let rules = MatchRules { unique, limit };
        let once = ids(select_matches(sample(), rules));
        let twice = ids(select_matches(select_matches(sample(), rules), rules));
        assert_eq!(once, twice);
    }
}

#[test]
fn a_single_query_shows_its_matches() {
    let rules = MatchRules { unique: false, limit: true };
    let deliveries =
        deliver_matches(vec![found(0, &[], 1), found(3, &[], 2), found(3, &[], 3)], rules, "a\n\nb", 0, 1);
    let lines: Vec<(usize, u32)> = deliveries
        .into_iter()
        .map(|d| match d {
            Delivery::Show { line, found } => (line, found.inner),
            Delivery::Forward { .. } => panic!("forwarded"),
        })
        .collect();
    assert_eq!(lines, vec![(1, 1), (3, 2)]);
}

#[test]
fn several_queries_forward_their_matches() {
    let rules = MatchRules { unique: false, limit: false };
    for d in deliver_matches(vec![found(0, &[], 1)], rules, "a", 1, 2) {
        match d {
            Delivery::Forward { query_index, found } => assert_eq!((query_index, found.inner), (1, 1)),
            Delivery::Show { .. } => panic!("shown"),
        }
    }
    assert!(needs_combining(2));
    assert!(!needs_combining(1));
    assert!(!needs_combining(0));
}

#[test]
fn matches_that_are_dropped_may_begin_anywhere() {
    let rules = MatchRules { unique: true, limit: false };
    let matches = vec![found(1, &["a", "a"], 1), found(9, &["a", "a"], 2), found(2, &["a", "b"], 3)];
    let deliveries = deliver_matches(matches, rules, "ä", 0, 1);
    assert_eq!(deliveries.len(), 1);
}
