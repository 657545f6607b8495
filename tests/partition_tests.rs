use testrepository::grouping::{group_tests, partition_tests_with_grouping, TestGroups};
use testrepository::model::TestId;
use testrepository::partition::partition_tests;

fn ids(names: &[&str]) -> Vec<TestId> {
    names.iter().map(|n| TestId::new(n)).collect()
}

fn load(part: &[TestId], durations: &[(TestId, u64)]) -> u64 {
    part.iter()
        .map(|id| durations.iter().rev().find(|(t, _)| t == id).map(|(_, d)| *d).unwrap_or(0))
        .sum()
}

fn group<'a>(groups: &'a TestGroups, name: &str) -> &'a Vec<TestId> {
    let i = groups.names.iter().position(|n| n == name).unwrap();
    &groups.members[i]
}

#[test]
fn test_partition_empty() {
    let result = partition_tests(&vec![], &vec![], 4);
    assert_eq!(result.len(), 4);
    assert!(result.iter().all(|p| p.is_empty()));
}

#[test]
fn test_partition_single_worker() {
    let tests = ids(&["test1", "test2"]);
    let result = partition_tests(&tests, &vec![], 1);
    assert_eq!(result.len(), 1);
    assert_eq!(result[0].len(), 2);
}

#[test]
fn test_partition_zero_workers() {
    let tests = ids(&["test1", "test2"]);
    assert!(partition_tests(&tests, &vec![], 0).is_empty());
}

#[test]
fn test_partition_no_durations() {
    let tests = ids(&["test1", "test2", "test3", "test4", "test5"]);
    let result = partition_tests(&tests, &vec![], 2);
    assert_eq!(result.len(), 2);
    assert_eq!(result[0].len(), 3);
    assert_eq!(result[1].len(), 2);
    assert_eq!(result[0], ids(&["test1", "test3", "test5"]));
}

#[test]
fn test_partition_with_durations() {
    let tests = ids(&["fast1", "slow1", "fast2", "slow2"]);
    let durations = vec![
        (TestId::new("fast1"), 100),
        (TestId::new("fast2"), 100),
        (TestId::new("slow1"), 5000),
        (TestId::new("slow2"), 5000),
    ];
    let result = partition_tests(&tests, &durations, 2);
    assert_eq!(result.len(), 2);
    let d0 = load(&result[0], &durations);
    let d1 = load(&result[1], &durations);
    assert!(d0.abs_diff(d1) < 1000, "Partitions should be balanced");
    // Each part lands within a second of 5.1 s.
    assert!(d0.abs_diff(5100) < 1000);
    assert!(d1.abs_diff(5100) < 1000);
}

#[test]
fn test_partition_mixed_durations() {
    let tests = ids(&["known1", "unknown1", "known2", "unknown2"]);
    let durations = vec![(TestId::new("known1"), 2000), (TestId::new("known2"), 3000)];
    let result = partition_tests(&tests, &durations, 2);
    assert_eq!(result.len(), 2);
    assert!(!result[0].is_empty());
    assert!(!result[1].is_empty());
}

#[test]
fn test_partition_covers_every_test_once() {
    let tests = ids(&["a", "b", "c", "d", "e", "f", "g"]);
    let durations = vec![(TestId::new("b"), 7), (TestId::new("e"), 3)];
    for k in 1..5 {
        let result = partition_tests(&tests, &durations, k);
        assert_eq!(result.len(), k);
        let mut all: Vec<String> = result.iter().flatten().map(|t| t.as_str().to_string()).collect();
        all.sort();
        assert_eq!(all, vec!["a", "b", "c", "d", "e", "f", "g"]);
    }
}

#[test]
fn test_partition_longest_first_to_least_loaded() {
    let tests = ids(&["a", "b", "c"]);
    let durations = vec![(TestId::new("a"), 1), (TestId::new("b"), 10), (TestId::new("c"), 5)];
    let result = partition_tests(&tests, &durations, 2);
    assert_eq!(result[0], ids(&["b"]));
    assert_eq!(result[1], ids(&["c", "a"]));
}

#[test]
fn test_parallel_execution_with_worker_tags() {
    let test_ids = ids(&["test1", "test2", "test3", "test4"]);
    let partitions = partition_tests(&test_ids, &vec![], 2);
    assert_eq!(partitions.len(), 2);
    let total_tests: usize = partitions.iter().map(|p| p.len()).sum();
    assert_eq!(total_tests, 4);
    assert!(!partitions[0].is_empty());
    assert!(!partitions[1].is_empty());
    assert_eq!(partitions[0].len(), 2);
    assert_eq!(partitions[1].len(), 2);
}

#[test]
fn test_group_by_module() {
    let tests = ids(&[
        "package.module1.TestCase.test_a",
        "package.module1.TestCase.test_b",
        "package.module2.TestCase.test_c",
        "package.module2.TestOther.test_d",
    ]);
    let groups = group_tests(&tests, r"^(.*)\.[^.]+$").unwrap();
    assert_eq!(groups.names.len(), 3);
    assert_eq!(group(&groups, "package.module1.TestCase").len(), 2);
    assert_eq!(group(&groups, "package.module2.TestCase").len(), 1);
    assert_eq!(group(&groups, "package.module2.TestOther").len(), 1);
}

#[test]
fn test_group_by_test_class() {
    let tests = ids(&["test.module.TestFoo.test_a", "test.module.TestFoo.test_b", "test.module.TestBar.test_c"]);
    let groups = group_tests(&tests, r"^(.+\.\w+)\.\w+$").unwrap();
    assert_eq!(groups.names.len(), 2);
    assert_eq!(group(&groups, "test.module.TestFoo").len(), 2);
    assert_eq!(group(&groups, "test.module.TestBar").len(), 1);
}

#[test]
fn test_group_with_named_capture() {
    let tests = ids(&["tests::module1::test_a", "tests::module1::test_b", "tests::module2::test_c"]);
    let groups = group_tests(&tests, r"^tests::(?P<group>\w+)::").unwrap();
    assert_eq!(groups.names.len(), 2);
    assert_eq!(group(&groups, "module1").len(), 2);
    assert_eq!(group(&groups, "module2").len(), 1);
}

#[test]
fn test_no_match_uses_full_name() {
    let tests = ids(&["test1", "test2", "other::test3"]);
    let groups = group_tests(&tests, r"^(.+)::").unwrap();
    assert_eq!(groups.names.len(), 3);
    assert_eq!(group(&groups, "test1").len(), 1);
    assert_eq!(group(&groups, "test2").len(), 1);
    assert_eq!(group(&groups, "other").len(), 1);
}

#[test]
fn test_group_whole_match_without_groups() {
    let tests = ids(&["abc.x", "abd.y"]);
    let groups = group_tests(&tests, r"^ab").unwrap();
    assert_eq!(groups.names, vec!["ab".to_string()]);
    assert_eq!(groups.members[0].len(), 2);
}

#[test]
fn test_invalid_regex() {
    let tests = ids(&["test1"]);
    assert!(group_tests(&tests, r"^(unclosed").is_err());
}

#[test]
fn test_empty_tests() {
    let groups = group_tests(&vec![], r"^(.*)$").unwrap();
    assert_eq!(groups.names.len(), 0);
}

#[test]
fn test_partition_with_grouping_no_regex() {
    let tests = ids(&["test1", "test2"]);
    let result = partition_tests_with_grouping(&tests, &vec![], 2, None).unwrap();
    assert_eq!(result.len(), 2);
}

#[test]
fn test_partition_with_grouping_by_module() {
    let tests = ids(&[
        "module1.TestCase.test_a",
        "module1.TestCase.test_b",
        "module1.TestCase.test_c",
        "module2.TestCase.test_d",
        "module2.TestCase.test_e",
        "module3.TestCase.test_f",
    ]);
    let result = partition_tests_with_grouping(&tests, &vec![], 2, Some(r"^([^.]+)\.")).unwrap();
    assert_eq!(result.len(), 2);
    for partition in &result {
        for test in partition {
            let module = test.as_str().split('.').next().unwrap();
            for other in tests.iter().filter(|t| t.as_str().starts_with(&format!("{}.", module))) {
                assert!(partition.contains(other), "All tests from module {} should be in same partition", module);
            }
        }
    }
}

#[test]
fn test_grouping_keeps_prefix_groups_together() {
    let tests = ids(&["a.x1", "a.x2", "b.y1"]);
    for k in 1..4 {
        let result = partition_tests_with_grouping(&tests, &vec![], k, Some(r"^(.*)\.[^.]+$")).unwrap();
        assert_eq!(result.len(), k);
        for part in &result {
            assert_eq!(part.contains(&TestId::new("a.x1")), part.contains(&TestId::new("a.x2")));
        }
    }
}

#[test]
fn test_partition_with_grouping_balances_load() {
    let tests = ids(&["slow_module.test_a", "slow_module.test_b", "fast_module.test_c", "fast_module.test_d"]);
    let durations = vec![
        (TestId::new("slow_module.test_a"), 5000),
        (TestId::new("slow_module.test_b"), 5000),
        (TestId::new("fast_module.test_c"), 100),
        (TestId::new("fast_module.test_d"), 100),
    ];
    let result = partition_tests_with_grouping(&tests, &durations, 2, Some(r"^([^.]+)\.")).unwrap();
    assert_eq!(result.len(), 2);
    let total = load(&result[0], &durations) + load(&result[1], &durations);
    assert_eq!(total, 10200);
}

#[test]
fn test_partition_with_grouping_invalid_regex() {
    let tests = ids(&["test1"]);
    assert!(partition_tests_with_grouping(&tests, &vec![], 2, Some(r"^(unclosed")).is_err());
}
