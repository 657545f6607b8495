use testrepository::failing::FailingSet;
use testrepository::model::{TestId, TestResult, TestRun};
use testrepository::store::ResultStore;

fn run_of(results: Vec<TestResult>) -> TestRun {
    let mut run = TestRun::new("r".to_string());
    for r in results {
        run.add_result(r);
    }
    run
}

fn failing_names(store: &ResultStore) -> Vec<String> {
    let mut v: Vec<String> = store.get_failing_ids().iter().map(|t| t.as_str().to_string()).collect();
    v.sort();
    v
}

#[test]
fn test_full_run_replaces_failing() {
    let mut store = ResultStore::new();
    store.insert_run(&run_of(vec![TestResult::failure("t1", "x"), TestResult::failure("t2", "y")]), false);
    assert_eq!(failing_names(&store), vec!["t1", "t2"]);
    store.insert_run(&run_of(vec![TestResult::success("t1"), TestResult::failure("t3", "z")]), false);
    assert_eq!(failing_names(&store), vec!["t3"]);
}

#[test]
fn test_partial_run_update_failing() {
    let mut store = ResultStore::new();
    store.insert_run(&run_of(vec![TestResult::failure("t1", "x"), TestResult::failure("t2", "y")]), false);
    store.insert_run(&run_of(vec![TestResult::success("t1"), TestResult::failure("t3", "z")]), true);
    assert_eq!(failing_names(&store), vec!["t2", "t3"]);
}

#[test]
fn test_merge_overwrites_with_latest_failure() {
    let mut set = FailingSet::new();
    set.merge(&run_of(vec![TestResult::failure("t", "old")]));
    set.merge(&run_of(vec![TestResult::error("t", "new")]));
    assert_eq!(set.results.len(), 1);
    assert_eq!(set.results[0].message, Some("new".to_string()));
}

#[test]
fn test_run_ids_count_up() {
    let mut store = ResultStore::new();
    assert_eq!(store.begin_run(), 0);
    assert_eq!(store.begin_run(), 1);
    assert_eq!(store.insert_run(&run_of(vec![]), false), 2);
    assert_eq!(store.next_run, 3);
}

#[test]
fn test_times_database_updates_on_multiple_runs() {
    let mut store = ResultStore::new();
    store.insert_run(&run_of(vec![TestResult::success("a").with_duration(100), TestResult::success("b")]), false);
    store.insert_run(&run_of(vec![TestResult::success("a").with_duration(300)]), false);
    let ids = vec![TestId::new("a"), TestId::new("b"), TestId::new("c")];
    let times = store.get_durations_for(&ids);
    assert_eq!(times.len(), 1);
    assert_eq!(times[0].0.as_str(), "a");
    assert_eq!(times[0].1, 300);
}
