use testrepository::model::{TestId, TestResult, TestRun, TestStatus, Timestamp};

fn result(id: &str, status: TestStatus) -> TestResult {
    TestResult {
        test_id: TestId::new(id),
        status,
        duration: None,
        message: None,
        details: None,
        tags: vec![],
    }
}

#[test]
fn test_test_id_creation() {
    let id = TestId::new("test.module.TestCase.test_method");
    assert_eq!(id.as_str(), "test.module.TestCase.test_method");
}

#[test]
fn test_test_status_ordering() {
    assert_eq!(TestStatus::Success, TestStatus::Success);
    assert_ne!(TestStatus::Success, TestStatus::Failure);
}

#[test]
fn test_test_id_equality() {
    let id1 = TestId::new("test1");
    let id2 = TestId::new("test1");
    let id3 = TestId::new("test2");
    assert_eq!(id1, id2);
    assert_ne!(id1, id3);
}

#[test]
fn test_test_status_is_failure() {
    assert!(TestStatus::Failure.is_failure());
    assert!(TestStatus::Error.is_failure());
    assert!(TestStatus::UnexpectedSuccess.is_failure());
    assert!(!TestStatus::Success.is_failure());
    assert!(!TestStatus::Skip.is_failure());
}

#[test]
fn test_test_status_is_success() {
    assert!(TestStatus::Success.is_success());
    assert!(TestStatus::Skip.is_success());
    assert!(TestStatus::ExpectedFailure.is_success());
    assert!(!TestStatus::Failure.is_success());
    assert!(!TestStatus::Error.is_success());
}

#[test]
fn test_every_status_is_exactly_one_kind() {
    for s in [
        TestStatus::Success,
        TestStatus::Failure,
        TestStatus::Error,
        TestStatus::Skip,
        TestStatus::ExpectedFailure,
        TestStatus::UnexpectedSuccess,
    ] {
        assert_ne!(s.is_failure(), s.is_success());
    }
}

#[test]
fn test_test_run_counts() {
    let mut run = TestRun::new("0".to_string());
    run.add_result(result("test1", TestStatus::Success));
    let mut failed = result("test2", TestStatus::Failure);
    failed.message = Some("Failed".to_string());
    run.add_result(failed);
    run.add_result(result("test3", TestStatus::Skip));
    assert_eq!(run.total_tests(), 3);
    assert_eq!(run.count_successes(), 2);
    assert_eq!(run.count_failures(), 1);
    assert_eq!(run.get_failing_tests().len(), 1);
}

#[test]
fn test_add_result_replaces_same_test() {
    let mut run = TestRun::new("0".to_string());
    run.add_result(result("t", TestStatus::Failure));
    run.add_result(result("u", TestStatus::Success));
    run.add_result(result("t", TestStatus::Success));
    assert_eq!(run.total_tests(), 2);
    assert_eq!(run.get(&TestId::new("t")).unwrap().status, TestStatus::Success);
    assert_eq!(run.results[0].test_id.as_str(), "t");
}

#[test]
fn test_test_status_display() {
    assert_eq!(TestStatus::Success.to_string(), "success");
    assert_eq!(TestStatus::Failure.to_string(), "failure");
    assert_eq!(TestStatus::Error.to_string(), "error");
    assert_eq!(TestStatus::Skip.to_string(), "skip");
    assert_eq!(TestStatus::ExpectedFailure.to_string(), "xfail");
    assert_eq!(TestStatus::UnexpectedSuccess.to_string(), "uxsuccess");
}

#[test]
fn test_result_success_constructor() {
    let result = TestResult::success("test1");
    assert_eq!(result.test_id.as_str(), "test1");
    assert_eq!(result.status, TestStatus::Success);
    assert!(result.message.is_none());
    assert!(result.duration.is_none());
}

#[test]
fn test_result_failure_constructor() {
    let result = TestResult::failure("test1", "Failed!");
    assert_eq!(result.test_id.as_str(), "test1");
    assert_eq!(result.status, TestStatus::Failure);
    assert_eq!(result.message, Some("Failed!".to_string()));
}

#[test]
fn test_result_skip_and_error_constructors() {
    assert_eq!(TestResult::skip("a").status, TestStatus::Skip);
    let e = TestResult::error("b", "boom");
    assert_eq!(e.status, TestStatus::Error);
    assert_eq!(e.message, Some("boom".to_string()));
}

#[test]
fn test_result_with_duration() {
    let result = TestResult::success("test1").with_duration(100);
    assert_eq!(result.duration, Some(100));
}

#[test]
fn test_result_with_details() {
    let result = TestResult::failure("test1", "Failed").with_details("Stack trace here");
    assert_eq!(result.details, Some("Stack trace here".to_string()));
}

#[test]
fn test_result_with_tag() {
    let result = TestResult::success("test1").with_tag("slow");
    assert_eq!(result.tags, vec!["slow"]);
}

#[test]
fn test_total_duration_no_timing() {
    let mut run = TestRun::new("0".to_string());
    run.add_result(TestResult::success("test1"));
    run.add_result(TestResult::success("test2"));
    assert_eq!(run.total_duration(), None);
}

#[test]
fn test_total_duration_with_timing() {
    let mut run = TestRun::new("0".to_string());
    run.add_result(TestResult::success("test1").with_duration(100));
    run.add_result(TestResult::success("test2").with_duration(200));
    run.add_result(TestResult::success("test3").with_duration(300));
    assert_eq!(run.total_duration(), Some(600));
}

#[test]
fn test_total_duration_partial_timing() {
    let mut run = TestRun::new("0".to_string());
    run.add_result(TestResult::success("test1").with_duration(100));
    run.add_result(TestResult::success("test2"));
    assert_eq!(run.total_duration(), Some(100));
}

#[test]
fn test_filtered_counts_empty_filter() {
    let mut run = TestRun::new("0".to_string());
    run.add_result(TestResult::success("test1").with_tag("worker-0"));
    run.add_result(TestResult::failure("test2", "Failed").with_tag("worker-1"));
    assert_eq!(run.total_tests_filtered(&vec![]), 2);
    assert_eq!(run.count_successes_filtered(&vec![]), 1);
    assert_eq!(run.count_failures_filtered(&vec![]), 1);
}

#[test]
fn test_filtered_counts_with_tags() {
    let mut run = TestRun::new("0".to_string());
    run.add_result(TestResult::success("test1").with_tag("worker-0"));
    run.add_result(TestResult::failure("test2", "Failed").with_tag("worker-0"));
    run.add_result(TestResult::success("test3").with_tag("worker-1"));
    run.add_result(TestResult::failure("test4", "Failed").with_tag("worker-1"));
    let filter = vec!["worker-0".to_string()];
    assert_eq!(run.total_tests_filtered(&filter), 2);
    assert_eq!(run.count_successes_filtered(&filter), 1);
    assert_eq!(run.count_failures_filtered(&filter), 1);
    let filter = vec!["worker-1".to_string()];
    assert_eq!(run.total_tests_filtered(&filter), 2);
    assert_eq!(run.count_successes_filtered(&filter), 1);
    assert_eq!(run.count_failures_filtered(&filter), 1);
}

#[test]
fn test_filtered_counts_no_match() {
    let mut run = TestRun::new("0".to_string());
    run.add_result(TestResult::success("test1").with_tag("worker-0"));
    let filter = vec!["worker-99".to_string()];
    assert_eq!(run.total_tests_filtered(&filter), 0);
    assert_eq!(run.count_successes_filtered(&filter), 0);
    assert_eq!(run.count_failures_filtered(&filter), 0);
}

#[test]
fn test_filtered_counts_multiple_tags() {
    let mut run = TestRun::new("0".to_string());
    run.add_result(TestResult::success("test1").with_tag("worker-0").with_tag("slow"));
    run.add_result(TestResult::success("test2").with_tag("worker-1"));
    let filter = vec!["slow".to_string()];
    assert_eq!(run.total_tests_filtered(&filter), 1);
}

#[test]
fn test_timestamp_fields() {
    let t = Timestamp::new(1000000000, 5);
    assert_eq!(t.seconds, 1000000000);
    assert_eq!(t.nanos, 5);
    let run = TestRun::new_at("7".to_string(), t);
    assert_eq!(run.timestamp, t);
    assert_eq!(run.id, "7");
}
