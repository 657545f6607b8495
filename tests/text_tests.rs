use testrepository::frame::safe_scan_len;
use testrepository::commands::{AnalyzeIsolationCommand, FailingCommand, RunCommand, SlowestCommand};
use testrepository::orchestrator::{run_mode, RunMode, exit_code, filter_by_patterns, intersect_ids, merge_into, run_again, tag_results, worker_tag};
use testrepository::isolation::{prefix, Minimizer, PrefixSearch};
use testrepository::model::{TestId, TestResult, TestRun};
use testrepository::text::{placeholder, parse_count, parse_list, truncate_test_name, TestrConfig};

#[test]
fn test_truncate_test_name_no_truncation_needed() {
    assert_eq!(truncate_test_name("short_test", 50, 0), "short_test");
}

#[test]
fn test_truncate_test_name_with_truncation() {
    let result = truncate_test_name("very.long.test.module.name.TestClass.test_method_name", 30, 0);
    assert_eq!(result.len(), 28);
    assert!(result.ends_with("test_method_name"));
}

#[test]
fn test_truncate_test_name_with_fail_msg() {
    let result = truncate_test_name("some.long.test.name.that.needs.truncating", 30, 15);
    assert_eq!(result.len(), 13);
    assert!(result.ends_with("truncating"));
}

#[test]
fn test_truncate_edge_case_exact_fit() {
    assert_eq!(truncate_test_name("exactly_twenty_chars", 22, 0), "exactly_twenty_chars");
}

#[test]
fn test_truncate_edge_case_very_small_max() {
    let result = truncate_test_name("some.long.test.name", 5, 0);
    assert_eq!(result.len(), 3);
    assert_eq!(result, "ame");
}

#[test]
fn test_truncate_moves_past_split_character() {
    assert_eq!(truncate_test_name("abé", 4, 0), "é");
    assert_eq!(truncate_test_name("aé", 3, 0), "");
}

#[test]
fn test_substitute_variables() {
    let config = TestrConfig {
        test_command: "python -m test $IDOPTION $LISTOPT".to_string(),
        test_id_option: Some("--load-list $IDFILE".to_string()),
        ..Default::default()
    };
    let vars = vec![
        ("IDOPTION".to_string(), "--load-list failing.list".to_string()),
        ("LISTOPT".to_string(), "--list".to_string()),
    ];
    let result = config.substitute_variables(&config.test_command, &vars);
    assert_eq!(result, "python -m test --load-list failing.list --list");
}

#[test]
fn test_substitute_nested_variables() {
    let config = TestrConfig::default();
    let vars = vec![("IDFILE".to_string(), "test_ids.txt".to_string())];
    assert_eq!(config.substitute_variables("--load-list $IDFILE", &vars), "--load-list test_ids.txt");
}

#[test]
fn test_parse_list() {
    let ids = parse_list("test1\ntest2\n\ntest3\n  test4  \n");
    assert_eq!(ids.len(), 4);
    assert_eq!(ids[0].as_str(), "test1");
    assert_eq!(ids[1].as_str(), "test2");
    assert_eq!(ids[2].as_str(), "test3");
    assert_eq!(ids[3].as_str(), "test4");
}

#[test]
fn test_analyze_isolation_command_name() {
    let cmd = AnalyzeIsolationCommand::new(None, "test_example".to_string());
    assert_eq!(cmd.name(), "analyze-isolation");
}

#[test]
fn test_run_command_name() {
    assert_eq!(RunCommand::new(None).name(), "run");
}

#[test]
fn test_command_option_builders() {
    let f = FailingCommand::with_list_only(Some("x".to_string()));
    assert!(f.list_only && !f.show_output);
    let r = RunCommand::with_failing_only(None);
    assert!(r.failing_only && r.partial);
    assert_eq!(SlowestCommand::new(None).count, 10);
    assert_eq!(SlowestCommand::with_count(None, 3).count, 3);
}

#[test]
fn test_worker_tags_and_merge() {
    assert_eq!(worker_tag(3), "worker-3");
    let mut w0 = TestRun::new("0".to_string());
    w0.add_result(TestResult::success("a").with_tag("worker-0"));
    w0.add_result(TestResult::failure("b", "x"));
    tag_results(&mut w0, &worker_tag(0));
    assert_eq!(w0.results[0].tags, vec!["worker-0".to_string()]);
    assert_eq!(w0.results[1].tags, vec!["worker-0".to_string()]);
    let mut w1 = TestRun::new("1".to_string());
    w1.add_result(TestResult::success("c"));
    tag_results(&mut w1, &worker_tag(1));
    let mut all = TestRun::new("all".to_string());
    merge_into(&mut all, &w0);
    merge_into(&mut all, &w1);
    assert_eq!(all.total_tests(), 3);
    assert_eq!(all.count_failures_filtered(&vec!["worker-0".to_string()]), 1);
    assert_eq!(all.total_tests_filtered(&vec!["worker-1".to_string()]), 1);
}

#[test]
fn test_exit_code_and_until_failure() {
    assert_eq!(exit_code(0, false), 0);
    assert_eq!(exit_code(2, false), 1);
    assert_eq!(exit_code(0, true), 1);
    assert!(run_again(true, 0));
    assert!(!run_again(true, 1));
    assert!(!run_again(false, 0));
}

#[test]
fn test_selecting_tests() {
    let ids: Vec<TestId> = ["a.one", "b.two", "a.three"].iter().map(|s| TestId::new(s)).collect();
    let keep = vec![TestId::new("a.three"), TestId::new("b.two")];
    let both = intersect_ids(&ids, &keep);
    assert_eq!(both, vec![TestId::new("b.two"), TestId::new("a.three")]);
    let picked = filter_by_patterns(&ids, &vec!["^a\\.".to_string(), "two$".to_string()]).unwrap();
    assert_eq!(picked.len(), 3);
    let picked = filter_by_patterns(&ids, &vec!["three".to_string()]).unwrap();
    assert_eq!(picked, vec![TestId::new("a.three")]);
    assert!(filter_by_patterns(&ids, &vec!["(".to_string()]).is_err());
}

#[test]
fn test_parse_count() {
    assert_eq!(parse_count("  42\n"), Some(42));
    assert_eq!(parse_count("+7"), Some(7));
    assert_eq!(parse_count("0"), Some(0));
    assert_eq!(parse_count(""), None);
    assert_eq!(parse_count("+"), None);
    assert_eq!(parse_count("4x"), None);
    assert_eq!(parse_count("-1"), None);
    assert_eq!(parse_count("18446744073709551615"), Some(u64::MAX));
    assert_eq!(parse_count("18446744073709551616"), None);
}

#[test]
fn test_isolation_search_finds_culprit() {
    let candidates: Vec<TestId> = ["a", "b", "c", "d", "e"].iter().map(|s| TestId::new(s)).collect();
    // The target fails whenever "d" runs before it.
    let fails = |set: &[TestId]| set.iter().any(|t| t.as_str() == "d");
    let mut search = PrefixSearch::new(candidates.len());
    let mut probes = 0;
    while let Some(k) = search.probe() {
        search.record(fails(&prefix(&candidates, k)));
        probes += 1;
    }
    assert_eq!(search.best, 4);
    assert!(probes <= 3);
    let mut pass = Minimizer::new(&prefix(&candidates, search.best));
    while let Some(subset) = pass.probe() {
        pass.record(fails(&subset));
    }
    assert_eq!(pass.set, vec![TestId::new("d")]);
}

#[test]
fn test_run_mode_choice() {
    assert_eq!(run_mode(true, Some(4), 8, None), RunMode::Isolated);
    assert_eq!(run_mode(false, Some(0), 8, None), RunMode::Parallel(8));
    assert_eq!(run_mode(false, Some(3), 8, Some(5)), RunMode::Parallel(3));
    assert_eq!(run_mode(false, None, 8, Some(2)), RunMode::Parallel(2));
    assert_eq!(run_mode(false, None, 8, None), RunMode::Serial);
    assert_eq!(run_mode(false, Some(1), 8, None), RunMode::Serial);
}

#[test]
fn test_placeholder_and_unicode_trim() {
    assert_eq!(placeholder("IDFILE"), "$IDFILE");
    let ids = parse_list("\u{3000}alpha\u{00A0}\n\t\r\nbeta\r\n");
    assert_eq!(ids, vec![TestId::new("alpha"), TestId::new("beta")]);
    assert_eq!(parse_count("\u{2003}12\u{2028}"), Some(12));
}

#[test]
fn test_safe_scan_len_stops_at_overrun() {
    assert_eq!(safe_scan_len(&[0xB3, 0x20, 0x00, 0x04]), 0);
    assert_eq!(safe_scan_len(b"plain text"), 10);
    assert_eq!(safe_scan_len(&[b'x', 0xB3, 0x20, 0x00, 0x04, b'y']), 1);
}
