use subunit::types::teststatus::TestStatus as S;
use testrepository::model::{TestId, TestResult, TestRun, TestStatus, Timestamp};
use testrepository::progress::{parse_stream_with_progress, OutputFilter, ProgressAction, ProgressStatus};
use testrepository::stream::{filter_failing_tests, parse_stream, parse_stream_bytes, write_stream, CodecError};

fn result(id: &str, status: TestStatus, duration: Option<u64>, details: Option<&str>, tags: &[&str]) -> TestResult {
    TestResult {
        test_id: TestId::new(id),
        status,
        duration,
        message: details.map(|d| d.to_string()),
        details: details.map(|d| d.to_string()),
        tags: tags.iter().map(|t| t.to_string()).collect(),
    }
}

fn fixed_run() -> TestRun {
    TestRun::new_at("0".to_string(), Timestamp::new(1000000000, 0))
}

#[test]
fn test_parse_empty_stream() {
    let run = parse_stream(&[], "0".to_string()).unwrap();
    assert_eq!(run.total_tests(), 0);
}

#[test]
fn test_subunit_parse_empty_stream() {
    let empty_stream: &[u8] = &[];
    let result = parse_stream(empty_stream, "0".to_string());
    assert!(result.is_ok());
    assert_eq!(result.unwrap().total_tests(), 0);
}

#[test]
fn test_roundtrip_test_run() {
    let mut run = fixed_run();
    run.add_result(result("test1", TestStatus::Success, Some(100), None, &["worker-0"]));
    run.add_result(result("test2", TestStatus::Failure, Some(200), Some("Traceback..."), &["worker-1"]));
    let buffer = write_stream(&run).unwrap();
    let parsed = parse_stream(&buffer, "1".to_string()).unwrap();
    assert_eq!(parsed.total_tests(), 2);
    assert_eq!(parsed.count_successes(), 1);
    assert_eq!(parsed.count_failures(), 1);
}

#[test]
fn test_roundtrip_keeps_status_tags_and_duration() {
    let mut run = TestRun::new_at("0".to_string(), Timestamp::new(1000000000, 250_000_000));
    run.add_result(result("a", TestStatus::Success, Some(1234), None, &["x", "y"]));
    run.add_result(result("b", TestStatus::Error, Some(7), Some("boom"), &[]));
    run.add_result(result("c", TestStatus::Skip, None, None, &["z"]));
    run.add_result(result("d", TestStatus::ExpectedFailure, Some(0), None, &[]));
    let bytes = write_stream(&run).unwrap();
    let parsed = parse_stream(&bytes, "r".to_string()).unwrap();
    assert_eq!(parsed.total_tests(), 4);
    let a = parsed.get(&TestId::new("a")).unwrap();
    assert_eq!(a.status, TestStatus::Success);
    assert_eq!(a.duration, Some(1234));
    assert_eq!(a.tags, vec!["x".to_string(), "y".to_string()]);
    let b = parsed.get(&TestId::new("b")).unwrap();
    assert_eq!(b.status, TestStatus::Failure);
    assert_eq!(b.duration, Some(7));
    assert_eq!(b.details, Some("boom".to_string()));
    assert_eq!(b.message, Some("boom".to_string()));
    let c = parsed.get(&TestId::new("c")).unwrap();
    assert_eq!(c.duration, None);
    assert_eq!(c.tags, vec!["z".to_string()]);
    assert_eq!(parsed.get(&TestId::new("d")).unwrap().duration, Some(0));
}

#[test]
fn test_status_conversion() {
    for status in [
        TestStatus::Success,
        TestStatus::Failure,
        TestStatus::Skip,
        TestStatus::ExpectedFailure,
        TestStatus::UnexpectedSuccess,
    ] {
        let mut run = fixed_run();
        run.add_result(result("test1", status, None, None, &[]));
        let buffer = write_stream(&run).unwrap();
        let parsed = parse_stream(&buffer, "1".to_string()).unwrap();
        assert_eq!(parsed.total_tests(), 1);
        assert_eq!(parsed.results[0].status, status);
    }
}

#[test]
fn test_invalid_subunit_stream_no_panic() {
    let invalid_data: &[u8] = &[0xB2, 0x9A, 0x00, 0xFF, 0xFF, 0xFF];
    match parse_stream(invalid_data, "0".to_string()) {
        Ok(run) => assert_eq!(run.total_tests(), 0),
        Err(e) => assert_eq!(e, CodecError::InvalidTimestamp),
    }
}

#[test]
fn test_load_invalid_subunit_data() {
    let invalid_data: &[u8] = &[0xB2, 0x9A, 0x00, 0xFF, 0xFF, 0xFF];
    if let Ok(run) = parse_stream(invalid_data, "0".to_string()) {
        assert_eq!(run.total_tests(), 0);
    }
}

#[test]
fn test_parse_stream_bytes() {
    let mut run = fixed_run();
    run.add_result(result("test1", TestStatus::Success, Some(100), None, &["mmap-test"]));
    let buffer = write_stream(&run).unwrap();
    let parsed = parse_stream_bytes(&buffer, "1".to_string()).unwrap();
    assert_eq!(parsed.total_tests(), 1);
    assert_eq!(parsed.count_successes(), 1);
    let r = &parsed.results[0];
    assert_eq!(r.test_id.as_str(), "test1");
    assert!(r.tags.contains(&"mmap-test".to_string()));
    assert_eq!(parsed.id, "1");
}

#[test]
fn test_truncated_stream_keeps_complete_events() {
    let mut run = fixed_run();
    run.add_result(result("first", TestStatus::Success, Some(5), None, &[]));
    run.add_result(result("second", TestStatus::Failure, None, Some("trace"), &[]));
    let bytes = write_stream(&run).unwrap();
    let mut one = fixed_run();
    one.add_result(result("first", TestStatus::Success, Some(5), None, &[]));
    let first_len = write_stream(&one).unwrap().len();
    for cut in first_len..bytes.len() {
        let parsed = parse_stream(&bytes[..cut], "t".to_string()).unwrap();
        assert_eq!(parsed.total_tests(), 1, "cut at {}", cut);
        assert_eq!(parsed.results[0].test_id.as_str(), "first");
        assert_eq!(parsed.results[0].duration, Some(5));
    }
}

#[test]
fn test_stray_text_between_events_is_ignored() {
    let mut run = fixed_run();
    run.add_result(result("a", TestStatus::Success, None, None, &[]));
    let mut bytes = b"hello\n".to_vec();
    bytes.extend(write_stream(&run).unwrap());
    bytes.extend(b"bye\n");
    let parsed = parse_stream(&bytes, "s".to_string()).unwrap();
    assert_eq!(parsed.total_tests(), 1);
}

#[test]
fn test_write_fails_when_start_precedes_epoch() {
    let mut run = TestRun::new_at("0".to_string(), Timestamp::new(1, 0));
    run.add_result(result("a", TestStatus::Success, Some(5000), None, &[]));
    assert_eq!(write_stream(&run).unwrap_err(), CodecError::TimestampOverflow);
}

#[test]
fn test_write_fails_on_nanoseconds_beyond_encoding() {
    let mut run = TestRun::new_at("0".to_string(), Timestamp::new(10, 0x4000_0000));
    run.add_result(result("a", TestStatus::Success, None, None, &[]));
    assert_eq!(write_stream(&run).unwrap_err(), CodecError::EncodeFailed);
}

#[test]
fn test_malformed_time_is_an_error() {
    let mut run = TestRun::new_at("0".to_string(), Timestamp::new(10, 1_050_000_000));
    run.add_result(result("a", TestStatus::Success, Some(1), None, &[]));
    let bytes = write_stream(&run).unwrap();
    assert_eq!(parse_stream(&bytes, "x".to_string()).unwrap_err(), CodecError::InvalidTimestamp);
}

#[test]
fn test_filter_failing_tests() {
    let mut run = fixed_run();
    run.add_result(result("test_pass", TestStatus::Success, None, None, &["worker-0"]));
    run.add_result(result("test_fail", TestStatus::Failure, None, Some("Error details"), &["worker-1"]));
    run.add_result(result("test_uxsuccess", TestStatus::UnexpectedSuccess, None, None, &["worker-2"]));
    let full_stream = write_stream(&run).unwrap();
    let filtered = filter_failing_tests(&full_stream).unwrap();
    let parsed = parse_stream(&filtered, "filtered".to_string()).unwrap();
    assert_eq!(parsed.total_tests(), 2);
    assert_eq!(parsed.count_failures(), 2);
    assert!(parsed.get(&TestId::new("test_fail")).is_some());
    assert!(parsed.get(&TestId::new("test_uxsuccess")).is_some());
    assert!(parsed.get(&TestId::new("test_pass")).is_none());
    assert_eq!(parsed.get(&TestId::new("test_fail")).unwrap().details, Some("Error details".to_string()));
}

#[test]
fn test_progress_status_indicator() {
    assert_eq!(ProgressStatus::InProgress.indicator(), "");
    assert_eq!(ProgressStatus::Success.indicator(), "✓");
    assert_eq!(ProgressStatus::Failed.indicator(), "✗");
    assert_eq!(ProgressStatus::Skipped.indicator(), "⊘");
    assert_eq!(ProgressStatus::ExpectedFailure.indicator(), "✓");
    assert_eq!(ProgressStatus::UnexpectedSuccess.indicator(), "✗");
}

fn progress_of(actions: &[ProgressAction]) -> Vec<(String, ProgressStatus)> {
    actions
        .iter()
        .filter_map(|a| match a {
            ProgressAction::Progress(id, s) => Some((id.clone(), *s)),
            _ => None,
        })
        .collect()
}

fn output_of(actions: &[ProgressAction]) -> Vec<u8> {
    actions
        .iter()
        .flat_map(|a| match a {
            ProgressAction::Output(b) => b.clone(),
            _ => vec![],
        })
        .collect()
}

#[test]
fn test_progress_notes_start_and_finish() {
    let mut run = fixed_run();
    run.add_result(result("a", TestStatus::Success, Some(3), None, &[]));
    run.add_result(result("b", TestStatus::Failure, None, None, &[]));
    let bytes = write_stream(&run).unwrap();
    let (parsed, actions) = parse_stream_with_progress(&bytes, "p".to_string(), OutputFilter::All);
    assert_eq!(parsed.unwrap().total_tests(), 2);
    assert_eq!(
        progress_of(&actions),
        vec![
            ("a".to_string(), ProgressStatus::InProgress),
            ("a".to_string(), ProgressStatus::Success),
            ("b".to_string(), ProgressStatus::Failed),
        ]
    );
}

#[test]
fn test_progress_output_filtering() {
    let mut pass = fixed_run();
    pass.add_result(result("ok", TestStatus::Success, None, None, &[]));
    let mut fail = fixed_run();
    fail.add_result(result("bad", TestStatus::Failure, None, None, &[]));
    let mut bytes = b"noise-ok\n".to_vec();
    bytes.extend(write_stream(&pass).unwrap());
    bytes.extend(b"noise-bad\n");
    bytes.extend(write_stream(&fail).unwrap());
    let (_, all) = parse_stream_with_progress(&bytes, "p".to_string(), OutputFilter::All);
    assert_eq!(output_of(&all), b"noise-ok\nnoise-bad\n".to_vec());
    let (_, only) = parse_stream_with_progress(&bytes, "p".to_string(), OutputFilter::FailuresOnly);
    assert_eq!(output_of(&only), b"noise-bad\n".to_vec());
}

fn event(status: subunit::types::teststatus::TestStatus, id: &str) -> subunit::types::event::EventBuilder {
    subunit::types::event::Event::new(status).test_id(id)
}

#[test]
fn test_enumerated_ids_lists_only_enumeration_events() {
    let mut bytes = Vec::new();
    bytes.extend(event(S::Enumeration, "one").build().to_vec().unwrap());
    bytes.extend(b"chatter");
    bytes.extend(event(S::Success, "ran").build().to_vec().unwrap());
    bytes.extend(event(S::Enumeration, "two").build().to_vec().unwrap());
    let ids = testrepository::stream::enumerated_ids(&bytes);
    assert_eq!(ids, vec![TestId::new("one"), TestId::new("two")]);
}

#[test]
fn test_attachments_reported_for_failing_test() {
    let mut bytes = Vec::new();
    bytes.extend(
        event(S::Undefined, "t")
            .tag("w")
            .mime_type("text/plain")
            .file_content("traceback", b"boom\n")
            .build()
            .to_vec()
            .unwrap(),
    );
    bytes.extend(event(S::Undefined, "t").file_content("log", b"line\n").build().to_vec().unwrap());
    bytes.extend(event(S::Failed, "t").build().to_vec().unwrap());
    bytes.extend(event(S::Undefined, "p").file_content("traceback", b"quiet\n").build().to_vec().unwrap());
    bytes.extend(event(S::Success, "p").build().to_vec().unwrap());
    let (run, actions) = parse_stream_with_progress(&bytes, "a".to_string(), OutputFilter::FailuresOnly);
    let run = run.unwrap();
    assert_eq!(run.total_tests(), 2);
    let dashes = "-".repeat(70);
    let equals = "=".repeat(70);
    let expected = format!("FAIL: t\ntags: w\n{}\nboom\nlog: {{{{{{\nline\n}}}}}}\n\n{}\n", dashes, equals);
    assert_eq!(String::from_utf8(output_of(&actions)).unwrap(), expected);
    let (_, all) = parse_stream_with_progress(&bytes, "a".to_string(), OutputFilter::All);
    let shown = String::from_utf8(output_of(&all)).unwrap();
    assert!(shown.contains("PASSED: p\n"));
    assert!(shown.contains("quiet\n"));
}

#[test]
fn test_packet_overrunning_its_checksum_is_unreadable() {
    let mut run = fixed_run();
    run.add_result(result("kept", TestStatus::Success, None, None, &[]));
    let mut bytes = write_stream(&run).unwrap();
    bytes.extend([0xB3, 0x20, 0x00, 0x04]);
    let parsed = parse_stream(&bytes, "x".to_string()).unwrap();
    assert_eq!(parsed.total_tests(), 1);
    assert!(parse_stream(&[0xB3, 0x20, 0x00, 0x04], "y".to_string()).unwrap().results.is_empty());
    assert!(filter_failing_tests(&[0xB3, 0x20, 0x00, 0x04]).unwrap().is_empty());
    assert!(testrepository::stream::enumerated_ids(&[0xB3, 0x20, 0x00, 0x04]).is_empty());
}

#[test]
fn test_filter_copies_events_unchanged() {
    let failing = event(S::Failed, "t").route_code("r1").runnable().tag("x").build().to_vec().unwrap();
    let attachment = event(S::Undefined, "t").file_content("log", b"out").end_of_file().build().to_vec().unwrap();
    let passing = event(S::Success, "p").route_code("r2").build().to_vec().unwrap();
    let mut bytes = attachment.clone();
    bytes.extend(b"noise");
    bytes.extend(passing);
    bytes.extend(failing.clone());
    let mut expected = attachment;
    expected.extend(failing);
    assert_eq!(filter_failing_tests(&bytes).unwrap(), expected);
}

#[test]
fn test_write_fails_only_on_oversized_packet() {
    let mut run = fixed_run();
    let big = "x".repeat(5 * 1024 * 1024);
    run.add_result(result("huge", TestStatus::Failure, None, Some(&big), &[]));
    assert_eq!(write_stream(&run).unwrap_err(), CodecError::EncodeFailed);
    let mut ok = fixed_run();
    let fits = "y".repeat(4 * 1024 * 1024 - 100);
    ok.add_result(result("big", TestStatus::Failure, None, Some(&fits), &[]));
    assert!(write_stream(&ok).is_ok());
}
