//! Test identifiers, statuses, single results and whole runs.

use vstd::prelude::*;

verus! {

/// Identifier of one test, compared by its text.
#[derive(Debug, Hash)]
pub struct TestId(String);

impl View for TestId {
    type V = Seq<char>;

    closed spec fn view(&self) -> Seq<char> {
        self.0@
    }
}

impl TestId {
    /// Creates an identifier that holds `id`.
    pub fn new(id: &str) -> (r: TestId)
        ensures
            r@ == id@,
    {
        TestId(id.to_owned())
    }

    /// Creates an identifier that takes over `id`.
    pub fn from_string(id: String) -> (r: TestId)
        ensures
            r@ == id@,
    {
        TestId(id)
    }

    /// The identifier's text.
    pub fn as_str(&self) -> (r: &str)
        ensures
            r@ == self@,
    {
        self.0.as_str()
    }
}

impl Clone for TestId {
    fn clone(&self) -> (r: Self)
        ensures
            r@ == self@,
    {
        TestId(self.0.clone())
    }
}

impl PartialEq for TestId {
    fn eq(&self, other: &TestId) -> (r: bool)
        ensures
            r == (self@ == other@),
    {
        self.0 == other.0
    }
}

impl vstd::std_specs::cmp::PartialEqSpecImpl for TestId {
    open spec fn obeys_eq_spec() -> bool {
        true
    }

    open spec fn eq_spec(&self, other: &TestId) -> bool {
        self@ == other@
    }
}

impl Eq for TestId {
}

/// Outcome of one test.
#[derive(Debug, Clone, Copy, PartialEq, Eq, Structural)]
pub enum TestStatus {
    Success,
    Failure,
    Error,
    Skip,
    ExpectedFailure,
    UnexpectedSuccess,
}

impl TestStatus {
    /// Failure, Error and UnexpectedSuccess count as failing.
    pub open spec fn spec_is_failure(self) -> bool {
        self is Failure || self is Error || self is UnexpectedSuccess
    }

    /// Success, Skip and ExpectedFailure count as passing.
    pub open spec fn spec_is_success(self) -> bool {
        self is Success || self is Skip || self is ExpectedFailure
    }

    /// Whether the status is a failing one.
    pub fn is_failure(&self) -> (r: bool)
        ensures
            r == self.spec_is_failure(),
    {
        match self {
            TestStatus::Failure | TestStatus::Error | TestStatus::UnexpectedSuccess => true,
            _ => false,
        }
    }

    /// Whether the status is a passing one.
    pub fn is_success(&self) -> (r: bool)
        ensures
            r == self.spec_is_success(),
    {
        match self {
            TestStatus::Success | TestStatus::Skip | TestStatus::ExpectedFailure => true,
            _ => false,
        }
    }

    /// The short lower-case name of the status.
    pub fn to_string(&self) -> (r: String)
        ensures
            r@ == status_name(*self),
    {
        match self {
            TestStatus::Success => "success".to_owned(),
            TestStatus::Failure => "failure".to_owned(),
            TestStatus::Error => "error".to_owned(),
            TestStatus::Skip => "skip".to_owned(),
            TestStatus::ExpectedFailure => "xfail".to_owned(),
            TestStatus::UnexpectedSuccess => "uxsuccess".to_owned(),
        }
    }
}

/// The short name of a status.
pub open spec fn status_name(s: TestStatus) -> Seq<char> {
    match s {
        TestStatus::Success => "success"@,
        TestStatus::Failure => "failure"@,
        TestStatus::Error => "error"@,
        TestStatus::Skip => "skip"@,
        TestStatus::ExpectedFailure => "xfail"@,
        TestStatus::UnexpectedSuccess => "uxsuccess"@,
    }
}

/// Every status is either failing or passing, never both.
pub proof fn lemma_status_classification(s: TestStatus)
    ensures
        s.spec_is_failure() != s.spec_is_success(),
{
}


/// Copies a list of strings, element by element.
pub fn copy_strings(v: &Vec<String>) -> (r: Vec<String>)
    ensures
        strs(r@) == strs(v@),
{
    let mut r: Vec<String> = Vec::new();
    let mut i: usize = 0;
    while i < v.len()
        invariant
            i <= v.len(),
            r.len() == i,
            strs(r@) == strs(v@.subrange(0, i as int)),
        decreases v.len() - i,
    {
        let ghost prev = r@;
        r.push(v[i].clone());
        i = i + 1;
        assert(r@ == prev.push(v@[i - 1]));
        assert forall|k: int| 0 <= k < i implies #[trigger] strs(r@)[k] == strs(
            v@.subrange(0, i as int),
        )[k] by {
            if k < i - 1 {
                assert(strs(prev)[k] == strs(v@.subrange(0, i - 1))[k]);
            }
        }
        assert(strs(r@) =~= strs(v@.subrange(0, i as int)));
    }
    assert(v@.subrange(0, v.len() as int) =~= v@);
    r
}

/// Copies an optional string.
pub fn copy_opt_string(v: &Option<String>) -> (r: Option<String>)
    ensures
        opt_str(r) == opt_str(*v),
{
    match v {
        Some(s) => Some(s.clone()),
        None => None,
    }
}

/// The text of an optional string.
pub open spec fn opt_str(v: Option<String>) -> Option<Seq<char>> {
    match v {
        Some(s) => Some(s@),
        None => None,
    }
}

/// The texts of a list of strings.
pub open spec fn strs(v: Seq<String>) -> Seq<Seq<char>> {
    v.map_values(|s: String| s@)
}

/// Result of one test within a run. `duration` is in milliseconds.
#[derive(Debug)]
pub struct TestResult {
    pub test_id: TestId,
    pub status: TestStatus,
    pub duration: Option<u64>,
    pub message: Option<String>,
    pub details: Option<String>,
    pub tags: Vec<String>,
}

/// The plain values of a result.
pub struct ResultView {
    pub test_id: Seq<char>,
    pub status: TestStatus,
    pub duration: Option<u64>,
    pub message: Option<Seq<char>>,
    pub details: Option<Seq<char>>,
    pub tags: Seq<Seq<char>>,
}

impl View for TestResult {
    type V = ResultView;

    open spec fn view(&self) -> ResultView {
        ResultView {
            test_id: self.test_id@,
            status: self.status,
            duration: self.duration,
            message: opt_str(self.message),
            details: opt_str(self.details),
            tags: strs(self.tags@),
        }
    }
}

impl Clone for TestResult {
    fn clone(&self) -> (r: Self)
        ensures
            r@ == self@,
    {
        TestResult {
            test_id: self.test_id.clone(),
            status: self.status,
            duration: self.duration,
            message: copy_opt_string(&self.message),
            details: copy_opt_string(&self.details),
            tags: copy_strings(&self.tags),
        }
    }
}

impl TestResult {
    /// A result with the given status and nothing else recorded.
    pub fn with_status(test_id: &str, status: TestStatus) -> (r: TestResult)
        ensures
            r@ == (ResultView {
                test_id: test_id@,
                status,
                duration: None,
                message: None,
                details: None,
                tags: seq![],
            }),
    {
        let r = TestResult {
            test_id: TestId::new(test_id),
            status,
            duration: None,
            message: None,
            details: None,
            tags: Vec::new(),
        };
        assert(r@.tags =~= seq![]);
        r
    }

    /// A passing result.
    pub fn success(test_id: &str) -> (r: TestResult)
        ensures
            r@.test_id == test_id@,
            r@.status == TestStatus::Success,
            r@.duration is None,
            r@.message is None,
            r@.details is None,
            r@.tags.len() == 0,
    {
        TestResult::with_status(test_id, TestStatus::Success)
    }

    /// A failed result with a message.
    pub fn failure(test_id: &str, message: &str) -> (r: TestResult)
        ensures
            r@.test_id == test_id@,
            r@.status == TestStatus::Failure,
            r@.duration is None,
            r@.message == Some(message@),
            r@.details is None,
            r@.tags.len() == 0,
    {
        let mut r = TestResult::with_status(test_id, TestStatus::Failure);
        r.message = Some(message.to_owned());
        r
    }

    /// A skipped result.
    pub fn skip(test_id: &str) -> (r: TestResult)
        ensures
            r@.test_id == test_id@,
            r@.status == TestStatus::Skip,
            r@.duration is None,
            r@.message is None,
            r@.details is None,
            r@.tags.len() == 0,
    {
        TestResult::with_status(test_id, TestStatus::Skip)
    }

    /// An errored result with a message.
    pub fn error(test_id: &str, message: &str) -> (r: TestResult)
        ensures
            r@.test_id == test_id@,
            r@.status == TestStatus::Error,
            r@.duration is None,
            r@.message == Some(message@),
            r@.details is None,
            r@.tags.len() == 0,
    {
        let mut r = TestResult::with_status(test_id, TestStatus::Error);
        r.message = Some(message.to_owned());
        r
    }

    /// The same result with its duration set, in milliseconds.
    pub fn with_duration(self, millis: u64) -> (r: TestResult)
        ensures
            r@ == (ResultView { duration: Some(millis), ..self@ }),
    {
        let mut r = self;
        r.duration = Some(millis);
        r
    }

    /// The same result with its details set.
    pub fn with_details(self, details: &str) -> (r: TestResult)
        ensures
            r@ == (ResultView { details: Some(details@), ..self@ }),
    {
        let mut r = self;
        r.details = Some(details.to_owned());
        r
    }

    /// The same result with one more tag at the end.
    pub fn with_tag(self, tag: &str) -> (r: TestResult)
        ensures
            r@ == (ResultView { tags: self@.tags.push(tag@), ..self@ }),
    {
        let mut r = self;
        r.tags.push(tag.to_owned());
        assert(strs(r.tags@) =~= strs(self.tags@).push(tag@));
        r
    }
}


/// A moment in UTC: whole seconds since the epoch and nanoseconds past that second.
#[derive(Debug, Clone, Copy, PartialEq, Eq, Structural)]
pub struct Timestamp {
    pub seconds: u32,
    pub nanos: u32,
}

impl Timestamp {
    /// The moment as nanoseconds since the epoch.
    pub open spec fn instant(self) -> int {
        self.seconds as int * 1_000_000_000 + self.nanos as int
    }

    /// The moment `seconds` after the epoch, plus `nanos`.
    pub fn new(seconds: u32, nanos: u32) -> (r: Timestamp)
        ensures
            r.seconds == seconds,
            r.nanos == nanos,
    {
        Timestamp { seconds, nanos }
    }
}

/// The plain values of a list of results.
pub open spec fn views(s: Seq<TestResult>) -> Seq<ResultView> {
    s.map_values(|r: TestResult| r@)
}

/// No two results share a test id.
pub open spec fn unique_ids(s: Seq<ResultView>) -> bool {
    forall|i: int, j: int|
        0 <= i < s.len() && 0 <= j < s.len() && i != j ==> #[trigger] s[i].test_id
            != #[trigger] s[j].test_id
}

/// Some result in `s` belongs to `id`.
pub open spec fn has_id(s: Seq<ResultView>, id: Seq<char>) -> bool {
    exists|i: int| 0 <= i < s.len() && #[trigger] s[i].test_id == id
}

/// The result recorded for `id`, if any.
pub open spec fn lookup(s: Seq<ResultView>, id: Seq<char>) -> Option<ResultView> {
    if has_id(s, id) {
        Some(s[choose|i: int| 0 <= i < s.len() && #[trigger] s[i].test_id == id])
    } else {
        None
    }
}

/// In a list with unique ids, the result at `i` is the one recorded for its id.
pub proof fn lemma_lookup_at(s: Seq<ResultView>, i: int)
    requires
        unique_ids(s),
        0 <= i < s.len(),
    ensures
        lookup(s, s[i].test_id) == Some(s[i]),
{
    let id = s[i].test_id;
    assert(has_id(s, id));
    let j = choose|j: int| 0 <= j < s.len() && #[trigger] s[j].test_id == id;
    assert(s[j].test_id == s[i].test_id);
}

/// A result is picked by a tag filter when the filter is empty or shares a tag with it.
pub open spec fn tag_matches(r: ResultView, filter: Seq<Seq<char>>) -> bool {
    filter.len() == 0 || exists|k: int| 0 <= k < r.tags.len() && filter.contains(#[trigger] r.tags[k])
}

/// A result is picked when the tag filter picks it and, where `failing` is given, its
/// status is failing exactly when `failing` is true.
pub open spec fn picked(r: ResultView, filter: Seq<Seq<char>>, failing: Option<bool>) -> bool {
    tag_matches(r, filter) && match failing {
        None => true,
        Some(f) => r.status.spec_is_failure() == f,
    }
}

/// How many results are picked.
pub open spec fn count_picked(s: Seq<ResultView>, filter: Seq<Seq<char>>, failing: Option<bool>) -> nat
    decreases s.len(),
{
    if s.len() == 0 {
        0
    } else {
        count_picked(s.drop_last(), filter, failing) + if picked(s.last(), filter, failing) {
            1nat
        } else {
            0nat
        }
    }
}

/// The sum of the known durations.
pub open spec fn duration_sum(s: Seq<ResultView>) -> nat
    decreases s.len(),
{
    if s.len() == 0 {
        0
    } else {
        duration_sum(s.drop_last()) + match s.last().duration {
            Some(d) => d as nat,
            None => 0nat,
        }
    }
}

/// Whether any result has a known duration.
pub open spec fn any_duration(s: Seq<ResultView>) -> bool {
    exists|i: int| 0 <= i < s.len() && (#[trigger] s[i]).duration is Some
}

/// A complete run: its id, when it ran, one result per test and its tags.
#[derive(Debug)]
pub struct TestRun {
    pub id: String,
    pub timestamp: Timestamp,
    pub results: Vec<TestResult>,
    pub tags: Vec<String>,
}

/// Relies on chrono::Utc::now, read as whole seconds and nanoseconds since the epoch.
#[verifier::external_body]
fn now() -> (r: Timestamp) {
    let t = chrono::Utc::now();
    Timestamp { seconds: t.timestamp() as u32, nanos: t.timestamp_subsec_nanos() }
}

impl TestRun {
    /// The results as plain values, in stored order.
    pub open spec fn rs(&self) -> Seq<ResultView> {
        views(self.results@)
    }

    /// Each test id occurs at most once.
    pub open spec fn wf(&self) -> bool {
        unique_ids(self.rs())
    }

    /// An empty run with the given id, stamped with the current time.
    pub fn new(id: String) -> (r: TestRun)
        ensures
            r.id@ == id@,
            r.results@.len() == 0,
            r.tags@.len() == 0,
            r.wf(),
    {
        TestRun { id, timestamp: now(), results: Vec::new(), tags: Vec::new() }
    }

    /// An empty run with the given id and time.
    pub fn new_at(id: String, timestamp: Timestamp) -> (r: TestRun)
        ensures
            r.id@ == id@,
            r.timestamp == timestamp,
            r.results@.len() == 0,
            r.tags@.len() == 0,
            r.wf(),
    {
        TestRun { id, timestamp, results: Vec::new(), tags: Vec::new() }
    }

    /// Records `result`, replacing the result already held for the same test.
    pub fn add_result(&mut self, result: TestResult)
        requires
            old(self).wf(),
        ensures
            final(self).wf(),
            final(self).id == old(self).id,
            final(self).timestamp == old(self).timestamp,
            final(self).tags == old(self).tags,
            has_id(old(self).rs(), result@.test_id) ==> exists|i: int|
                0 <= i < old(self).rs().len() && old(self).rs()[i].test_id == result@.test_id
                    && final(self).rs() == old(self).rs().update(i, result@),
            !has_id(old(self).rs(), result@.test_id) ==> final(self).rs() == old(self).rs().push(
                result@,
            ),
            forall|id: Seq<char>| #[trigger]
                lookup(final(self).rs(), id) == if id == result@.test_id {
                    Some(result@)
                } else {
                    lookup(old(self).rs(), id)
                },
    {
        put_result(&mut self.results, result);
    }

    /// The result recorded for `id`, if any.
    pub fn get(&self, id: &TestId) -> (r: Option<&TestResult>)
        requires
            self.wf(),
        ensures
            match r {
                Some(x) => lookup(self.rs(), id@) == Some(x@),
                None => lookup(self.rs(), id@) is None,
            },
    {
        match position(&self.results, id) {
            Some(i) => {
                proof {
                    lemma_lookup_at(self.rs(), i as int);
                }
                Some(&self.results[i])
            },
            None => None,
        }
    }

    /// The number of results with a failing status.
    pub fn count_failures(&self) -> (r: usize)
        ensures
            r == count_picked(self.rs(), seq![], Some(true)),
    {
        let none: Vec<String> = Vec::new();
        assert(strs(none@) =~= seq![]);
        self.count_matching(&none, Some(true))
    }

    /// The number of results with a passing status.
    pub fn count_successes(&self) -> (r: usize)
        ensures
            r == count_picked(self.rs(), seq![], Some(false)),
    {
        let none: Vec<String> = Vec::new();
        assert(strs(none@) =~= seq![]);
        self.count_matching(&none, Some(false))
    }

    /// The number of results.
    pub fn total_tests(&self) -> (r: usize)
        ensures
            r == self.rs().len(),
    {
        self.results.len()
    }

    /// The number of failing results that the tag filter picks.
    pub fn count_failures_filtered(&self, filter_tags: &Vec<String>) -> (r: usize)
        ensures
            r == count_picked(self.rs(), strs(filter_tags@), Some(true)),
    {
        self.count_matching(filter_tags, Some(true))
    }

    /// The number of passing results that the tag filter picks.
    pub fn count_successes_filtered(&self, filter_tags: &Vec<String>) -> (r: usize)
        ensures
            r == count_picked(self.rs(), strs(filter_tags@), Some(false)),
    {
        self.count_matching(filter_tags, Some(false))
    }

    /// The number of results that the tag filter picks.
    pub fn total_tests_filtered(&self, filter_tags: &Vec<String>) -> (r: usize)
        ensures
            r == count_picked(self.rs(), strs(filter_tags@), None),
    {
        self.count_matching(filter_tags, None)
    }

    fn count_matching(&self, filter_tags: &Vec<String>, failing: Option<bool>) -> (r: usize)
        ensures
            r == count_picked(self.rs(), strs(filter_tags@), failing),
    {
        let ghost f = strs(filter_tags@);
        let mut n: usize = 0;
        let mut i: usize = 0;
        while i < self.results.len()
            invariant
                i <= self.results@.len(),
                n == count_picked(self.rs().subrange(0, i as int), f, failing),
                n <= i,
                f == strs(filter_tags@),
            decreases self.results@.len() - i,
        {
            let r = &self.results[i];
            let keep = matches_filter(r, filter_tags) && match failing {
                None => true,
                Some(want) => r.status.is_failure() == want,
            };
            assert(self.rs().subrange(0, i + 1).drop_last() =~= self.rs().subrange(0, i as int));
            if keep {
                n = n + 1;
            }
            i = i + 1;
        }
        assert(self.rs().subrange(0, i as int) =~= self.rs());
        n
    }

    /// The sum of the known durations in milliseconds, or None when no result has one.
    pub fn total_duration(&self) -> (r: Option<u128>)
        ensures
            match r {
                Some(t) => any_duration(self.rs()) && t == duration_sum(self.rs()),
                None => !any_duration(self.rs()),
            },
    {
        let mut total: u128 = 0;
        let mut seen = false;
        let mut i: usize = 0;
        while i < self.results.len()
            invariant
                i <= self.results@.len(),
                total == duration_sum(self.rs().subrange(0, i as int)),
                total <= i * 0xFFFF_FFFF_FFFF_FFFFnat,
                seen == any_duration(self.rs().subrange(0, i as int)),
            decreases self.results@.len() - i,
        {
            let ghost pre = self.rs().subrange(0, i as int);
            let ghost cur = self.rs().subrange(0, i + 1);
            assert(cur.drop_last() =~= pre);
            match self.results[i].duration {
                Some(d) => {
                    assert(total + d <= (i + 1) * 0xFFFF_FFFF_FFFF_FFFFnat) by (nonlinear_arith)
                        requires
                            total <= i * 0xFFFF_FFFF_FFFF_FFFFnat,
                            d <= 0xFFFF_FFFF_FFFF_FFFFnat,
                    ;
                    total = total + d as u128;
                    seen = true;
                    assert(cur[i as int].duration is Some);
                },
                None => {
                    assert(total <= (i + 1) * 0xFFFF_FFFF_FFFF_FFFFnat) by (nonlinear_arith)
                        requires
                            total <= i * 0xFFFF_FFFF_FFFF_FFFFnat,
                    ;
                    assert(any_duration(cur) ==> any_duration(pre)) by {
                        if any_duration(cur) {
                            let k = choose|k: int| 0 <= k < cur.len() && (#[trigger] cur[k]).duration is Some;
                            assert(pre[k] == cur[k]);
                        }
                    }
                },
            }
            i = i + 1;
        }
        assert(self.rs().subrange(0, i as int) =~= self.rs());
        if seen {
            Some(total)
        } else {
            None
        }
    }

    /// The ids of the failing results, in stored order.
    pub fn get_failing_tests(&self) -> (r: Vec<TestId>)
        ensures
            ids_of(r@) == failing_ids(self.rs()),
    {
        let mut out: Vec<TestId> = Vec::new();
        let mut i: usize = 0;
        while i < self.results.len()
            invariant
                i <= self.results@.len(),
                ids_of(out@) == failing_ids(self.rs().subrange(0, i as int)),
            decreases self.results@.len() - i,
        {
            assert(self.rs().subrange(0, i + 1).drop_last() =~= self.rs().subrange(0, i as int));
            if self.results[i].status.is_failure() {
                let ghost before = out@;
                out.push(self.results[i].test_id.clone());
                assert(ids_of(out@) =~= ids_of(before).push(self.rs()[i as int].test_id));
            }
            i = i + 1;
        }
        assert(self.rs().subrange(0, i as int) =~= self.rs());
        out
    }
}

/// The ids of the failing results, in order.
pub open spec fn failing_ids(s: Seq<ResultView>) -> Seq<Seq<char>>
    decreases s.len(),
{
    if s.len() == 0 {
        seq![]
    } else if s.last().status.spec_is_failure() {
        failing_ids(s.drop_last()).push(s.last().test_id)
    } else {
        failing_ids(s.drop_last())
    }
}

/// The position of the result for `id` in `v`, if there is one.
pub fn position(v: &Vec<TestResult>, id: &TestId) -> (r: Option<usize>)
    ensures
        match r {
            Some(i) => i < v@.len() && views(v@)[i as int].test_id == id@,
            None => !has_id(views(v@), id@),
        },
{
    let mut i: usize = 0;
    while i < v.len()
        invariant
            i <= v@.len(),
            forall|k: int| 0 <= k < i ==> #[trigger] views(v@)[k].test_id != id@,
        decreases v@.len() - i,
    {
        if v[i].test_id == *id {
            return Some(i);
        }
        i = i + 1;
    }
    None
}

/// Stores `result` in `v`, in place of the entry for the same test or else at the end.
pub fn put_result(v: &mut Vec<TestResult>, result: TestResult)
    requires
        unique_ids(views(old(v)@)),
    ensures
        unique_ids(views(final(v)@)),
        has_id(views(old(v)@), result@.test_id) ==> exists|i: int|
            0 <= i < old(v)@.len() && views(old(v)@)[i].test_id == result@.test_id
                && views(final(v)@) == views(old(v)@).update(i, result@),
        !has_id(views(old(v)@), result@.test_id) ==> views(final(v)@) == views(old(v)@).push(
            result@,
        ),
        forall|id: Seq<char>| #[trigger]
            lookup(views(final(v)@), id) == if id == result@.test_id {
                Some(result@)
            } else {
                lookup(views(old(v)@), id)
            },
{
    let ghost old_rs = views(v@);
    let ghost rv = result@;
    match position(v, &result.test_id) {
        Some(i) => {
            v.set(i, result);
            assert(views(v@) =~= old_rs.update(i as int, rv));
            proof {
                lemma_lookup_update(old_rs, i as int, rv);
            }
        },
        None => {
            v.push(result);
            assert(views(v@) =~= old_rs.push(rv));
            proof {
                lemma_lookup_push(old_rs, rv);
            }
        },
    }
}

/// Drops the entry for `id` from `v`, if there is one.
pub fn remove_result(v: &mut Vec<TestResult>, id: &TestId)
    requires
        unique_ids(views(old(v)@)),
    ensures
        unique_ids(views(final(v)@)),
        forall|k: Seq<char>| #[trigger]
            lookup(views(final(v)@), k) == if k == id@ {
                None
            } else {
                lookup(views(old(v)@), k)
            },
{
    let ghost old_rs = views(v@);
    match position(v, id) {
        Some(i) => {
            v.remove(i);
            assert(views(v@) =~= old_rs.remove(i as int));
            proof {
                lemma_lookup_remove(old_rs, i as int);
            }
        },
        None => {
            assert forall|k: Seq<char>| #[trigger]
                lookup(views(v@), k) == if k == id@ {
                    None
                } else {
                    lookup(old_rs, k)
                } by {
                if k == id@ {
                    assert(!has_id(old_rs, k));
                }
            }
        },
    }
}

/// Removing the entry at `i` keeps ids unique and drops only the lookup of its id.
pub proof fn lemma_lookup_remove(s: Seq<ResultView>, i: int)
    requires
        unique_ids(s),
        0 <= i < s.len(),
    ensures
        unique_ids(s.remove(i)),
        forall|id: Seq<char>| #[trigger]
            lookup(s.remove(i), id) == if id == s[i].test_id {
                None
            } else {
                lookup(s, id)
            },
{
    let t = s.remove(i);
    assert forall|a: int, b: int|
        0 <= a < t.len() && 0 <= b < t.len() && a != b implies #[trigger] t[a].test_id
        != #[trigger] t[b].test_id by {
        let a2 = if a < i { a } else { a + 1 };
        let b2 = if b < i { b } else { b + 1 };
        assert(t[a] == s[a2] && t[b] == s[b2]);
    }
    assert forall|id: Seq<char>| #[trigger]
        lookup(t, id) == if id == s[i].test_id {
            None
        } else {
            lookup(s, id)
        } by {
        if id == s[i].test_id {
            if has_id(t, id) {
                let a = choose|a: int| 0 <= a < t.len() && #[trigger] t[a].test_id == id;
                let a2 = if a < i { a } else { a + 1 };
                assert(t[a] == s[a2]);
            }
        } else if has_id(s, id) {
            let j = choose|j: int| 0 <= j < s.len() && #[trigger] s[j].test_id == id;
            lemma_lookup_at(s, j);
            let j2 = if j < i { j } else { j - 1 };
            assert(t[j2] == s[j]);
            lemma_lookup_at(t, j2);
        } else {
            if has_id(t, id) {
                let a = choose|a: int| 0 <= a < t.len() && #[trigger] t[a].test_id == id;
                let a2 = if a < i { a } else { a + 1 };
                assert(t[a] == s[a2]);
            }
        }
    }
}

/// The texts of a list of ids.
pub open spec fn ids_of(s: Seq<TestId>) -> Seq<Seq<char>> {
    s.map_values(|t: TestId| t@)
}

/// Whether the result carries a tag that the filter names; an empty filter picks everything.
fn matches_filter(result: &TestResult, filter_tags: &Vec<String>) -> (r: bool)
    ensures
        r == tag_matches(result@, strs(filter_tags@)),
{
    if filter_tags.len() == 0 {
        return true;
    }
    let ghost f = strs(filter_tags@);
    let mut k: usize = 0;
    while k < result.tags.len()
        invariant
            k <= result.tags@.len(),
            f == strs(filter_tags@),
            forall|j: int| 0 <= j < k ==> !f.contains(#[trigger] result@.tags[j]),
        decreases result.tags@.len() - k,
    {
        let mut m: usize = 0;
        while m < filter_tags.len()
            invariant
                m <= filter_tags@.len(),
                k < result.tags@.len(),
                f == strs(filter_tags@),
                forall|j: int| 0 <= j < m ==> f[j] != result@.tags[k as int],
            decreases filter_tags@.len() - m,
        {
            if filter_tags[m] == result.tags[k] {
                assert(f[m as int] == result@.tags[k as int]);
                return true;
            }
            m = m + 1;
        }
        k = k + 1;
    }
    false
}

/// Replacing the entry at `i` by `r`, which keeps its id, keeps ids unique and changes
/// only the lookup of that id.
pub proof fn lemma_lookup_update(s: Seq<ResultView>, i: int, r: ResultView)
    requires
        unique_ids(s),
        0 <= i < s.len(),
        s[i].test_id == r.test_id,
    ensures
        unique_ids(s.update(i, r)),
        forall|id: Seq<char>| #[trigger]
            lookup(s.update(i, r), id) == if id == r.test_id {
                Some(r)
            } else {
                lookup(s, id)
            },
{
    let t = s.update(i, r);
    assert forall|id: Seq<char>| #[trigger]
        lookup(t, id) == if id == r.test_id {
            Some(r)
        } else {
            lookup(s, id)
        } by {
        if id == r.test_id {
            lemma_lookup_at(t, i);
        } else {
            if has_id(s, id) {
                let j = choose|j: int| 0 <= j < s.len() && #[trigger] s[j].test_id == id;
                lemma_lookup_at(s, j);
                lemma_lookup_at(t, j);
            } else {
                assert(!has_id(t, id));
            }
        }
    }
}

/// Appending a result for a new id keeps ids unique and adds only that lookup.
pub proof fn lemma_lookup_push(s: Seq<ResultView>, r: ResultView)
    requires
        unique_ids(s),
        !has_id(s, r.test_id),
    ensures
        unique_ids(s.push(r)),
        forall|id: Seq<char>| #[trigger]
            lookup(s.push(r), id) == if id == r.test_id {
                Some(r)
            } else {
                lookup(s, id)
            },
{
    let t = s.push(r);
    assert(unique_ids(t)) by {
        assert forall|i: int, j: int|
            0 <= i < t.len() && 0 <= j < t.len() && i != j implies #[trigger] t[i].test_id
            != #[trigger] t[j].test_id by {
            if i < s.len() && j < s.len() {
                assert(s[i].test_id != s[j].test_id);
            } else if i < s.len() {
                assert(s[i].test_id != r.test_id);
            } else {
                assert(s[j].test_id != r.test_id);
            }
        }
    }
    assert forall|id: Seq<char>| #[trigger]
        lookup(t, id) == if id == r.test_id {
            Some(r)
        } else {
            lookup(s, id)
        } by {
        if id == r.test_id {
            lemma_lookup_at(t, s.len() as int);
        } else {
            if has_id(s, id) {
                let j = choose|j: int| 0 <= j < s.len() && #[trigger] s[j].test_id == id;
                lemma_lookup_at(s, j);
                lemma_lookup_at(t, j);
            } else {
                assert(!has_id(t, id));
            }
        }
    }
}

} // verus!
