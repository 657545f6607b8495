//! Reading and writing the binary event stream that test runners emit.
//!
//! Bytes are split into items by the `subunit` crate; what the items mean for a run
//! (which results they record, how long each test took, when a stream is broken beyond
//! use) is decided here.

use vstd::prelude::*;
use subunit::types::stream::ScannedItem;
use subunit::types::{event::Event, file::File, number::SubunitNumber, timestamp::Timestamp as WireTime};
use crate::failing::failing_entry;
use crate::model::{
    copy_opt_string, copy_strings, has_id, lemma_lookup_push, lemma_lookup_update, lookup,
    put_result, strs, unique_ids, ResultView, TestId, TestResult, TestRun, TestStatus, Timestamp,
};

verus! {

/// After this many unreadable items in a row, reading stops.
pub const MAX_CONSECUTIVE_ERRORS: usize = 100;

/// The status field of a stream event.
#[derive(Debug, Clone, Copy, PartialEq, Eq, Structural)]
pub enum EventStatus {
    Undefined,
    Enumeration,
    InProgress,
    Success,
    UnexpectedSuccess,
    Skipped,
    Failed,
    ExpectedFailure,
}

/// The status that the protocol numbers `code` (its low three bits).
pub open spec fn status_of_code(code: u16) -> EventStatus {
    let c = code % 8;
    if c == 0 {
        EventStatus::Undefined
    } else if c == 1 {
        EventStatus::Enumeration
    } else if c == 2 {
        EventStatus::InProgress
    } else if c == 3 {
        EventStatus::Success
    } else if c == 4 {
        EventStatus::UnexpectedSuccess
    } else if c == 5 {
        EventStatus::Skipped
    } else if c == 6 {
        EventStatus::Failed
    } else {
        EventStatus::ExpectedFailure
    }
}

/// The protocol's number for a status.
pub open spec fn code_of_status(s: EventStatus) -> u16 {
    match s {
        EventStatus::Undefined => 0,
        EventStatus::Enumeration => 1,
        EventStatus::InProgress => 2,
        EventStatus::Success => 3,
        EventStatus::UnexpectedSuccess => 4,
        EventStatus::Skipped => 5,
        EventStatus::Failed => 6,
        EventStatus::ExpectedFailure => 7,
    }
}

impl EventStatus {
    /// The status that the protocol numbers `code`.
    pub fn from_code(code: u16) -> (r: EventStatus)
        ensures
            r == status_of_code(code),
    {
        let c = code % 8;
        if c == 0 {
            EventStatus::Undefined
        } else if c == 1 {
            EventStatus::Enumeration
        } else if c == 2 {
            EventStatus::InProgress
        } else if c == 3 {
            EventStatus::Success
        } else if c == 4 {
            EventStatus::UnexpectedSuccess
        } else if c == 5 {
            EventStatus::Skipped
        } else if c == 6 {
            EventStatus::Failed
        } else {
            EventStatus::ExpectedFailure
        }
    }

    /// The protocol's number for this status.
    pub fn code(&self) -> (r: u16)
        ensures
            r == code_of_status(*self),
            status_of_code(r) == *self,
    {
        match self {
            EventStatus::Undefined => 0,
            EventStatus::Enumeration => 1,
            EventStatus::InProgress => 2,
            EventStatus::Success => 3,
            EventStatus::UnexpectedSuccess => 4,
            EventStatus::Skipped => 5,
            EventStatus::Failed => 6,
            EventStatus::ExpectedFailure => 7,
        }
    }
}

/// One event of the stream: a status, and optionally a test id, a time, tags, one
/// attached file (name and content) with its mime type, an end-of-file mark, a routing
/// code and a runnable mark.
#[derive(Debug)]
pub struct StreamEvent {
    pub status: u16,
    pub test_id: Option<String>,
    pub timestamp: Option<Timestamp>,
    pub tags: Option<Vec<String>>,
    pub mime_type: Option<String>,
    pub file: Option<(String, Vec<u8>)>,
    pub eof: bool,
    pub route_code: Option<String>,
    pub runnable: bool,
}

/// The plain values of an event.
pub struct EventView {
    pub status: EventStatus,
    pub test_id: Option<Seq<char>>,
    pub timestamp: Option<Timestamp>,
    pub tags: Option<Seq<Seq<char>>>,
    pub mime_type: Option<Seq<char>>,
    pub file: Option<(Seq<char>, Seq<u8>)>,
    pub eof: bool,
    pub route_code: Option<Seq<char>>,
    pub runnable: bool,
}

/// The texts of optional tags.
pub open spec fn opt_strs(t: Option<Vec<String>>) -> Option<Seq<Seq<char>>> {
    match t {
        Some(v) => Some(strs(v@)),
        None => None,
    }
}

/// The text of an optional string.
pub open spec fn opt_text(t: Option<String>) -> Option<Seq<char>> {
    match t {
        Some(v) => Some(v@),
        None => None,
    }
}

/// The plain values of an optional attachment.
pub open spec fn opt_file(f: Option<(String, Vec<u8>)>) -> Option<(Seq<char>, Seq<u8>)> {
    match f {
        Some((n, c)) => Some((n@, c@)),
        None => None,
    }
}

impl View for StreamEvent {
    type V = EventView;

    open spec fn view(&self) -> EventView {
        EventView {
            status: status_of_code(self.status),
            test_id: opt_text(self.test_id),
            timestamp: self.timestamp,
            tags: opt_strs(self.tags),
            mime_type: opt_text(self.mime_type),
            file: opt_file(self.file),
            eof: self.eof,
            route_code: opt_text(self.route_code),
            runnable: self.runnable,
        }
    }
}

/// One item of a scanned stream: an event, stray bytes between events, or bytes that
/// could not be read as either.
#[derive(Debug)]
pub enum StreamItem {
    Event(StreamEvent),
    Bytes(Vec<u8>),
    Unknown,
}

/// The plain values of an item.
pub enum ItemView {
    Event(EventView),
    Bytes(Seq<u8>),
    Unknown,
}

impl View for StreamItem {
    type V = ItemView;

    open spec fn view(&self) -> ItemView {
        match self {
            StreamItem::Event(e) => ItemView::Event(e@),
            StreamItem::Bytes(b) => ItemView::Bytes(b@),
            StreamItem::Unknown => ItemView::Unknown,
        }
    }
}

/// The items that the `subunit` scanner finds in `bytes`.
pub uninterp spec fn scanned(bytes: Seq<u8>) -> Seq<ItemView>;

/// The text that lossy UTF-8 decoding makes of `bytes`.
pub uninterp spec fn lossy(bytes: Seq<u8>) -> Seq<char>;

/// Relies on subunit::io::sync::iter_stream to split `bytes` into events, stray bytes
/// and unreadable spans; each is carried over field by field. It is called only on
/// streams without an overrunning packet (`frame::scan_safe`), on which it returns.
#[verifier::external_body]
fn scan(bytes: &[u8]) -> (r: Vec<StreamItem>)
    requires
        crate::frame::scan_safe(bytes@),
    ensures
        r@.map_values(|i: StreamItem| i@) == scanned(bytes@),
{
    subunit::io::sync::iter_stream(bytes).map(|item| match item {
        Ok(ScannedItem::Event(e)) => StreamItem::Event(StreamEvent {
            status: e.status as u16,
            timestamp: e.timestamp.map(|t| Timestamp { seconds: t.seconds, nanos: t.nanoseconds.into() }),
            test_id: e.test_id, tags: e.tags, route_code: e.route_code, runnable: e.runnable,
            mime_type: e.file.mime_type, file: e.file.file, eof: e.file.eof,
        }),
        Ok(ScannedItem::Bytes(b)) => StreamItem::Bytes(b),
        Ok(ScannedItem::Unknown(..)) => StreamItem::Unknown,
        Err(_) => StreamItem::Unknown,
    }).collect()
}

/// The items of a stream: what the scanner finds before the first overrunning packet,
/// then one unreadable item for the rest when there is such a packet.
pub open spec fn scanned_items(bytes: Seq<u8>) -> Seq<ItemView> {
    let cut = crate::frame::walk(bytes, 0);
    scanned(bytes.subrange(0, cut)) + if cut < bytes.len() {
        seq![ItemView::Unknown]
    } else {
        Seq::<ItemView>::empty()
    }
}

/// Splits a byte stream into items, scanning only where scanning is safe.
pub(crate) fn scan_items(bytes: &[u8]) -> (r: Vec<StreamItem>)
    ensures
        item_views(r@) == scanned_items(bytes@),
{
    let cut = crate::frame::safe_scan_len(bytes);
    proof {
        crate::frame::lemma_walk_bounds(bytes@, 0);
        crate::frame::lemma_walk_prefix(bytes@, 0);
    }
    let safe = vstd::slice::slice_subrange(bytes, 0, cut);
    let mut items = scan(safe);
    let ghost first = item_views(items@);
    assert(first == scanned(bytes@.subrange(0, cut as int)));
    if cut < bytes.len() {
        items.push(StreamItem::Unknown);
        assert(item_views(items@) =~= first + seq![ItemView::Unknown]);
    } else {
        assert(item_views(items@) =~= first + Seq::<ItemView>::empty());
    }
    items
}

/// Relies on String::from_utf8_lossy, which replaces each invalid sequence.
#[verifier::external_body]
pub(crate) fn lossy_text(bytes: &Vec<u8>) -> (r: String)
    ensures
        r@ == lossy(bytes@),
{
    String::from_utf8_lossy(bytes).into_owned()
}

/// The result status that a terminal event status records; none for the others.
pub open spec fn terminal_status(s: EventStatus) -> Option<TestStatus> {
    match s {
        EventStatus::Success => Some(TestStatus::Success),
        EventStatus::Failed => Some(TestStatus::Failure),
        EventStatus::Skipped => Some(TestStatus::Skip),
        EventStatus::ExpectedFailure => Some(TestStatus::ExpectedFailure),
        EventStatus::UnexpectedSuccess => Some(TestStatus::UnexpectedSuccess),
        _ => None,
    }
}

/// A time is well formed when its nanoseconds stay below one second, or below two
/// within the last second of a minute (a leap second).
pub open spec fn valid_stamp(t: Timestamp) -> bool {
    t.nanos < 1_000_000_000 || (t.nanos < 2_000_000_000 && t.seconds % 60 == 59)
}

/// Whole milliseconds from `start` to `end`, when `end` is not earlier.
pub open spec fn elapsed_ms(start: Timestamp, end: Timestamp) -> Option<u64> {
    let d = end.instant() - start.instant();
    if d >= 0 {
        Some((d / 1_000_000) as u64)
    } else {
        None
    }
}

/// The latest start time recorded for `id`.
pub open spec fn start_of(starts: Seq<(Seq<char>, Timestamp)>, id: Seq<char>) -> Option<Timestamp>
    decreases starts.len(),
{
    if starts.len() == 0 {
        None
    } else if starts.last().0 == id {
        Some(starts.last().1)
    } else {
        start_of(starts.drop_last(), id)
    }
}

/// The tags of an event, none counting as empty.
pub open spec fn tags_or_empty(t: Option<Seq<Seq<char>>>) -> Seq<Seq<char>> {
    match t {
        Some(v) => v,
        None => seq![],
    }
}

/// The text of an event's attachment.
pub open spec fn attachment_text(f: Option<(Seq<char>, Seq<u8>)>) -> Option<Seq<char>> {
    match f {
        Some((_, c)) => Some(lossy(c)),
        None => None,
    }
}

/// The position of the result for `id`.
pub open spec fn index_of(s: Seq<ResultView>, id: Seq<char>) -> int {
    choose|i: int| 0 <= i < s.len() && #[trigger] s[i].test_id == id
}

/// Records `r`: in place of the result for the same test, or else at the end.
pub open spec fn put(s: Seq<ResultView>, r: ResultView) -> Seq<ResultView> {
    if has_id(s, r.test_id) {
        s.update(index_of(s, r.test_id), r)
    } else {
        s.push(r)
    }
}

/// What reading has gathered so far.
pub struct ParseState {
    pub results: Seq<ResultView>,
    pub starts: Seq<(Seq<char>, Timestamp)>,
    pub errors: nat,
    pub done: bool,
    pub bad_time: bool,
}

/// The state before the first item.
pub open spec fn initial_state() -> ParseState {
    ParseState { results: seq![], starts: seq![], errors: 0, done: false, bad_time: false }
}

/// The state after a malformed time: reading stops with an error.
pub open spec fn time_error(st: ParseState) -> ParseState {
    ParseState { done: true, bad_time: true, ..st }
}

/// The state after a terminal event for `id`.
pub open spec fn record(st: ParseState, id: Seq<char>, status: TestStatus, duration: Option<u64>, e: EventView) -> ParseState {
    ParseState {
        results: put(
            st.results,
            ResultView {
                test_id: id,
                status,
                duration,
                message: attachment_text(e.file),
                details: attachment_text(e.file),
                tags: tags_or_empty(e.tags),
            },
        ),
        ..st
    }
}

/// What one event changes. Start events remember their time; terminal events record a
/// result, timed from the test's start when both times are known; other events and
/// events without a test id change nothing.
pub open spec fn event_step(st: ParseState, e: EventView) -> ParseState {
    match e.test_id {
        None => st,
        Some(id) => if e.status is InProgress {
            match e.timestamp {
                None => st,
                Some(t) => if valid_stamp(t) {
                    ParseState { starts: st.starts.push((id, t)), ..st }
                } else {
                    time_error(st)
                },
            }
        } else {
            match terminal_status(e.status) {
                None => st,
                Some(status) => match (start_of(st.starts, id), e.timestamp) {
                    (Some(s), Some(t)) => if valid_stamp(t) {
                        record(st, id, status, elapsed_ms(s, t), e)
                    } else {
                        time_error(st)
                    },
                    _ => record(st, id, status, None, e),
                },
            }
        },
    }
}

/// What one item changes. Unreadable items are counted and end reading once too many
/// come in a row; anything readable resets the count.
pub open spec fn step(st: ParseState, item: ItemView) -> ParseState {
    if st.done {
        st
    } else {
        match item {
            ItemView::Unknown => ParseState {
                errors: st.errors + 1,
                done: st.errors + 1 >= MAX_CONSECUTIVE_ERRORS,
                ..st
            },
            ItemView::Bytes(_) => ParseState { errors: 0, ..st },
            ItemView::Event(e) => event_step(ParseState { errors: 0, ..st }, e),
        }
    }
}

/// The state after reading all of `items`.
pub open spec fn parse_items(items: Seq<ItemView>) -> ParseState
    decreases items.len(),
{
    if items.len() == 0 {
        initial_state()
    } else {
        step(parse_items(items.drop_last()), items.last())
    }
}

/// `put` as `put_result` performs it, on a list with unique ids.
pub proof fn lemma_put(s: Seq<ResultView>, r: ResultView)
    requires
        unique_ids(s),
    ensures
        unique_ids(put(s, r)),
        forall|id: Seq<char>| #[trigger]
            lookup(put(s, r), id) == if id == r.test_id {
                Some(r)
            } else {
                lookup(s, id)
            },
        has_id(s, r.test_id) ==> forall|i: int|
            0 <= i < s.len() && s[i].test_id == r.test_id ==> put(s, r) == s.update(i, r),
{
    if has_id(s, r.test_id) {
        let i = index_of(s, r.test_id);
        lemma_lookup_update(s, i, r);
        assert forall|j: int| 0 <= j < s.len() && s[j].test_id == r.test_id implies put(s, r) == s.update(j, r) by {
            assert(j == i);
        }
    } else {
        lemma_lookup_push(s, r);
    }
}


/// Why a stream could not be read or written.
#[derive(Debug, Clone, Copy, PartialEq, Eq, Structural)]
pub enum CodecError {
    /// An otherwise well-formed event carried a malformed time.
    InvalidTimestamp,
    /// A start time computed for writing would fall before the epoch or past the
    /// largest time the stream can carry.
    TimestampOverflow,
    /// The encoder refused an event (too large, or a time it cannot carry).
    EncodeFailed,
}

/// The starts as plain values.
pub open spec fn starts_view(v: Seq<(String, Timestamp)>) -> Seq<(Seq<char>, Timestamp)> {
    v.map_values(|p: (String, Timestamp)| (p.0@, p.1))
}

/// Whether a time is well formed.
pub fn is_valid_stamp(t: Timestamp) -> (r: bool)
    ensures
        r == valid_stamp(t),
{
    t.nanos < 1_000_000_000 || (t.nanos < 2_000_000_000 && t.seconds % 60 == 59)
}

/// Whole milliseconds from `start` to `end`, when `end` is not earlier.
pub fn elapsed(start: Timestamp, end: Timestamp) -> (r: Option<u64>)
    ensures
        r == elapsed_ms(start, end),
{
    let s: u128 = start.seconds as u128 * 1_000_000_000 + start.nanos as u128;
    let e: u128 = end.seconds as u128 * 1_000_000_000 + end.nanos as u128;
    if e >= s {
        assert((e - s) / 1_000_000 <= 0xFFFF_FFFF_FFFF_FFFFu128) by (nonlinear_arith)
            requires
                e <= 0xFFFF_FFFFu128 * 1_000_000_000 + 0xFFFF_FFFFu128,
                s <= e,
        ;
        Some(((e - s) / 1_000_000) as u64)
    } else {
        None
    }
}

/// The latest start time recorded for `id`.
fn find_start(starts: &Vec<(String, Timestamp)>, id: &String) -> (r: Option<Timestamp>)
    ensures
        r == start_of(starts_view(starts@), id@),
{
    let ghost sv = starts_view(starts@);
    let mut i: usize = starts.len();
    assert(sv.subrange(0, i as int) =~= sv);
    while i > 0
        invariant
            i <= starts@.len(),
            sv == starts_view(starts@),
            start_of(sv, id@) == start_of(sv.subrange(0, i as int), id@),
        decreases i,
    {
        assert(sv.subrange(0, i as int).drop_last() =~= sv.subrange(0, i - 1));
        if starts[i - 1].0 == *id {
            return Some(starts[i - 1].1);
        }
        i = i - 1;
    }
    None
}

/// The result status that a terminal event status records.
pub fn terminal(s: EventStatus) -> (r: Option<TestStatus>)
    ensures
        r == terminal_status(s),
{
    match s {
        EventStatus::Success => Some(TestStatus::Success),
        EventStatus::Failed => Some(TestStatus::Failure),
        EventStatus::Skipped => Some(TestStatus::Skip),
        EventStatus::ExpectedFailure => Some(TestStatus::ExpectedFailure),
        EventStatus::UnexpectedSuccess => Some(TestStatus::UnexpectedSuccess),
        _ => None,
    }
}

/// Reads a stream item by item into a run.
pub struct Parser {
    pub run: TestRun,
    pub starts: Vec<(String, Timestamp)>,
    pub errors: usize,
    pub done: bool,
    pub bad_time: bool,
}

impl Parser {
    /// What the parser has gathered.
    pub open spec fn state(&self) -> ParseState {
        ParseState {
            results: self.run.rs(),
            starts: starts_view(self.starts@),
            errors: self.errors as nat,
            done: self.done,
            bad_time: self.bad_time,
        }
    }

    /// Results have unique ids and the error count stays within its bound.
    pub open spec fn wf(&self) -> bool {
        self.run.wf() && self.errors <= MAX_CONSECUTIVE_ERRORS && (!self.done ==> self.errors
            < MAX_CONSECUTIVE_ERRORS)
    }

    /// A parser that has read nothing, filling a run with the given id.
    pub fn new(run_id: String) -> (r: Parser)
        ensures
            r.wf(),
            r.state() == initial_state(),
            r.run.id@ == run_id@,
    {
        let p = Parser { run: TestRun::new(run_id), starts: Vec::new(), errors: 0, done: false, bad_time: false };
        assert(p.run.rs() =~= seq![]);
        assert(starts_view(p.starts@) =~= seq![]);
        p
    }

    /// Reads one more item.
    pub fn feed(&mut self, item: &StreamItem)
        requires
            old(self).wf(),
        ensures
            final(self).wf(),
            final(self).state() == step(old(self).state(), item@),
            final(self).run.id == old(self).run.id,
            final(self).run.timestamp == old(self).run.timestamp,
    {
        if self.done {
            return;
        }
        match item {
            StreamItem::Unknown => {
                self.errors = self.errors + 1;
                if self.errors >= MAX_CONSECUTIVE_ERRORS {
                    self.done = true;
                }
            },
            StreamItem::Bytes(_) => {
                self.errors = 0;
            },
            StreamItem::Event(e) => {
                self.errors = 0;
                self.feed_event(e);
            },
        }
    }

    fn stop_on_time(&mut self)
        requires
            old(self).wf(),
        ensures
            final(self).wf(),
            final(self).state() == time_error(old(self).state()),
            final(self).run == old(self).run,
    {
        self.done = true;
        self.bad_time = true;
    }

    fn feed_event(&mut self, e: &StreamEvent)
        requires
            old(self).wf(),
        ensures
            final(self).wf(),
            final(self).state() == event_step(old(self).state(), e@),
            final(self).run.id == old(self).run.id,
            final(self).run.timestamp == old(self).run.timestamp,
    {
        let id = match &e.test_id {
            None => {
                return;
            },
            Some(id) => id,
        };
        let status = EventStatus::from_code(e.status);
        if status == EventStatus::InProgress {
            match e.timestamp {
                None => {},
                Some(t) => {
                    if is_valid_stamp(t) {
                        let ghost before = starts_view(self.starts@);
                        self.starts.push((id.clone(), t));
                        assert(starts_view(self.starts@) =~= before.push((id@, t)));
                    } else {
                        self.stop_on_time();
                    }
                },
            }
            return;
        }
        let st = match terminal(status) {
            None => {
                return;
            },
            Some(st) => st,
        };
        let start = find_start(&self.starts, id);
        let mut duration: Option<u64> = None;
        match (start, e.timestamp) {
            (Some(s), Some(t)) => {
                if !is_valid_stamp(t) {
                    self.stop_on_time();
                    return;
                }
                duration = elapsed(s, t);
            },
            _ => {},
        }
        let text = match &e.file {
            Some((_, content)) => Some(lossy_text(content)),
            None => None,
        };
        let tags = match &e.tags {
            Some(v) => copy_strings(v),
            None => Vec::new(),
        };
        assert(strs(tags@) == tags_or_empty(e@.tags)) by {
            if e.tags is None {
                assert(strs(tags@) =~= seq![]);
            }
        }
        let r = TestResult {
            test_id: TestId::from_string(id.clone()),
            status: st,
            duration,
            message: copy_opt_string(&text),
            details: text,
            tags,
        };
        let ghost before = self.run.rs();
        proof {
            lemma_put(before, r@);
        }
        put_result(&mut self.run.results, r);
        proof {
            if has_id(before, r@.test_id) {
                let i = choose|i: int|
                    0 <= i < before.len() && before[i].test_id == r@.test_id && self.run.rs()
                        == before.update(i, r@);
            }
        }
    }

    /// The run read so far, or the error that stopped reading.
    pub fn finish(self) -> (r: Result<TestRun, CodecError>)
        requires
            self.wf(),
        ensures
            match r {
                Ok(run) => !self.bad_time && run.wf() && run.rs() == self.state().results
                    && run.id == self.run.id,
                Err(e) => self.bad_time && e == CodecError::InvalidTimestamp,
            },
    {
        if self.bad_time {
            Err(CodecError::InvalidTimestamp)
        } else {
            Ok(self.run)
        }
    }
}

/// What reading `items` yields: the recorded results, or the error that stopped it.
pub open spec fn parse_outcome(items: Seq<ItemView>) -> Result<Seq<ResultView>, CodecError> {
    let st = parse_items(items);
    if st.bad_time {
        Err(CodecError::InvalidTimestamp)
    } else {
        Ok(st.results)
    }
}

/// The plain values of a list of items.
pub open spec fn item_views(s: Seq<StreamItem>) -> Seq<ItemView> {
    s.map_values(|i: StreamItem| i@)
}

/// Reads scanned items into a run with the given id.
pub fn parse_scanned(items: &Vec<StreamItem>, run_id: String) -> (r: Result<TestRun, CodecError>)
    ensures
        match (r, parse_outcome(item_views(items@))) {
            (Ok(run), Ok(rs)) => run.wf() && run.rs() == rs && run.id@ == run_id@,
            (Err(e), Err(f)) => e == f,
            _ => false,
        },
{
    let mut p = Parser::new(run_id);
    let mut i: usize = 0;
    while i < items.len()
        invariant
            i <= items@.len(),
            p.wf(),
            p.state() == parse_items(item_views(items@).subrange(0, i as int)),
            p.run.id@ == run_id@,
        decreases items@.len() - i,
    {
        assert(item_views(items@).subrange(0, i + 1).drop_last() =~= item_views(items@).subrange(0, i as int));
        p.feed(&items[i]);
        i = i + 1;
    }
    assert(item_views(items@).subrange(0, i as int) =~= item_views(items@));
    p.finish()
}

/// Reads a byte stream into a run with the given id.
///
/// Stray bytes and unreadable or truncated spans are no error: reading keeps what came
/// before them. Only a malformed time in a well-formed event fails.
pub fn parse_stream(bytes: &[u8], run_id: String) -> (r: Result<TestRun, CodecError>)
    ensures
        match (r, parse_outcome(scanned_items(bytes@))) {
            (Ok(run), Ok(rs)) => run.wf() && run.rs() == rs && run.id@ == run_id@,
            (Err(e), Err(f)) => e == f,
            _ => false,
        },
{
    let items = scan_items(bytes);
    parse_scanned(&items, run_id)
}

/// Reads a byte stream held in memory into a run with the given id.
pub fn parse_stream_bytes(data: &[u8], run_id: String) -> (r: Result<TestRun, CodecError>)
    ensures
        match (r, parse_outcome(scanned_items(data@))) {
            (Ok(run), Ok(rs)) => run.wf() && run.rs() == rs && run.id@ == run_id@,
            (Err(e), Err(f)) => e == f,
            _ => false,
        },
{
    parse_stream(data, run_id)
}


/// `n` unreadable items.
pub open spec fn unknowns(n: nat) -> Seq<ItemView> {
    Seq::new(n, |_i: int| ItemView::Unknown)
}

/// A stream cut short: unreadable items after a prefix (such as the torn last event of a
/// killed process) leave the results read from the prefix, and whether reading failed,
/// as they were.
pub proof fn lemma_truncated_stream(prefix: Seq<ItemView>, n: nat)
    ensures
        parse_outcome(prefix + unknowns(n)) == parse_outcome(prefix),
    decreases n,
{
    if n == 0 {
        assert(prefix + unknowns(0) =~= prefix);
    } else {
        lemma_truncated_stream(prefix, (n - 1) as nat);
        assert((prefix + unknowns(n)).drop_last() =~= prefix + unknowns((n - 1) as nat));
        assert((prefix + unknowns(n)).last() == ItemView::Unknown);
    }
}

/// The event status that writing uses for a result status; the protocol has no
/// separate status for errors, which are written as failures.
pub open spec fn wire_status(s: TestStatus) -> EventStatus {
    match s {
        TestStatus::Success => EventStatus::Success,
        TestStatus::Failure => EventStatus::Failed,
        TestStatus::Error => EventStatus::Failed,
        TestStatus::Skip => EventStatus::Skipped,
        TestStatus::ExpectedFailure => EventStatus::ExpectedFailure,
        TestStatus::UnexpectedSuccess => EventStatus::UnexpectedSuccess,
    }
}

/// The tag field that writing uses: absent for no tags.
pub open spec fn tag_field(tags: Seq<Seq<char>>) -> Option<Seq<Seq<char>>> {
    if tags.len() == 0 {
        None
    } else {
        Some(tags)
    }
}

/// The time `d` milliseconds before `t`, when the stream can carry it.
pub open spec fn minus_ms(t: Timestamp, d: u64) -> Option<Timestamp> {
    let n = t.instant() - d as int * 1_000_000;
    if n >= 0 && n / 1_000_000_000 <= 0xFFFF_FFFF {
        Some(Timestamp { seconds: (n / 1_000_000_000) as u32, nanos: (n % 1_000_000_000) as u32 })
    } else {
        None
    }
}

/// The start event written for a timed result.
pub open spec fn start_event(r: ResultView, t: Timestamp) -> EventView {
    EventView {
        status: EventStatus::InProgress,
        test_id: Some(r.test_id),
        timestamp: Some(t),
        tags: tag_field(r.tags),
        mime_type: None,
        file: None,
        eof: false,
        route_code: None,
        runnable: false,
    }
}

/// The terminal event written for a result, with its details attached as a traceback.
pub open spec fn end_event(r: ResultView, t: Timestamp) -> EventView {
    EventView {
        status: wire_status(r.status),
        test_id: Some(r.test_id),
        timestamp: Some(t),
        tags: tag_field(r.tags),
        mime_type: match r.details {
            Some(_) => Some("text/plain"@),
            None => None,
        },
        file: match r.details {
            Some(d) => Some(("traceback"@, vstd::utf8::encode_utf8(d))),
            None => None,
        },
        eof: false,
        route_code: None,
        runnable: false,
    }
}

/// The events written for one result of a run stamped `t`: a start event placed the
/// result's duration before `t` when it has one, then the terminal event.
pub open spec fn result_events(r: ResultView, t: Timestamp) -> Option<Seq<EventView>> {
    match r.duration {
        Some(d) => match minus_ms(t, d) {
            Some(s) => Some(seq![start_event(r, s), end_event(r, t)]),
            None => None,
        },
        None => Some(seq![end_event(r, t)]),
    }
}

/// The events written for a run, result after result; none when a start time cannot
/// be carried.
pub open spec fn run_events(rs: Seq<ResultView>, t: Timestamp) -> Option<Seq<EventView>>
    decreases rs.len(),
{
    if rs.len() == 0 {
        Some(seq![])
    } else {
        match (run_events(rs.drop_last(), t), result_events(rs.last(), t)) {
            (Some(a), Some(b)) => Some(a + b),
            _ => None,
        }
    }
}

/// A run whose first `k` results cannot be written cannot be written whole.
pub proof fn lemma_events_none_extends(rs: Seq<ResultView>, k: int)
    requires
        0 <= k <= rs.len(),
    ensures
        forall|t: Timestamp| run_events(rs.subrange(0, k), t) is None ==> #[trigger] run_events(rs, t) is None,
    decreases rs.len() - k,
{
    if k < rs.len() {
        lemma_events_none_extends(rs, k + 1);
        assert forall|t: Timestamp| run_events(rs.subrange(0, k), t) is None implies run_events(
            rs.subrange(0, k + 1),
            t,
        ) is None by {
            assert(rs.subrange(0, k + 1).drop_last() =~= rs.subrange(0, k));
        }
    } else {
        assert(rs.subrange(0, k) =~= rs);
    }
}

/// The bytes that the `subunit` encoder writes for an event.
pub uninterp spec fn encoded(e: EventView) -> Seq<u8>;

/// The bytes written for a list of events, one after another.
pub open spec fn encoded_all(es: Seq<EventView>) -> Seq<u8>
    decreases es.len(),
{
    if es.len() == 0 {
        seq![]
    } else {
        encoded_all(es.drop_last()) + encoded(es.last())
    }
}

/// The room a protocol number takes: one to four bytes by its size.
pub open spec fn num_size(v: nat) -> nat {
    if v <= 63 {
        1
    } else if v <= 16383 {
        2
    } else if v <= 4194303 {
        3
    } else {
        4
    }
}

/// The room a length-prefixed field of `n` bytes takes.
pub open spec fn field_size(n: nat) -> nat {
    n + num_size(n)
}

/// The room a text field takes.
pub open spec fn text_size(s: Seq<char>) -> nat {
    field_size(vstd::utf8::encode_utf8(s).len())
}

/// The room a list of text fields takes, without its count.
pub open spec fn texts_size(t: Seq<Seq<char>>) -> nat
    decreases t.len(),
{
    if t.len() == 0 {
        0
    } else {
        texts_size(t.drop_last()) + text_size(t.last())
    }
}

/// The room an optional text field takes.
pub open spec fn opt_text_size(t: Option<Seq<char>>) -> nat {
    match t {
        Some(s) => text_size(s),
        None => 0,
    }
}

/// The size of an event's packet before its own length is counted: signature, flags,
/// the fields present, and the checksum.
pub open spec fn event_size(e: EventView) -> nat {
    3 + match e.timestamp {
        Some(t) => 4 + num_size(t.nanos as nat),
        None => 0,
    } + opt_text_size(e.test_id) + match e.tags {
        Some(t) => num_size(t.len()) + texts_size(t),
        None => 0,
    } + opt_text_size(e.mime_type) + match e.file {
        Some((n, c)) => text_size(n) + field_size(c.len()),
        None => 0,
    } + opt_text_size(e.route_code) + 4
}

/// The encoder takes an event when its nanoseconds fit a protocol number and its packet
/// stays within the protocol's four-megabyte limit.
pub open spec fn encodable(e: EventView) -> bool {
    (match e.timestamp {
        Some(t) => t.nanos <= 0x3fff_ffff,
        None => true,
    }) && event_size(e) <= 4194300
}

/// Relies on subunit's Event::to_vec to encode one event, fields carried over as they
/// are. It refuses nanoseconds that do not fit a protocol number (SubunitNumber::new)
/// and packets over the size limit (Event::packet_length), and nothing else.
#[verifier::external_body]
fn encode(e: &StreamEvent) -> (r: Option<Vec<u8>>)
    ensures
        r is Some <==> encodable(e@),
        match r {
            Some(b) => b@ == encoded(e@),
            None => true,
        },
{
    let timestamp = match e.timestamp {
        Some(t) => Some(WireTime { seconds: t.seconds, nanoseconds: SubunitNumber::new(t.nanos).ok()? }),
        None => None,
    };
    let file = File { mime_type: e.mime_type.clone(), file: e.file.clone(), eof: e.eof };
    let (test_id, tags, route_code) = (e.test_id.clone(), e.tags.clone(), e.route_code.clone());
    Event { status: e.status.into(), test_id, timestamp, file, route_code, tags, runnable: e.runnable }.to_vec().ok()
}

/// The time `d` milliseconds before `t`, when the stream can carry it.
pub fn minus_millis(t: Timestamp, d: u64) -> (r: Option<Timestamp>)
    ensures
        r == minus_ms(t, d),
{
    let total: u128 = t.seconds as u128 * 1_000_000_000 + t.nanos as u128;
    let back: u128 = d as u128 * 1_000_000;
    if back > total {
        return None;
    }
    let n = total - back;
    if n / 1_000_000_000 > 0xFFFF_FFFF {
        return None;
    }
    Some(Timestamp { seconds: (n / 1_000_000_000) as u32, nanos: (n % 1_000_000_000) as u32 })
}

/// The tag field for a list of tags.
fn tag_list(tags: &Vec<String>) -> (r: Option<Vec<String>>)
    ensures
        opt_strs(r) == tag_field(strs(tags@)),
{
    if tags.len() == 0 {
        None
    } else {
        Some(copy_strings(tags))
    }
}

/// The event status that writing uses for a result status.
pub fn status_for_writing(s: TestStatus) -> (r: EventStatus)
    ensures
        r == wire_status(s),
{
    match s {
        TestStatus::Success => EventStatus::Success,
        TestStatus::Failure => EventStatus::Failed,
        TestStatus::Error => EventStatus::Failed,
        TestStatus::Skip => EventStatus::Skipped,
        TestStatus::ExpectedFailure => EventStatus::ExpectedFailure,
        TestStatus::UnexpectedSuccess => EventStatus::UnexpectedSuccess,
    }
}

fn make_start_event(r: &TestResult, t: Timestamp) -> (e: StreamEvent)
    ensures
        e@ == start_event(r@, t),
{
    let e = StreamEvent {
        status: EventStatus::InProgress.code(),
        test_id: Some(r.test_id.as_str().to_owned()),
        timestamp: Some(t),
        tags: tag_list(&r.tags),
        mime_type: None,
        file: None,
        eof: false,
        route_code: None,
        runnable: false,
    };
    e
}

fn make_end_event(r: &TestResult, t: Timestamp) -> (e: StreamEvent)
    ensures
        e@ == end_event(r@, t),
{
    let (mime_type, file) = match &r.details {
        Some(d) => (
            Some("text/plain".to_owned()),
            Some(("traceback".to_owned(), vstd::slice::slice_to_vec(d.as_str().as_bytes()))),
        ),
        None => (None, None),
    };
    StreamEvent {
        status: status_for_writing(r.status).code(),
        test_id: Some(r.test_id.as_str().to_owned()),
        timestamp: Some(t),
        tags: tag_list(&r.tags),
        mime_type,
        file,
        eof: false,
        route_code: None,
        runnable: false,
    }
}

/// Appends the encoding of `e`, or fails when the encoder refuses it.
fn append_encoded(out: &mut Vec<u8>, e: &StreamEvent) -> (ok: bool)
    ensures
        ok <==> encodable(e@),
        ok ==> final(out)@ == old(out)@ + encoded(e@),
{
    match encode(e) {
        Some(b) => {
            let mut i: usize = 0;
            let ghost start = out@;
            while i < b.len()
                invariant
                    i <= b@.len(),
                    out@ == start + b@.subrange(0, i as int),
                decreases b@.len() - i,
            {
                out.push(b[i]);
                i = i + 1;
                assert(out@ =~= start + b@.subrange(0, i as int));
            }
            assert(b@.subrange(0, i as int) =~= b@);
            true
        },
        None => false,
    }
}

/// Writes a run as a byte stream.
///
/// Each result is written as its events (see `result_events`), in stored order. Writing
/// fails when a start time would fall outside what the stream carries, or when the
/// encoder refuses an event; it never drops a result.
pub fn write_stream(run: &TestRun) -> (r: Result<Vec<u8>, CodecError>)
    ensures
        match r {
            Ok(b) => run_events(run.rs(), run.timestamp) is Some && b@ == encoded_all(
                run_events(run.rs(), run.timestamp)->0,
            ),
            Err(CodecError::TimestampOverflow) => run_events(run.rs(), run.timestamp) is None,
            Err(CodecError::EncodeFailed) => run_events(run.rs(), run.timestamp) is Some && exists|k: int|
                0 <= k < run_events(run.rs(), run.timestamp)->0.len() && !encodable(
                    #[trigger] run_events(run.rs(), run.timestamp)->0[k],
                ),
            Err(CodecError::InvalidTimestamp) => false,
        },
{
    let mut out: Vec<u8> = Vec::new();
    let ghost mut written: Seq<EventView> = seq![];
    let ghost mut bad: int = 0;
    let mut refused = false;
    let mut i: usize = 0;
    while i < run.results.len()
        invariant
            i <= run.results@.len(),
            run_events(run.rs().subrange(0, i as int), run.timestamp) == Some(written),
            !refused ==> out@ == encoded_all(written),
            refused ==> 0 <= bad < written.len() && !encodable(written[bad]),
        decreases run.results@.len() - i,
    {
        let r = &run.results[i];
        let ghost rv = run.rs()[i as int];
        assert(run.rs().subrange(0, i + 1).drop_last() =~= run.rs().subrange(0, i as int));
        assert(run.rs().subrange(0, i + 1).last() == rv);
        match r.duration {
            Some(d) => match minus_millis(run.timestamp, d) {
                Some(st) => {
                    let e = make_start_event(r, st);
                    if !refused && !append_encoded(&mut out, &e) {
                        refused = true;
                        proof {
                            bad = written.len() as int;
                        }
                    }
                    proof {
                        assert(written.push(e@).drop_last() =~= written);
                        assert(encoded_all(written.push(e@)) == encoded_all(written) + encoded(e@));
                        written = written.push(e@);
                    }
                },
                None => {
                    proof {
                        lemma_events_none_extends(run.rs(), i + 1);
                    }
                    return Err(CodecError::TimestampOverflow);
                },
            },
            None => {},
        }
        let e = make_end_event(r, run.timestamp);
        if !refused && !append_encoded(&mut out, &e) {
            refused = true;
            proof {
                bad = written.len() as int;
            }
        }
        proof {
            assert(written.push(e@).drop_last() =~= written);
            assert(encoded_all(written.push(e@)) == encoded_all(written) + encoded(e@));
            written = written.push(e@);
            let pre = run_events(run.rs().subrange(0, i as int), run.timestamp)->0;
            assert(written =~= pre + result_events(rv, run.timestamp)->0);
        }
        i = i + 1;
    }
    assert(run.rs().subrange(0, i as int) =~= run.rs());
    if refused {
        assert(run_events(run.rs(), run.timestamp) == Some(written));
        assert(!encodable(run_events(run.rs(), run.timestamp)->0[bad]));
        Err(CodecError::EncodeFailed)
    } else {
        Ok(out)
    }
}


/// The status that a written result reads back as.
pub open spec fn read_status(s: TestStatus) -> TestStatus {
    match s {
        TestStatus::Error => TestStatus::Failure,
        _ => s,
    }
}

/// Events as stream items.
pub open spec fn event_items(es: Seq<EventView>) -> Seq<ItemView> {
    es.map_values(|e: EventView| ItemView::Event(e))
}

/// A result read back agrees with the one written: same status (errors as failures),
/// duration and tags.
pub open spec fn reads_back(v: ResultView, r: ResultView) -> bool {
    v.test_id == r.test_id && v.status == read_status(r.status) && v.duration == r.duration
        && v.tags == r.tags
}

/// What reading the events of a run gives for each test, as `lemma_round_trip` states it.
pub open spec fn round_trip_holds(st: ParseState, rs: Seq<ResultView>) -> bool {
    &&& !st.done
    &&& !st.bad_time
    &&& st.errors == 0
    &&& unique_ids(st.results)
    &&& forall|id: Seq<char>|
        #![trigger lookup(st.results, id)]
        match lookup(rs, id) {
            None => lookup(st.results, id) is None,
            Some(r) => lookup(st.results, id) is Some && reads_back(lookup(st.results, id)->0, r),
        }
}

/// Reading back the events written for a run recovers every test of the run and no
/// other: each with the same status (an error reads back as a failure), duration and
/// tags. Times are exact to the millisecond, so durations come back unchanged.
pub proof fn lemma_round_trip(rs: Seq<ResultView>, t: Timestamp)
    requires
        unique_ids(rs),
        t.nanos < 1_000_000_000,
        run_events(rs, t) is Some,
    ensures
        round_trip_holds(parse_items(event_items(run_events(rs, t)->0)), rs),
{
    lemma_round_trip_starts(rs, t);
}

proof fn lemma_parse_push(a: Seq<ItemView>, x: ItemView)
    ensures
        parse_items(a.push(x)) == step(parse_items(a), x),
{
    assert(a.push(x).drop_last() =~= a);
}

proof fn lemma_round_trip_starts(rs: Seq<ResultView>, t: Timestamp)
    requires
        unique_ids(rs),
        t.nanos < 1_000_000_000,
        run_events(rs, t) is Some,
    ensures
        round_trip_holds(parse_items(event_items(run_events(rs, t)->0)), rs),
        forall|id: Seq<char>|
            !has_id(rs, id) ==> #[trigger] start_of(
                parse_items(event_items(run_events(rs, t)->0)).starts,
                id,
            ) is None,
    decreases rs.len(),
{
    let es = run_events(rs, t)->0;
    if rs.len() == 0 {
        assert(event_items(es) =~= seq![]);
        assert(initial_state().results =~= Seq::<ResultView>::empty());
        return;
    }
    let front = rs.drop_last();
    let r = rs.last();
    let id = r.test_id;
    assert(unique_ids(front));
    assert(!has_id(front, id)) by {
        if has_id(front, id) {
            let k = choose|k: int| 0 <= k < front.len() && #[trigger] front[k].test_id == id;
            assert(rs[k].test_id == rs[rs.len() - 1].test_id);
        }
    }
    assert(run_events(front, t) is Some);
    lemma_round_trip_starts(front, t);
    let pes = run_events(front, t)->0;
    let st0 = parse_items(event_items(pes));
    let tail = result_events(r, t)->0;
    assert(es == pes + tail);
    let end = end_event(r, t);
    assert(terminal_status(wire_status(r.status)) == Some(read_status(r.status)));
    assert(tags_or_empty(tag_field(r.tags)) == r.tags) by {
        if r.tags.len() == 0 {
            assert(r.tags =~= seq![]);
        }
    }
    assert(start_of(st0.starts, id) is None);
    let st1 = match r.duration {
        Some(d) => {
            let s = minus_ms(t, d)->0;
            let start = start_event(r, s);
            assert(event_items(es) =~= event_items(pes).push(ItemView::Event(start)).push(ItemView::Event(end)));
            lemma_parse_push(event_items(pes).push(ItemView::Event(start)), ItemView::Event(end));
            lemma_parse_push(event_items(pes), ItemView::Event(start));
            let n = t.instant() - d as int * 1_000_000;
            assert(n == 1_000_000_000 * (n / 1_000_000_000) + n % 1_000_000_000) by (nonlinear_arith);
            assert(s.instant() == n);
            assert(valid_stamp(s));
            let mid = ParseState { starts: st0.starts.push((id, s)), ..st0 };
            assert(step(st0, ItemView::Event(start)) == mid);
            assert(start_of(mid.starts, id) == Some(s));
            assert((d as int * 1_000_000) / 1_000_000 == d) by (nonlinear_arith);
            assert(elapsed_ms(s, t) == Some(d));
            let st1 = record(mid, id, read_status(r.status), Some(d), end);
            assert(parse_items(event_items(es)) == st1);
            assert forall|other: Seq<char>| other != id implies #[trigger] start_of(mid.starts, other)
                == start_of(st0.starts, other) by {
                assert(mid.starts.drop_last() =~= st0.starts);
            }
            st1
        },
        None => {
            assert(event_items(es) =~= event_items(pes).push(ItemView::Event(end)));
            lemma_parse_push(event_items(pes), ItemView::Event(end));
            let st1 = record(st0, id, read_status(r.status), None, end);
            assert(parse_items(event_items(es)) == st1);
            st1
        },
    };
    let v = ResultView {
        test_id: id,
        status: read_status(r.status),
        duration: r.duration,
        message: attachment_text(end.file),
        details: attachment_text(end.file),
        tags: r.tags,
    };
    assert(st1.results == put(st0.results, v));
    lemma_put(st0.results, v);
    assert(rs =~= front.push(r));
    lemma_lookup_push(front, r);
    assert forall|other: Seq<char>| !has_id(rs, other) implies #[trigger] start_of(st1.starts, other) is None by {
        assert(!has_id(front, other)) by {
            if has_id(front, other) {
                let k = choose|k: int| 0 <= k < front.len() && #[trigger] front[k].test_id == other;
                assert(rs[k].test_id == other);
            }
        }
        if other == id {
            assert(rs[rs.len() - 1].test_id == id);
        }
    }
}


/// The test that an item reports as failing, if it is such an event.
pub open spec fn failing_event(it: ItemView) -> Option<Seq<char>> {
    match it {
        ItemView::Event(e) => if e.status is Failed || e.status is UnexpectedSuccess {
            e.test_id
        } else {
            None
        },
        _ => None,
    }
}

/// Some item reports `id` as failing.
pub open spec fn reported_failing(items: Seq<ItemView>, id: Seq<char>) -> bool {
    exists|i: int| 0 <= i < items.len() && #[trigger] failing_event(items[i]) == Some(id)
}

/// The events among `items` that belong to a test that `all` reports as failing.
pub open spec fn kept_events(items: Seq<ItemView>, all: Seq<ItemView>) -> Seq<EventView>
    decreases items.len(),
{
    if items.len() == 0 {
        seq![]
    } else {
        let rest = kept_events(items.drop_last(), all);
        match items.last() {
            ItemView::Event(e) => match e.test_id {
                Some(id) => if reported_failing(all, id) {
                    rest.push(e)
                } else {
                    rest
                },
                None => rest,
            },
            _ => rest,
        }
    }
}

/// Whether `id` is among `ids`.
fn contains_text(ids: &Vec<String>, id: &String) -> (r: bool)
    ensures
        r == strs(ids@).contains(id@),
{
    let mut i: usize = 0;
    while i < ids.len()
        invariant
            i <= ids@.len(),
            forall|k: int| 0 <= k < i ==> strs(ids@)[k] != id@,
        decreases ids@.len() - i,
    {
        if ids[i] == *id {
            assert(strs(ids@)[i as int] == id@);
            return true;
        }
        i = i + 1;
    }
    false
}

/// Keeps from a byte stream only the events of tests that it reports as failing
/// (failed or unexpectedly passed), attachments included; stray bytes and unreadable
/// spans are dropped.
pub fn filter_failing_tests(bytes: &[u8]) -> (r: Result<Vec<u8>, CodecError>)
    ensures
        match r {
            Ok(b) => b@ == encoded_all(kept_events(scanned_items(bytes@), scanned_items(bytes@))),
            Err(e) => e == CodecError::EncodeFailed && exists|k: int|
                0 <= k < kept_events(scanned_items(bytes@), scanned_items(bytes@)).len() && !encodable(
                    #[trigger] kept_events(scanned_items(bytes@), scanned_items(bytes@))[k],
                ),
        },
{
    let items = scan_items(bytes);
    let ghost all = scanned_items(bytes@);
    let mut failing: Vec<String> = Vec::new();
    let mut i: usize = 0;
    while i < items.len()
        invariant
            i <= items@.len(),
            all == item_views(items@),
            forall|id: Seq<char>|
                strs(failing@).contains(id) <==> exists|k: int|
                    0 <= k < i && #[trigger] failing_event(all[k]) == Some(id),
        decreases items@.len() - i,
    {
        let ghost before = failing@;
        if let StreamItem::Event(e) = &items[i] {
            let st = EventStatus::from_code(e.status);
            if st == EventStatus::Failed || st == EventStatus::UnexpectedSuccess {
                if let Some(id) = &e.test_id {
                    failing.push(id.clone());
                    assert(strs(failing@) =~= strs(before).push(id@));
                }
            }
        }
        proof {
            assert forall|id: Seq<char>|
                strs(failing@).contains(id) <==> exists|k: int|
                    0 <= k < i + 1 && #[trigger] failing_event(all[k]) == Some(id) by {
                if strs(failing@).contains(id) && !strs(before).contains(id) {
                    assert(failing_event(all[i as int]) == Some(id));
                }
                if exists|k: int| 0 <= k < i + 1 && #[trigger] failing_event(all[k]) == Some(id) {
                    let k = choose|k: int| 0 <= k < i + 1 && #[trigger] failing_event(all[k]) == Some(id);
                    if k == i {
                        assert(strs(failing@).last() == id);
                    } else {
                        assert(strs(before).contains(id));
                        let j = choose|j: int| 0 <= j < strs(before).len() && strs(before)[j] == id;
                        assert(strs(failing@)[j] == id);
                    }
                }
            }
        }
        i = i + 1;
    }
    let mut out: Vec<u8> = Vec::new();
    let mut refused = false;
    let ghost mut bad: int = 0;
    let mut j: usize = 0;
    while j < items.len()
        invariant
            j <= items@.len(),
            all == item_views(items@),
            forall|id: Seq<char>| strs(failing@).contains(id) <==> reported_failing(all, id),
            !refused ==> out@ == encoded_all(kept_events(all.subrange(0, j as int), all)),
            refused ==> 0 <= bad < kept_events(all.subrange(0, j as int), all).len() && !encodable(
                kept_events(all.subrange(0, j as int), all)[bad],
            ),
        decreases items@.len() - j,
    {
        let ghost pre = kept_events(all.subrange(0, j as int), all);
        assert(all.subrange(0, j + 1).drop_last() =~= all.subrange(0, j as int));
        if let StreamItem::Event(e) = &items[j] {
            if let Some(id) = &e.test_id {
                if contains_text(&failing, id) {
                    if !refused && !append_encoded(&mut out, e) {
                        refused = true;
                        proof {
                            bad = pre.len() as int;
                        }
                    }
                    assert(pre.push(e@).drop_last() =~= pre);
                    assert(encoded_all(pre.push(e@)) == encoded_all(pre) + encoded(e@));
                }
            }
        }
        j = j + 1;
    }
    assert(all.subrange(0, j as int) =~= all);
    if refused {
        assert(!encodable(kept_events(all, all)[bad]));
        Err(CodecError::EncodeFailed)
    } else {
        Ok(out)
    }
}


/// The tests that a listing stream enumerates, in order.
pub open spec fn enumerated(items: Seq<ItemView>) -> Seq<Seq<char>>
    decreases items.len(),
{
    if items.len() == 0 {
        seq![]
    } else {
        let rest = enumerated(items.drop_last());
        match items.last() {
            ItemView::Event(e) => if e.status is Enumeration && e.test_id is Some {
                rest.push(e.test_id->0)
            } else {
                rest
            },
            _ => rest,
        }
    }
}

/// The ids of the tests that a listing stream enumerates, in order; everything else in
/// the stream is skipped.
pub fn enumerated_ids(bytes: &[u8]) -> (r: Vec<TestId>)
    ensures
        crate::model::ids_of(r@) == enumerated(scanned_items(bytes@)),
{
    let items = scan_items(bytes);
    let ghost all = scanned_items(bytes@);
    let mut out: Vec<TestId> = Vec::new();
    let mut i: usize = 0;
    assert(all.subrange(0, 0) =~= seq![]);
    while i < items.len()
        invariant
            i <= items@.len(),
            all == item_views(items@),
            crate::model::ids_of(out@) == enumerated(all.subrange(0, i as int)),
        decreases items@.len() - i,
    {
        assert(all.subrange(0, i + 1).drop_last() =~= all.subrange(0, i as int));
        if let StreamItem::Event(e) = &items[i] {
            if EventStatus::from_code(e.status) == EventStatus::Enumeration {
                if let Some(id) = &e.test_id {
                    let ghost o = out@;
                    out.push(TestId::new(id.as_str()));
                    assert(crate::model::ids_of(out@) =~= crate::model::ids_of(o).push(id@));
                }
            }
        }
        i = i + 1;
    }
    assert(all.subrange(0, i as int) =~= all);
    out
}


/// The results with a failing status, in order.
pub open spec fn failing_results(rs: Seq<ResultView>) -> Seq<ResultView>
    decreases rs.len(),
{
    if rs.len() == 0 {
        seq![]
    } else if rs.last().status.spec_is_failure() {
        failing_results(rs.drop_last()).push(rs.last())
    } else {
        failing_results(rs.drop_last())
    }
}

/// Some result of `rs` for `id` has a failing status.
pub open spec fn fails_in(rs: Seq<ResultView>, id: Seq<char>) -> bool {
    exists|i: int| 0 <= i < rs.len() && rs[i].test_id == id && (#[trigger] rs[i]).status.spec_is_failure()
}

proof fn lemma_items_concat(a: Seq<EventView>, b: Seq<EventView>)
    ensures
        event_items(a + b) == event_items(a) + event_items(b),
{
    assert(event_items(a + b) =~= event_items(a) + event_items(b));
}

proof fn lemma_kept_concat(a: Seq<ItemView>, b: Seq<ItemView>, all: Seq<ItemView>)
    ensures
        kept_events(a + b, all) == kept_events(a, all) + kept_events(b, all),
    decreases b.len(),
{
    if b.len() == 0 {
        assert(a + b =~= a);
        assert(kept_events(a, all) + kept_events(b, all) =~= kept_events(a, all));
    } else {
        assert((a + b).drop_last() =~= a + b.drop_last());
        lemma_kept_concat(a, b.drop_last(), all);
        let r = kept_events(b.drop_last(), all);
        assert((a + b).last() == b.last());
        if let ItemView::Event(e) = b.last() {
            assert((kept_events(a, all) + r).push(e) =~= kept_events(a, all) + r.push(e));
        }
    }
}

proof fn lemma_reported_concat(a: Seq<ItemView>, b: Seq<ItemView>, id: Seq<char>)
    ensures
        reported_failing(a + b, id) == (reported_failing(a, id) || reported_failing(b, id)),
{
    let c = a + b;
    if reported_failing(c, id) {
        let i = choose|i: int| 0 <= i < c.len() && #[trigger] failing_event(c[i]) == Some(id);
        if i < a.len() {
            assert(failing_event(a[i]) == Some(id));
        } else {
            assert(failing_event(b[i - a.len()]) == Some(id));
        }
    }
    if reported_failing(a, id) {
        let i = choose|i: int| 0 <= i < a.len() && #[trigger] failing_event(a[i]) == Some(id);
        assert(failing_event(c[i]) == Some(id));
    }
    if reported_failing(b, id) {
        let i = choose|i: int| 0 <= i < b.len() && #[trigger] failing_event(b[i]) == Some(id);
        assert(failing_event(c[i + a.len()]) == Some(id));
    }
}

/// A written run reports as failing exactly the tests whose result fails.
proof fn lemma_reported_written(rs: Seq<ResultView>, t: Timestamp, id: Seq<char>)
    requires
        run_events(rs, t) is Some,
    ensures
        reported_failing(event_items(run_events(rs, t)->0), id) == fails_in(rs, id),
    decreases rs.len(),
{
    if rs.len() == 0 {
        assert(event_items(seq![]) =~= Seq::<ItemView>::empty());
        return;
    }
    let front = rs.drop_last();
    let r = rs.last();
    lemma_reported_written(front, t, id);
    let pes = run_events(front, t)->0;
    let tail = result_events(r, t)->0;
    lemma_items_concat(pes, tail);
    lemma_reported_concat(event_items(pes), event_items(tail), id);
    let end = end_event(r, t);
    assert(failing_event(ItemView::Event(end)) == if r.status.spec_is_failure() {
        Some(r.test_id)
    } else {
        None
    });
    assert(reported_failing(event_items(tail), id) == (r.test_id == id && r.status.spec_is_failure())) by {
        if r.duration is Some {
            assert(event_items(tail)[1] == ItemView::Event(end));
            assert(failing_event(event_items(tail)[0]) is None);
        } else {
            assert(event_items(tail)[0] == ItemView::Event(end));
        }
        if r.test_id == id && r.status.spec_is_failure() {
            let k = event_items(tail).len() - 1;
            assert(failing_event(event_items(tail)[k]) == Some(id));
        }
    }
    assert(fails_in(rs, id) == (fails_in(front, id) || (r.test_id == id && r.status.spec_is_failure()))) by {
        if fails_in(rs, id) {
            let i = choose|i: int| 0 <= i < rs.len() && rs[i].test_id == id && (#[trigger] rs[i]).status.spec_is_failure();
            if i < front.len() {
                assert(front[i] == rs[i]);
            }
        }
        if fails_in(front, id) {
            let i = choose|i: int| 0 <= i < front.len() && front[i].test_id == id && (#[trigger] front[i]).status.spec_is_failure();
            assert(rs[i] == front[i]);
        }
        if r.test_id == id && r.status.spec_is_failure() {
            assert(rs[rs.len() - 1] == r);
        }
    }
}

/// Keeping the events of failing tests from a written run gives the events written for
/// its failing results alone.
proof fn lemma_kept_written(rs: Seq<ResultView>, t: Timestamp, all: Seq<ItemView>)
    requires
        run_events(rs, t) is Some,
        unique_ids(rs),
        forall|i: int| 0 <= i < rs.len() ==> reported_failing(all, (#[trigger] rs[i]).test_id) == rs[i].status.spec_is_failure(),
    ensures
        run_events(failing_results(rs), t) is Some,
        kept_events(event_items(run_events(rs, t)->0), all) == run_events(failing_results(rs), t)->0,
    decreases rs.len(),
{
    if rs.len() == 0 {
        assert(event_items(seq![]) =~= Seq::<ItemView>::empty());
        return;
    }
    let front = rs.drop_last();
    let r = rs.last();
    assert(unique_ids(front));
    assert forall|i: int| 0 <= i < front.len() implies reported_failing(all, (#[trigger] front[i]).test_id)
        == front[i].status.spec_is_failure() by {
        assert(rs[i] == front[i]);
    }
    lemma_kept_written(front, t, all);
    let pes = run_events(front, t)->0;
    let tail = result_events(r, t)->0;
    lemma_items_concat(pes, tail);
    lemma_kept_concat(event_items(pes), event_items(tail), all);
    let keep = reported_failing(all, r.test_id);
    assert(keep == r.status.spec_is_failure()) by {
        assert(rs[rs.len() - 1] == r);
    }
    let it = event_items(tail);
    assert(kept_events(it, all) == if keep { tail } else { seq![] }) by {
        let none = Seq::<ItemView>::empty();
        assert(kept_events(none, all) == Seq::<EventView>::empty());
        if r.duration is Some {
            let s0 = tail[0];
            let e1 = tail[1];
            assert(s0.test_id == Some(r.test_id) && e1.test_id == Some(r.test_id));
            let one = seq![ItemView::Event(s0)];
            assert(it.drop_last() =~= one);
            assert(one.drop_last() =~= none);
            assert(kept_events(one, all) =~= if keep { seq![s0] } else { seq![] });
            assert(it.last() == ItemView::Event(e1));
            assert(kept_events(it, all) =~= if keep { seq![s0, e1] } else { seq![] });
            assert(tail =~= seq![s0, e1]);
        } else {
            let e0 = tail[0];
            assert(e0.test_id == Some(r.test_id));
            assert(it.drop_last() =~= none);
            assert(it.last() == ItemView::Event(e0));
            assert(kept_events(it, all) =~= if keep { seq![e0] } else { seq![] });
            assert(tail =~= seq![e0]);
        }
    }
    if keep {
        assert(failing_results(rs) == failing_results(front).push(r));
        assert(failing_results(rs).drop_last() =~= failing_results(front));
    } else {
        assert(failing_results(rs) == failing_results(front));
        assert(run_events(failing_results(front), t)->0 + seq![] =~= run_events(failing_results(front), t)->0);
    }
}


/// The failing results of a list with unique ids are the failing entries of its lookup.
proof fn lemma_failing_results(rs: Seq<ResultView>)
    requires
        unique_ids(rs),
    ensures
        unique_ids(failing_results(rs)),
        forall|id: Seq<char>| #[trigger] lookup(failing_results(rs), id) == failing_entry(lookup(rs, id)),
    decreases rs.len(),
{
    if rs.len() == 0 {
        return;
    }
    let front = rs.drop_last();
    let r = rs.last();
    assert(unique_ids(front));
    lemma_failing_results(front);
    assert(!has_id(front, r.test_id)) by {
        if has_id(front, r.test_id) {
            let k = choose|k: int| 0 <= k < front.len() && #[trigger] front[k].test_id == r.test_id;
            assert(rs[k].test_id == rs[rs.len() - 1].test_id);
        }
    }
    assert(rs =~= front.push(r));
    lemma_lookup_push(front, r);
    let ff = failing_results(front);
    if r.status.spec_is_failure() {
        assert(!has_id(ff, r.test_id)) by {
            if has_id(ff, r.test_id) {
                let k = choose|k: int| 0 <= k < ff.len() && #[trigger] ff[k].test_id == r.test_id;
                assert(lookup(ff, r.test_id) is Some);
            }
        }
        lemma_lookup_push(ff, r);
    }
}

/// The failing-set artifact reads back as the failing results of its run: keeping the
/// events of failing tests from a written run, and reading them, gives exactly the tests
/// whose result fails, each with its status (errors as failures), duration and tags.
pub proof fn lemma_filter_written(rs: Seq<ResultView>, t: Timestamp)
    requires
        unique_ids(rs),
        t.nanos < 1_000_000_000,
        run_events(rs, t) is Some,
    ensures
        ({
            let all = event_items(run_events(rs, t)->0);
            let st = parse_items(event_items(kept_events(all, all)));
            &&& !st.bad_time
            &&& forall|id: Seq<char>|
                #![trigger lookup(st.results, id)]
                match failing_entry(lookup(rs, id)) {
                    None => lookup(st.results, id) is None,
                    Some(r) => lookup(st.results, id) is Some && reads_back(lookup(st.results, id)->0, r),
                }
        }),
{
    let all = event_items(run_events(rs, t)->0);
    assert forall|i: int| 0 <= i < rs.len() implies reported_failing(all, (#[trigger] rs[i]).test_id)
        == rs[i].status.spec_is_failure() by {
        lemma_reported_written(rs, t, rs[i].test_id);
        if fails_in(rs, rs[i].test_id) {
            let j = choose|j: int| 0 <= j < rs.len() && rs[j].test_id == rs[i].test_id && (#[trigger] rs[j]).status.spec_is_failure();
            assert(j == i);
        }
    }
    lemma_kept_written(rs, t, all);
    lemma_failing_results(rs);
    let fr = failing_results(rs);
    lemma_round_trip(fr, t);
    let st = parse_items(event_items(kept_events(all, all)));
    assert forall|id: Seq<char>|
        #![trigger lookup(st.results, id)]
        match failing_entry(lookup(rs, id)) {
            None => lookup(st.results, id) is None,
            Some(r) => lookup(st.results, id) is Some && reads_back(lookup(st.results, id)->0, r),
        } by {
        assert(lookup(fr, id) == failing_entry(lookup(rs, id)));
    }
}

} // verus!
