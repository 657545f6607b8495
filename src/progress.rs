//! Reading a live stream while reporting progress and forwarding test output.
//!
//! The reader is a state machine: each item goes in, the run grows exactly as
//! `stream::Parser` grows it, and the actions for the caller (a progress note, bytes to
//! show) come out. Whoever drives it performs the actions.

use vstd::prelude::*;
use crate::model::{strs, TestRun};
use crate::stream::{
    initial_state, item_views, lossy, lossy_text, parse_items, parse_outcome, scan_items, scanned_items, step,
    CodecError, EventStatus, ItemView, ParseState, Parser, StreamEvent, StreamItem,
};

verus! {

/// What a progress note says about a test.
#[derive(Debug, Clone, Copy, PartialEq, Eq, Structural)]
pub enum ProgressStatus {
    InProgress,
    Success,
    Failed,
    Skipped,
    ExpectedFailure,
    UnexpectedSuccess,
}

/// The mark shown for a status.
pub open spec fn indicator_text(s: ProgressStatus) -> Seq<char> {
    match s {
        ProgressStatus::InProgress => ""@,
        ProgressStatus::Success => "✓"@,
        ProgressStatus::Failed => "✗"@,
        ProgressStatus::Skipped => "⊘"@,
        ProgressStatus::ExpectedFailure => "✓"@,
        ProgressStatus::UnexpectedSuccess => "✗"@,
    }
}

impl ProgressStatus {
    /// The mark shown for this status.
    pub fn indicator(&self) -> (r: &'static str)
        ensures
            r@ == indicator_text(*self),
    {
        match self {
            ProgressStatus::InProgress => "",
            ProgressStatus::Success => "✓",
            ProgressStatus::Failed => "✗",
            ProgressStatus::Skipped => "⊘",
            ProgressStatus::ExpectedFailure => "✓",
            ProgressStatus::UnexpectedSuccess => "✗",
        }
    }
}

/// Which test output to forward.
#[derive(Debug, Clone, Copy, PartialEq, Eq, Structural)]
pub enum OutputFilter {
    /// Only the output of tests that fail.
    FailuresOnly,
    /// The output of every test.
    All,
}

/// What the caller should do after an item.
#[derive(Debug)]
pub enum ProgressAction {
    /// Note the progress of a test.
    Progress(String, ProgressStatus),
    /// Show these bytes.
    Output(Vec<u8>),
}

/// The plain values of an action.
pub enum ActionView {
    Progress(Seq<char>, ProgressStatus),
    Output(Seq<u8>),
}

impl View for ProgressAction {
    type V = ActionView;

    open spec fn view(&self) -> ActionView {
        match self {
            ProgressAction::Progress(id, s) => ActionView::Progress(id@, *s),
            ProgressAction::Output(b) => ActionView::Output(b@),
        }
    }
}

/// The progress note for a terminal event status.
pub open spec fn progress_of(s: EventStatus) -> Option<ProgressStatus> {
    match s {
        EventStatus::Success => Some(ProgressStatus::Success),
        EventStatus::Failed => Some(ProgressStatus::Failed),
        EventStatus::Skipped => Some(ProgressStatus::Skipped),
        EventStatus::ExpectedFailure => Some(ProgressStatus::ExpectedFailure),
        EventStatus::UnexpectedSuccess => Some(ProgressStatus::UnexpectedSuccess),
        _ => None,
    }
}

/// Failed and unexpectedly passed tests count as failing.
pub open spec fn failing_progress(p: ProgressStatus) -> bool {
    p is Failed || p is UnexpectedSuccess
}

/// Whether the filter lets a test's output through.
pub open spec fn shown(filter: OutputFilter, p: ProgressStatus) -> bool {
    filter is All || failing_progress(p)
}

/// A test's held attachments: (name, text as bytes) pairs, the tags first under `_tags` when
/// the first attachment carried tags.
pub type Held = Seq<(Seq<char>, Seq<u8>)>;

/// Tags joined by single spaces.
pub open spec fn join_space(tags: Seq<Seq<char>>) -> Seq<char>
    decreases tags.len(),
{
    if tags.len() == 0 {
        seq![]
    } else if tags.len() == 1 {
        tags[0]
    } else {
        join_space(tags.drop_last()) + " "@ + tags.last()
    }
}

/// The held attachments of `id`, if any are held.
pub open spec fn held_of(p: Seq<(Seq<char>, Held)>, id: Seq<char>) -> Option<Held>
    decreases p.len(),
{
    if p.len() == 0 {
        None
    } else if p.last().0 == id {
        Some(p.last().1)
    } else {
        held_of(p.drop_last(), id)
    }
}

/// Holds one more attachment for `id`; with the first one, its tags go in front.
pub open spec fn held_after(before: Option<Held>, att: (Seq<char>, Seq<u8>), tags: Option<Seq<Seq<char>>>) -> Held {
    let list = match before {
        Some(l) => l.push(att),
        None => seq![att],
    };
    if list.len() == 1 && tags is Some {
        seq![("_tags"@, enc(join_space(tags->0)))] + list
    } else {
        list
    }
}

/// The bytes of a text.
pub open spec fn enc(s: Seq<char>) -> Seq<u8> {
    vstd::utf8::encode_utf8(s)
}

/// The word that heads a report for a status.
pub open spec fn status_word(p: ProgressStatus) -> Seq<char> {
    match p {
        ProgressStatus::Failed => "FAIL"@,
        ProgressStatus::UnexpectedSuccess => "FAIL"@,
        ProgressStatus::Success => "PASSED"@,
        ProgressStatus::Skipped => "SKIPPED"@,
        ProgressStatus::ExpectedFailure => "XFAIL"@,
        ProgressStatus::InProgress => "UNKNOWN"@,
    }
}

/// The report body for held attachments: logs framed, tracebacks as they are, tags
/// skipped; and whether a traceback was among them.
pub open spec fn body_of(atts: Held) -> (Seq<u8>, bool)
    decreases atts.len(),
{
    if atts.len() == 0 {
        (seq![], false)
    } else {
        let (b, tb) = body_of(atts.drop_last());
        let (name, text) = atts.last();
        if name == "_tags"@ {
            (b, tb)
        } else if name == "log"@ {
            (b + enc("log: {{{\n"@) + text + enc("}}}\n\n"@), tb)
        } else if name == "traceback"@ {
            (b + text, true)
        } else {
            (b, tb)
        }
    }
}

/// The report shown for a finished test with held attachments.
pub open spec fn report_of(p: ProgressStatus, id: Seq<char>, atts: Held) -> Seq<u8> {
    let head = enc(status_word(p)) + enc(": "@) + enc(id) + enc("\n"@);
    let tags = if atts.len() > 0 && atts[0].0 == "_tags"@ {
        enc("tags: "@) + atts[0].1 + enc("\n"@)
    } else {
        seq![]
    };
    let (body, tb) = body_of(atts);
    head + tags + enc("----------------------------------------------------------------------\n"@) + body + if tb {
        enc("======================================================================\n"@)
    } else {
        seq![]
    }
}


/// What the reader holds besides the run: output not yet shown and held attachments.
pub struct ProgressState {
    pub parse: ParseState,
    pub output: Seq<u8>,
    pub held: Seq<(Seq<char>, Held)>,
}

/// One item's effect on the reader and the actions it calls for.
///
/// The run follows `stream::step`. A start event notes progress and drops unshown
/// output. A terminal event notes progress, then shows the test's held attachments as a
/// report and its buffered output, where the filter lets them through. Stray bytes are
/// shown at once under `All` and held for the current test otherwise. An event without
/// a status that carries a file holds it for its test.
pub open spec fn progress_step(ps: ProgressState, item: ItemView, filter: OutputFilter) -> (ProgressState, Seq<ActionView>) {
    let parse = step(ps.parse, item);
    if ps.parse.done {
        (ps, seq![])
    } else {
        match item {
            ItemView::Unknown => (ProgressState { parse, ..ps }, seq![]),
            ItemView::Bytes(b) => match filter {
                OutputFilter::All => (ProgressState { parse, ..ps }, seq![ActionView::Output(b)]),
                OutputFilter::FailuresOnly => (ProgressState { parse, output: ps.output + b, ..ps }, seq![]),
            },
            ItemView::Event(e) => match e.test_id {
                None => (ProgressState { parse, ..ps }, seq![]),
                Some(id) => {
                    let (output, held, acts) = event_effect(ps.output, ps.held, e, id, filter);
                    (ProgressState { parse, output, held }, acts)
                },
            },
        }
    }
}

/// What an event with test id `id` does to the unshown output and the held
/// attachments, and the actions it calls for.
pub open spec fn event_effect(
    output: Seq<u8>,
    held: Seq<(Seq<char>, Held)>,
    e: crate::stream::EventView,
    id: Seq<char>,
    filter: OutputFilter,
) -> (Seq<u8>, Seq<(Seq<char>, Held)>, Seq<ActionView>) {
    if e.status is Undefined && e.file is Some {
        let (name, content) = e.file->0;
        let att = (name, enc(lossy(content)));
        (output, held.push((id, held_after(held_of(held, id), att, e.tags))), seq![])
    } else if e.status is InProgress {
        (seq![], held, seq![ActionView::Progress(id, ProgressStatus::InProgress)])
    } else {
        match progress_of(e.status) {
            None => (output, held, seq![]),
            Some(p) => {
                let report = match held_of(held, id) {
                    Some(atts) => if shown(filter, p) && atts.len() > 0 {
                        seq![ActionView::Output(report_of(p, id, atts))]
                    } else {
                        seq![]
                    },
                    None => seq![],
                };
                let out = if shown(filter, p) && output.len() > 0 {
                    seq![ActionView::Output(output)]
                } else {
                    seq![]
                };
                (seq![], held.push((id, seq![])), seq![ActionView::Progress(id, p)] + report + out)
            },
        }
    }
}

/// The bytes of a joined text are the joined bytes.
pub proof fn lemma_enc_concat(a: Seq<char>, b: Seq<char>)
    ensures
        enc(a + b) == enc(a) + enc(b),
    decreases a.len(),
{
    if a.len() == 0 {
        assert(a + b =~= b);
        assert(enc(a) =~= seq![]);
        assert(enc(a) + enc(b) =~= enc(b));
    } else {
        lemma_enc_concat(a.drop_first(), b);
        assert((a + b).drop_first() =~= a.drop_first() + b);
        assert((a + b)[0] == a[0]);
    }
}

/// Appends the bytes of `s`.
fn push_text(out: &mut Vec<u8>, s: &str)
    ensures
        final(out)@ == old(out)@ + enc(s@),
{
    let b = s.as_bytes();
    let ghost start = out@;
    let mut i: usize = 0;
    while i < b.len()
        invariant
            i <= b@.len(),
            b@ == enc(s@),
            out@ == start + b@.subrange(0, i as int),
        decreases b@.len() - i,
    {
        out.push(b[i]);
        i = i + 1;
        assert(out@ =~= start + b@.subrange(0, i as int));
    }
    assert(b@.subrange(0, i as int) =~= b@);
}

/// Appends `b`.
fn push_bytes(out: &mut Vec<u8>, b: &Vec<u8>)
    ensures
        final(out)@ == old(out)@ + b@,
{
    let ghost start = out@;
    let mut i: usize = 0;
    while i < b.len()
        invariant
            i <= b@.len(),
            out@ == start + b@.subrange(0, i as int),
        decreases b@.len() - i,
    {
        out.push(b[i]);
        i = i + 1;
        assert(out@ =~= start + b@.subrange(0, i as int));
    }
    assert(b@.subrange(0, i as int) =~= b@);
}

/// The bytes of tags joined by single spaces.
fn joined_tags(tags: &Vec<String>) -> (r: Vec<u8>)
    ensures
        r@ == enc(join_space(strs(tags@))),
{
    let ghost t = strs(tags@);
    let mut out: Vec<u8> = Vec::new();
    let mut i: usize = 0;
    assert(t.subrange(0, 0) =~= seq![]);
    assert(enc(seq![]) =~= Seq::<u8>::empty());
    while i < tags.len()
        invariant
            i <= tags@.len(),
            t == strs(tags@),
            out@ == enc(join_space(t.subrange(0, i as int))),
        decreases tags@.len() - i,
    {
        let ghost pre = t.subrange(0, i as int);
        let ghost cur = t.subrange(0, i + 1);
        assert(cur.drop_last() =~= pre);
        if i == 0 {
            push_text(&mut out, tags[i].as_str());
            assert(out@ =~= enc(join_space(cur)));
        } else {
            push_text(&mut out, " ");
            push_text(&mut out, tags[i].as_str());
            proof {
                lemma_enc_concat(join_space(pre), " "@);
                lemma_enc_concat(join_space(pre) + " "@, t[i as int]);
            }
            assert(out@ =~= enc(join_space(cur)));
        }
        i = i + 1;
    }
    assert(t.subrange(0, i as int) =~= t);
    out
}

/// The held attachments as plain values.
pub open spec fn held_list(v: Seq<(String, Vec<u8>)>) -> Held {
    v.map_values(|a: (String, Vec<u8>)| (a.0@, a.1@))
}

/// All held attachments as plain values.
pub open spec fn held_view(v: Seq<(String, Vec<(String, Vec<u8>)>)>) -> Seq<(Seq<char>, Held)> {
    v.map_values(|p: (String, Vec<(String, Vec<u8>)>)| (p.0@, held_list(p.1@)))
}

/// The plain values of a list of actions.
pub open spec fn action_views(v: Seq<ProgressAction>) -> Seq<ActionView> {
    v.map_values(|a: ProgressAction| a@)
}

fn copy_bytes(b: &Vec<u8>) -> (r: Vec<u8>)
    ensures
        r@ == b@,
{
    let mut r: Vec<u8> = Vec::new();
    push_bytes(&mut r, b);
    assert(r@ =~= b@);
    r
}

/// A copy of held attachments.
fn copy_held(v: &Vec<(String, Vec<u8>)>) -> (r: Vec<(String, Vec<u8>)>)
    ensures
        held_list(r@) == held_list(v@),
{
    let mut r: Vec<(String, Vec<u8>)> = Vec::new();
    let mut i: usize = 0;
    while i < v.len()
        invariant
            i <= v@.len(),
            held_list(r@) == held_list(v@.subrange(0, i as int)),
        decreases v@.len() - i,
    {
        let ghost prev = r@;
        r.push((v[i].0.clone(), copy_bytes(&v[i].1)));
        assert(held_list(r@) =~= held_list(prev).push((v@[i as int].0@, v@[i as int].1@)));
        assert(held_list(v@.subrange(0, i + 1)) =~= held_list(v@.subrange(0, i as int)).push(
            (v@[i as int].0@, v@[i as int].1@),
        ));
        i = i + 1;
    }
    assert(v@.subrange(0, i as int) =~= v@);
    r
}

/// The last held entry for `id`.
fn find_held(held: &Vec<(String, Vec<(String, Vec<u8>)>)>, id: &String) -> (r: Option<usize>)
    ensures
        match r {
            Some(k) => k < held@.len() && held_of(held_view(held@), id@) == Some(held_list(held@[k as int].1@)),
            None => held_of(held_view(held@), id@) is None,
        },
{
    let ghost hv = held_view(held@);
    let mut i: usize = held.len();
    assert(hv.subrange(0, i as int) =~= hv);
    while i > 0
        invariant
            i <= held@.len(),
            hv == held_view(held@),
            held_of(hv, id@) == held_of(hv.subrange(0, i as int), id@),
        decreases i,
    {
        assert(hv.subrange(0, i as int).drop_last() =~= hv.subrange(0, i - 1));
        if held[i - 1].0 == *id {
            return Some(i - 1);
        }
        i = i - 1;
    }
    None
}

/// The report body for held attachments, and whether a traceback was among them.
fn report_body(atts: &Vec<(String, Vec<u8>)>, out: &mut Vec<u8>) -> (tb: bool)
    ensures
        final(out)@ == old(out)@ + body_of(held_list(atts@)).0,
        tb == body_of(held_list(atts@)).1,
{
    let ghost h = held_list(atts@);
    let ghost start = out@;
    let tags_name = "_tags".to_owned();
    let log_name = "log".to_owned();
    let tb_name = "traceback".to_owned();
    let mut tb = false;
    let mut i: usize = 0;
    assert(h.subrange(0, 0) =~= seq![]);
    while i < atts.len()
        invariant
            i <= atts@.len(),
            h == held_list(atts@),
            tags_name@ == "_tags"@,
            log_name@ == "log"@,
            tb_name@ == "traceback"@,
            out@ == start + body_of(h.subrange(0, i as int)).0,
            tb == body_of(h.subrange(0, i as int)).1,
        decreases atts@.len() - i,
    {
        assert(h.subrange(0, i + 1).drop_last() =~= h.subrange(0, i as int));
        let name = &atts[i].0;
        if *name == tags_name {
        } else if *name == log_name {
            push_text(out, "log: {{{\n");
            push_bytes(out, &atts[i].1);
            push_text(out, "}}}\n\n");
        } else if *name == tb_name {
            push_bytes(out, &atts[i].1);
            tb = true;
        }
        i = i + 1;
    }
    assert(h.subrange(0, i as int) =~= h);
    tb
}

/// The word that heads a report for a status.
fn status_word_of(p: ProgressStatus) -> (r: &'static str)
    ensures
        r@ == status_word(p),
{
    match p {
        ProgressStatus::Failed => "FAIL",
        ProgressStatus::UnexpectedSuccess => "FAIL",
        ProgressStatus::Success => "PASSED",
        ProgressStatus::Skipped => "SKIPPED",
        ProgressStatus::ExpectedFailure => "XFAIL",
        ProgressStatus::InProgress => "UNKNOWN",
    }
}

/// The report shown for a finished test with held attachments.
pub fn report(p: ProgressStatus, id: &String, atts: &Vec<(String, Vec<u8>)>) -> (r: Vec<u8>)
    ensures
        r@ == report_of(p, id@, held_list(atts@)),
{
    let ghost h = held_list(atts@);
    let mut out: Vec<u8> = Vec::new();
    push_text(&mut out, status_word_of(p));
    push_text(&mut out, ": ");
    push_text(&mut out, id.as_str());
    push_text(&mut out, "\n");
    let ghost head = out@;
    if atts.len() > 0 && atts[0].0 == "_tags".to_owned() {
        push_text(&mut out, "tags: ");
        push_bytes(&mut out, &atts[0].1);
        push_text(&mut out, "\n");
    }
    push_text(&mut out, "----------------------------------------------------------------------\n");
    let tb = report_body(atts, &mut out);
    if tb {
        push_text(&mut out, "======================================================================\n");
    }
    proof {
        let tags = if h.len() > 0 && h[0].0 == "_tags"@ {
            enc("tags: "@) + h[0].1 + enc("\n"@)
        } else {
            seq![]
        };
        let (body, t) = body_of(h);
        assert(out@ =~= report_of(p, id@, h));
    }
    out
}

/// The progress note for a terminal event status.
pub fn progress_for(s: EventStatus) -> (r: Option<ProgressStatus>)
    ensures
        r == progress_of(s),
{
    match s {
        EventStatus::Success => Some(ProgressStatus::Success),
        EventStatus::Failed => Some(ProgressStatus::Failed),
        EventStatus::Skipped => Some(ProgressStatus::Skipped),
        EventStatus::ExpectedFailure => Some(ProgressStatus::ExpectedFailure),
        EventStatus::UnexpectedSuccess => Some(ProgressStatus::UnexpectedSuccess),
        _ => None,
    }
}

/// Reads a live stream, reporting progress and forwarding test output as it goes.
pub struct ProgressParser {
    pub parser: Parser,
    pub filter: OutputFilter,
    pub output: Vec<u8>,
    pub held: Vec<(String, Vec<(String, Vec<u8>)>)>,
}

impl ProgressParser {
    /// Everything the reader holds, as plain values.
    pub open spec fn pstate(&self) -> ProgressState {
        ProgressState { parse: self.parser.state(), output: self.output@, held: held_view(self.held@) }
    }

    /// The inner parser's invariant.
    pub open spec fn wf(&self) -> bool {
        self.parser.wf()
    }

    /// A reader that has read nothing, filling a run with the given id.
    pub fn new(run_id: String, filter: OutputFilter) -> (r: ProgressParser)
        ensures
            r.wf(),
            r.filter == filter,
            r.pstate() == (ProgressState { parse: crate::stream::initial_state(), output: seq![], held: seq![] }),
            r.parser.run.id@ == run_id@,
    {
        let r = ProgressParser { parser: Parser::new(run_id), filter, output: Vec::new(), held: Vec::new() };
        assert(r.output@ =~= seq![]);
        assert(held_view(r.held@) =~= seq![]);
        r
    }

    /// Reads one item and returns what the caller should do.
    pub fn feed(&mut self, item: &StreamItem) -> (acts: Vec<ProgressAction>)
        requires
            old(self).wf(),
        ensures
            final(self).wf(),
            final(self).filter == old(self).filter,
            (final(self).pstate(), action_views(acts@)) == progress_step(old(self).pstate(), item@, old(self).filter),
            final(self).parser.run.id == old(self).parser.run.id,
    {
        let mut acts: Vec<ProgressAction> = Vec::new();
        if self.parser.done {
            assert(action_views(acts@) =~= seq![]);
            return acts;
        }
        let ghost ps = self.pstate();
        self.parser.feed(item);
        match item {
            StreamItem::Unknown => {},
            StreamItem::Bytes(b) => {
                match self.filter {
                    OutputFilter::All => {
                        acts.push(ProgressAction::Output(copy_bytes(b)));
                    },
                    OutputFilter::FailuresOnly => {
                        push_bytes(&mut self.output, b);
                    },
                }
            },
            StreamItem::Event(e) => {
                if let Some(id) = &e.test_id {
                    self.feed_event(e, id, &mut acts);
                }
            },
        }
        proof {
            assert(action_views(acts@) =~= progress_step(ps, item@, self.filter).1);
            assert(self.pstate().held =~= progress_step(ps, item@, self.filter).0.held);
            assert(self.pstate().output =~= progress_step(ps, item@, self.filter).0.output);
        }
        acts
    }

    fn feed_event(&mut self, e: &StreamEvent, id: &String, acts: &mut Vec<ProgressAction>)
        requires
            old(acts)@.len() == 0,
            e.test_id == Some(*id),
        ensures
            final(self).parser == old(self).parser,
            final(self).filter == old(self).filter,
            (final(self).output@, held_view(final(self).held@), action_views(final(acts)@)) == event_effect(
                old(self).output@,
                held_view(old(self).held@),
                e@,
                id@,
                old(self).filter,
            ),
    {
        let status = EventStatus::from_code(e.status);
        let ghost held0 = held_view(self.held@);
        if status == EventStatus::Undefined && e.file.is_some() {
            let (name, content) = match &e.file {
                Some(f) => (&f.0, &f.1),
                None => {
                    return;
                },
            };
            let mut list = match find_held(&self.held, id) {
                Some(k) => copy_held(&self.held[k].1),
                None => Vec::new(),
            };
            let text = lossy_text(content);
            let bytes = vstd::slice::slice_to_vec(text.as_str().as_bytes());
            let ghost prev = held_list(list@);
            list.push((name.clone(), bytes));
            assert(held_list(list@) =~= prev.push((name@, enc(lossy(content@)))));
            if list.len() == 1 {
                if let Some(tags) = &e.tags {
                    let ghost one = held_list(list@);
                    list.insert(0, ("_tags".to_owned(), joined_tags(tags)));
                    assert(held_list(list@) =~= seq![("_tags"@, enc(join_space(strs(tags@))))] + one);
                }
            }
            let ghost hl = held_list(list@);
            self.held.push((id.clone(), list));
            assert(held_view(self.held@) =~= held0.push((id@, hl)));
            assert(action_views(acts@) =~= seq![]);
            assert(hl == held_after(held_of(held0, id@), (name@, enc(lossy(content@))), e@.tags));
        } else if status == EventStatus::InProgress {
            acts.push(ProgressAction::Progress(id.clone(), ProgressStatus::InProgress));
            self.output = Vec::new();
            assert(self.output@ =~= seq![]);
            assert(action_views(acts@) =~= seq![ActionView::Progress(id@, ProgressStatus::InProgress)]);
        } else {
            match progress_for(status) {
                None => {
                    assert(action_views(acts@) =~= seq![]);
                },
                Some(p) => {
                    acts.push(ProgressAction::Progress(id.clone(), p));
                    let show = self.filter == OutputFilter::All || p == ProgressStatus::Failed || p
                        == ProgressStatus::UnexpectedSuccess;
                    let ghost a1 = action_views(acts@);
                    match find_held(&self.held, id) {
                        Some(k) => {
                            if show && self.held[k].1.len() > 0 {
                                let rep = report(p, id, &self.held[k].1);
                                acts.push(ProgressAction::Output(rep));
                            }
                        },
                        None => {},
                    }
                    let ghost a2 = action_views(acts@);
                    assert(a2 =~= seq![ActionView::Progress(id@, p)] + match held_of(held0, id@) {
                        Some(atts) => if shown(self.filter, p) && atts.len() > 0 {
                            seq![ActionView::Output(report_of(p, id@, atts))]
                        } else {
                            seq![]
                        },
                        None => seq![],
                    });
                    if show && self.output.len() > 0 {
                        let mut out: Vec<u8> = Vec::new();
                        std::mem::swap(&mut out, &mut self.output);
                        acts.push(ProgressAction::Output(out));
                    }
                    self.output = Vec::new();
                    assert(self.output@ =~= seq![]);
                    let empty: Vec<(String, Vec<u8>)> = Vec::new();
                    assert(held_list(empty@) =~= seq![]);
                    self.held.push((id.clone(), empty));
                    assert(held_view(self.held@) =~= held0.push((id@, seq![])));
                },
            }
        }
    }

    /// The run read so far, or the error that stopped reading.
    pub fn finish(self) -> (r: Result<TestRun, CodecError>)
        requires
            self.wf(),
        ensures
            match r {
                Ok(run) => !self.parser.bad_time && run.wf() && run.rs() == self.parser.state().results
                    && run.id == self.parser.run.id,
                Err(e) => self.parser.bad_time && e == CodecError::InvalidTimestamp,
            },
    {
        self.parser.finish()
    }
}


/// The reader's state after `items`, and every action they called for, in order.
pub open spec fn progress_items(items: Seq<ItemView>, filter: OutputFilter) -> (ProgressState, Seq<ActionView>)
    decreases items.len(),
{
    if items.len() == 0 {
        (ProgressState { parse: initial_state(), output: seq![], held: seq![] }, seq![])
    } else {
        let (ps, acts) = progress_items(items.drop_last(), filter);
        let (ps2, more) = progress_step(ps, items.last(), filter);
        (ps2, acts + more)
    }
}

/// The reader's run state after `items` is the plain reader's.
pub proof fn lemma_progress_run(items: Seq<ItemView>, filter: OutputFilter)
    ensures
        progress_items(items, filter).0.parse == parse_items(items),
    decreases items.len(),
{
    if items.len() > 0 {
        lemma_progress_run(items.drop_last(), filter);
    }
}

/// Reads a whole byte stream as the live reader does, returning the run (or the error
/// that stopped reading) and every action, in order. The run is the one that
/// `stream::parse_stream` reads from the same bytes.
pub fn parse_stream_with_progress(bytes: &[u8], run_id: String, filter: OutputFilter) -> (r: (
    Result<TestRun, CodecError>,
    Vec<ProgressAction>,
))
    ensures
        action_views(r.1@) == progress_items(scanned_items(bytes@), filter).1,
        match (r.0, parse_outcome(scanned_items(bytes@))) {
            (Ok(run), Ok(rs)) => run.wf() && run.rs() == rs && run.id@ == run_id@,
            (Err(e), Err(f)) => e == f,
            _ => false,
        },
{
    let items = scan_items(bytes);
    let ghost all = scanned_items(bytes@);
    let mut p = ProgressParser::new(run_id, filter);
    let mut acts: Vec<ProgressAction> = Vec::new();
    let mut i: usize = 0;
    assert(action_views(acts@) =~= seq![]);
    while i < items.len()
        invariant
            i <= items@.len(),
            all == item_views(items@),
            p.wf(),
            p.filter == filter,
            p.parser.run.id@ == run_id@,
            (p.pstate(), action_views(acts@)) == progress_items(all.subrange(0, i as int), filter),
        decreases items@.len() - i,
    {
        assert(all.subrange(0, i + 1).drop_last() =~= all.subrange(0, i as int));
        let more = p.feed(&items[i]);
        let ghost before = action_views(acts@);
        let mut more = more;
        let ghost mv = action_views(more@);
        acts.append(&mut more);
        assert(action_views(acts@) =~= before + mv);
        i = i + 1;
    }
    assert(all.subrange(0, i as int) =~= all);
    proof {
        lemma_progress_run(all, filter);
    }
    assert(p.parser.state() == parse_items(all));
    (p.finish(), acts)
}

} // verus!
