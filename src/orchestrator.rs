//! The decisions of a test run: which tests to run, how worker results are labelled
//! and combined, and what the outcome is. Spawning and waiting are the caller's part.

use vstd::prelude::*;
use vstd::string::StringExecFns;
use crate::grouping::{pattern_compiles, pattern_matches, GroupPattern};
use crate::model::{ids_of, lookup, strs, ResultView, TestId, TestRun};

verus! {

/// The decimal digits of `n`.
pub open spec fn decimal(n: nat) -> Seq<char>
    decreases n,
{
    if n < 10 {
        seq![digit(n)]
    } else {
        decimal(n / 10).push(digit(n % 10))
    }
}

/// The character of a digit.
pub open spec fn digit(d: nat) -> char {
    if d == 0 { '0' } else if d == 1 { '1' } else if d == 2 { '2' } else if d == 3 { '3' } else if d == 4 { '4' }
    else if d == 5 { '5' } else if d == 6 { '6' } else if d == 7 { '7' } else if d == 8 { '8' } else { '9' }
}

/// Relies on std's `Display` for `usize`, which writes an integer in decimal.
#[verifier::external_body]
fn decimal_text(n: usize) -> (r: String)
    ensures
        r@ == decimal(n as nat),
{
    n.to_string()
}

/// The tag that marks the results of worker `worker`: `worker-` and its number.
pub fn worker_tag(worker: usize) -> (r: String)
    ensures
        r@ == "worker-"@ + decimal(worker as nat),
{
    let mut tag = String::from_str("worker-");
    let digits = decimal_text(worker);
    tag.append(digits.as_str());
    tag
}

/// A result's tags with `tag` added at the end unless already there.
pub open spec fn with_tag_once(tags: Seq<Seq<char>>, tag: Seq<char>) -> Seq<Seq<char>> {
    if tags.contains(tag) {
        tags
    } else {
        tags.push(tag)
    }
}

/// Whether `tags` holds `tag`.
fn has_tag(tags: &Vec<String>, tag: &String) -> (r: bool)
    ensures
        r == strs(tags@).contains(tag@),
{
    let mut i: usize = 0;
    while i < tags.len()
        invariant
            i <= tags@.len(),
            forall|k: int| 0 <= k < i ==> strs(tags@)[k] != tag@,
        decreases tags@.len() - i,
    {
        if tags[i] == *tag {
            assert(strs(tags@)[i as int] == tag@);
            return true;
        }
        i = i + 1;
    }
    false
}

/// Labels every result of a worker's run with `tag`, once.
pub fn tag_results(run: &mut TestRun, tag: &String)
    requires
        old(run).wf(),
    ensures
        final(run).wf(),
        final(run).id == old(run).id,
        final(run).timestamp == old(run).timestamp,
        final(run).rs().len() == old(run).rs().len(),
        forall|i: int|
            0 <= i < old(run).rs().len() ==> #[trigger] final(run).rs()[i] == (ResultView {
                tags: with_tag_once(old(run).rs()[i].tags, tag@),
                ..old(run).rs()[i]
            }),
{
    let ghost before = run.rs();
    let mut i: usize = 0;
    while i < run.results.len()
        invariant
            i <= run.results@.len(),
            run.rs().len() == before.len(),
            run.id == old(run).id,
            run.timestamp == old(run).timestamp,
            forall|k: int| 0 <= k < i ==> #[trigger] run.rs()[k] == (ResultView {
                tags: with_tag_once(before[k].tags, tag@),
                ..before[k]
            }),
            forall|k: int| i <= k < before.len() ==> #[trigger] run.rs()[k] == before[k],
        decreases run.results@.len() - i,
    {
        assert(run.rs()[i as int] == before[i as int]);
        let mut r = run.results[i].clone();
        assert(r@ == before[i as int]);
        if !has_tag(&r.tags, tag) {
            let ghost t0 = r.tags@;
            r.tags.push(tag.clone());
            assert(strs(r.tags@) =~= strs(t0).push(tag@));
        }
        assert(r@ == (ResultView { tags: with_tag_once(before[i as int].tags, tag@), ..before[i as int] }));
        let ghost prev = run.rs();
        run.results.set(i, r);
        assert(run.rs() =~= prev.update(i as int, run.rs()[i as int]));
        i = i + 1;
    }
    assert(crate::model::unique_ids(run.rs())) by {
        assert forall|a: int, b: int|
            0 <= a < run.rs().len() && 0 <= b < run.rs().len() && a != b implies #[trigger] run.rs()[a].test_id
            != #[trigger] run.rs()[b].test_id by {
            assert(before[a].test_id != before[b].test_id);
        }
    }
}

/// Adds a worker's results to the combined run. Workers are given disjoint tests; were
/// an id to come twice, the later result would stand.
pub fn merge_into(combined: &mut TestRun, worker: &TestRun)
    requires
        old(combined).wf(),
        worker.wf(),
    ensures
        final(combined).wf(),
        final(combined).id == old(combined).id,
        final(combined).timestamp == old(combined).timestamp,
        forall|id: Seq<char>| #[trigger]
            lookup(final(combined).rs(), id) == match lookup(worker.rs(), id) {
                Some(r) => Some(r),
                None => lookup(old(combined).rs(), id),
            },
{
    let ghost before = combined.rs();
    let mut j: usize = 0;
    while j < worker.results.len()
        invariant
            j <= worker.results@.len(),
            worker.wf(),
            combined.wf(),
            combined.id == old(combined).id,
            combined.timestamp == old(combined).timestamp,
            forall|id: Seq<char>| #[trigger]
                lookup(combined.rs(), id) == match lookup(worker.rs().subrange(0, j as int), id) {
                    Some(r) => Some(r),
                    None => lookup(before, id),
                },
        decreases worker.results@.len() - j,
    {
        proof {
            crate::failing::lemma_prefix_step(worker.rs(), j as int);
        }
        let ghost prev = combined.rs();
        assert forall|id: Seq<char>|
            #[trigger] lookup(prev, id) == match lookup(worker.rs().subrange(0, j as int), id) {
                Some(r) => Some(r),
                None => lookup(before, id),
            } by {
            assert(lookup(combined.rs(), id) == lookup(prev, id));
        }
        let item = worker.results[j].clone();
        combined.add_result(item);
        j = j + 1;
    }
    assert(worker.rs().subrange(0, j as int) =~= worker.rs());
}

/// The exit status of a run: 1 when a test failed or a worker exited unsuccessfully.
pub fn exit_code(failures: usize, any_worker_failed: bool) -> (r: i32)
    ensures
        r == (if failures > 0 || any_worker_failed { 1i32 } else { 0i32 }),
{
    if failures > 0 || any_worker_failed {
        1
    } else {
        0
    }
}

/// Whether an until-failure loop runs another round after a round that ended with
/// `exit_code`: only while rounds keep succeeding.
pub fn run_again(until_failure: bool, exit_code: i32) -> (r: bool)
    ensures
        r == (until_failure && exit_code == 0),
{
    until_failure && exit_code == 0
}

/// The ids of `ids` that `keep` also names, in order.
pub open spec fn listed(ids: Seq<Seq<char>>, keep: Seq<Seq<char>>) -> Seq<Seq<char>> {
    ids.filter(|x: Seq<char>| keep.contains(x))
}

/// Whether `list` names `id`.
fn names_id(list: &Vec<TestId>, id: &TestId) -> (r: bool)
    ensures
        r == ids_of(list@).contains(id@),
{
    let mut i: usize = 0;
    while i < list.len()
        invariant
            i <= list@.len(),
            forall|k: int| 0 <= k < i ==> ids_of(list@)[k] != id@,
        decreases list@.len() - i,
    {
        if list[i] == *id {
            assert(ids_of(list@)[i as int] == id@);
            return true;
        }
        i = i + 1;
    }
    false
}

/// The tests of `ids` that `list` also names, in the order of `ids`.
pub fn intersect_ids(ids: &Vec<TestId>, list: &Vec<TestId>) -> (r: Vec<TestId>)
    ensures
        ids_of(r@) == listed(ids_of(ids@), ids_of(list@)),
{
    let ghost keep = ids_of(list@);
    let mut out: Vec<TestId> = Vec::new();
    let mut i: usize = 0;
    assert(ids_of(ids@).subrange(0, 0) =~= seq![]);
    assert(listed(seq![], keep) =~= seq![]) by {
        reveal(Seq::filter);
    }
    while i < ids.len()
        invariant
            i <= ids@.len(),
            keep == ids_of(list@),
            ids_of(out@) == listed(ids_of(ids@).subrange(0, i as int), keep),
        decreases ids@.len() - i,
    {
        let ghost pre = ids_of(ids@).subrange(0, i as int);
        assert(ids_of(ids@).subrange(0, i + 1) =~= pre.push(ids@[i as int]@));
        proof {
            assert(pre.push(ids@[i as int]@).drop_last() =~= pre);
            reveal(Seq::filter);
            assert(listed(pre.push(ids@[i as int]@), keep) == if keep.contains(ids@[i as int]@) {
                listed(pre, keep).push(ids@[i as int]@)
            } else {
                listed(pre, keep)
            });
        }
        if names_id(list, &ids[i]) {
            let ghost o = out@;
            out.push(ids[i].clone());
            assert(ids_of(out@) =~= ids_of(o).push(ids@[i as int]@));
        }
        i = i + 1;
    }
    assert(ids_of(ids@).subrange(0, i as int) =~= ids_of(ids@));
    out
}

/// Some pattern of `patterns` matches `id`.
pub open spec fn any_match(patterns: Seq<Seq<char>>, id: Seq<char>) -> bool {
    exists|k: int| 0 <= k < patterns.len() && pattern_matches(#[trigger] patterns[k], id)
}

/// The tests that match at least one of `patterns`, in order. A pattern that does not
/// compile is an error before anything is filtered.
pub fn filter_by_patterns(ids: &Vec<TestId>, patterns: &Vec<String>) -> (r: Result<Vec<TestId>, regex::Error>)
    ensures
        r is Ok <==> forall|k: int| 0 <= k < patterns@.len() ==> pattern_compiles(#[trigger] strs(patterns@)[k]),
        match r {
            Ok(v) => ids_of(v@) == ids_of(ids@).filter(|x: Seq<char>| any_match(strs(patterns@), x)),
            Err(_) => true,
        },
{
    let ghost ps = strs(patterns@);
    let mut compiled: Vec<GroupPattern> = Vec::new();
    let mut k: usize = 0;
    while k < patterns.len()
        invariant
            k <= patterns@.len(),
            ps == strs(patterns@),
            compiled@.len() == k,
            forall|j: int| 0 <= j < k ==> #[trigger] compiled@[j].pattern() == ps[j],
            forall|j: int| 0 <= j < k ==> pattern_compiles(#[trigger] ps[j]),
        decreases patterns@.len() - k,
    {
        match GroupPattern::new(patterns[k].as_str()) {
            Ok(g) => {
                compiled.push(g);
            },
            Err(e) => {
                assert(!pattern_compiles(ps[k as int]));
                return Err(e);
            },
        }
        k = k + 1;
    }
    let mut out: Vec<TestId> = Vec::new();
    let mut i: usize = 0;
    let ghost f = |x: Seq<char>| any_match(ps, x);
    assert(ids_of(ids@).subrange(0, 0) =~= seq![]);
    assert(seq![].filter(f) =~= Seq::<Seq<char>>::empty()) by {
        reveal(Seq::filter);
    }
    while i < ids.len()
        invariant
            i <= ids@.len(),
            ps == strs(patterns@),
            compiled@.len() == ps.len(),
            forall|j: int| 0 <= j < ps.len() ==> #[trigger] compiled@[j].pattern() == ps[j],
            f == (|x: Seq<char>| any_match(ps, x)),
            ids_of(out@) == ids_of(ids@).subrange(0, i as int).filter(f),
        decreases ids@.len() - i,
    {
        let ghost pre = ids_of(ids@).subrange(0, i as int);
        let ghost x = ids@[i as int]@;
        assert(ids_of(ids@).subrange(0, i + 1) =~= pre.push(x));
        proof {
            assert(pre.push(x).drop_last() =~= pre);
            reveal(Seq::filter);
            assert(pre.push(x).filter(f) == if f(x) {
                pre.filter(f).push(x)
            } else {
                pre.filter(f)
            });
        }
        let mut hit = false;
        let mut j: usize = 0;
        while j < compiled.len()
            invariant
                j <= compiled@.len(),
                compiled@.len() == ps.len(),
                forall|q: int| 0 <= q < ps.len() ==> #[trigger] compiled@[q].pattern() == ps[q],
                hit == exists|q: int| 0 <= q < j && pattern_matches(#[trigger] ps[q], x),
                i < ids@.len(),
                x == ids@[i as int]@,
            decreases compiled@.len() - j,
        {
            if compiled[j].matches(ids[i].as_str()) {
                hit = true;
            }
            j = j + 1;
        }
        if hit {
            let ghost o = out@;
            out.push(ids[i].clone());
            assert(ids_of(out@) =~= ids_of(o).push(x));
        }
        i = i + 1;
    }
    assert(ids_of(ids@).subrange(0, i as int) =~= ids_of(ids@));
    Ok(out)
}


/// How a run executes its tests.
#[derive(Debug, Clone, Copy, PartialEq, Eq, Structural)]
pub enum RunMode {
    /// One process per test, one after another.
    Isolated,
    /// This many workers at once.
    Parallel(usize),
    /// One process for all the tests.
    Serial,
}

/// The number of workers: the one asked for, the machine's processor count when zero is
/// asked for, else the configured one, else one.
pub open spec fn workers_for(requested: Option<usize>, cpus: usize, configured: Option<usize>) -> usize {
    match requested {
        Some(n) => if n == 0 {
            cpus
        } else {
            n
        },
        None => match configured {
            Some(c) => c,
            None => 1,
        },
    }
}

/// Chooses how a run executes: isolated when asked, in parallel when more than one
/// worker results, serially otherwise.
pub fn run_mode(isolated: bool, requested: Option<usize>, cpus: usize, configured: Option<usize>) -> (r: RunMode)
    ensures
        r == (if isolated {
            RunMode::Isolated
        } else if workers_for(requested, cpus, configured) > 1 {
            RunMode::Parallel(workers_for(requested, cpus, configured))
        } else {
            RunMode::Serial
        }),
{
    let workers = match requested {
        Some(n) => if n == 0 {
            cpus
        } else {
            n
        },
        None => match configured {
            Some(c) => c,
            None => 1,
        },
    };
    if isolated {
        RunMode::Isolated
    } else if workers > 1 {
        RunMode::Parallel(workers)
    } else {
        RunMode::Serial
    }
}

} // verus!
