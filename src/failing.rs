//! The set of tests that currently fail, and how a finished run changes it.

use vstd::prelude::*;
use crate::model::{
    has_id, lemma_lookup_push, lookup, put_result, remove_result, unique_ids, views, ResultView,
    TestId, TestResult, TestRun, ids_of,
};

verus! {

/// The entry that a failing set keeps for a test after a full run: the run's result
/// when it fails, and nothing otherwise.
pub open spec fn failing_entry(now: Option<ResultView>) -> Option<ResultView> {
    match now {
        Some(r) => if r.status.spec_is_failure() {
            Some(r)
        } else {
            None
        },
        None => None,
    }
}

/// The entry that a failing set keeps for a test after a partial run: the run's verdict
/// where the run has the test, and the earlier entry where it does not.
pub open spec fn merged_entry(before: Option<ResultView>, now: Option<ResultView>) -> Option<ResultView> {
    match now {
        Some(_) => failing_entry(now),
        None => before,
    }
}

/// The latest failing result of each test that currently fails.
pub struct FailingSet {
    pub results: Vec<TestResult>,
}

impl FailingSet {
    /// The entries as plain values.
    pub open spec fn rs(&self) -> Seq<ResultView> {
        views(self.results@)
    }

    /// Each test appears at most once.
    pub open spec fn wf(&self) -> bool {
        unique_ids(self.rs())
    }

    /// The entry held for `id`.
    pub open spec fn entry(&self, id: Seq<char>) -> Option<ResultView> {
        lookup(self.rs(), id)
    }

    /// A set with no failing test.
    pub fn new() -> (r: FailingSet)
        ensures
            r.wf(),
            forall|id: Seq<char>| #[trigger] r.entry(id) is None,
    {
        FailingSet { results: Vec::new() }
    }

    /// After a full run: the set becomes exactly the failing results of `run`.
    pub fn replace(&mut self, run: &TestRun)
        requires
            run.wf(),
        ensures
            final(self).wf(),
            forall|id: Seq<char>| #[trigger]
                final(self).entry(id) == failing_entry(lookup(run.rs(), id)),
    {
        self.results = Vec::new();
        let mut j: usize = 0;
        while j < run.results.len()
            invariant
                j <= run.results@.len(),
                run.wf(),
                self.wf(),
                forall|id: Seq<char>| #[trigger]
                    self.entry(id) == failing_entry(lookup(run.rs().subrange(0, j as int), id)),
            decreases run.results@.len() - j,
        {
            proof {
                lemma_prefix_step(run.rs(), j as int);
            }
            let ghost pre = self.rs();
            let ghost x = run.rs()[j as int];
            let item = run.results[j].clone();
            assert(item@ == x);
            if item.status.is_failure() {
                put_result(&mut self.results, item);
            }
            proof {
                assert forall|id: Seq<char>| #[trigger]
                    self.entry(id) == failing_entry(lookup(run.rs().subrange(0, j + 1), id)) by {
                    assert(lookup(pre, id) == failing_entry(lookup(run.rs().subrange(0, j as int), id)));
                    if id == x.test_id {
                        assert(lookup(run.rs().subrange(0, j as int), id) is None);
                    }
                }
            }
            j = j + 1;
        }
        assert(run.rs().subrange(0, j as int) =~= run.rs());
    }

    /// After a partial run: failing results of `run` enter or replace their entries,
    /// passing ones drop theirs, and tests that `run` does not mention keep theirs.
    pub fn merge(&mut self, run: &TestRun)
        requires
            old(self).wf(),
            run.wf(),
        ensures
            final(self).wf(),
            forall|id: Seq<char>| #[trigger]
                final(self).entry(id) == merged_entry(old(self).entry(id), lookup(run.rs(), id)),
    {
        let ghost before = self.rs();
        let mut j: usize = 0;
        while j < run.results.len()
            invariant
                j <= run.results@.len(),
                run.wf(),
                self.wf(),
                forall|id: Seq<char>| #[trigger]
                    self.entry(id) == merged_entry(
                        lookup(before, id),
                        lookup(run.rs().subrange(0, j as int), id),
                    ),
            decreases run.results@.len() - j,
        {
            proof {
                lemma_prefix_step(run.rs(), j as int);
            }
            let ghost pre = self.rs();
            let ghost x = run.rs()[j as int];
            assert forall|id: Seq<char>|
                #[trigger] lookup(pre, id) == merged_entry(
                    lookup(before, id),
                    lookup(run.rs().subrange(0, j as int), id),
                ) by {
                assert(self.entry(id) == lookup(pre, id));
            }
            let item = run.results[j].clone();
            assert(item@ == x);
            if item.status.is_failure() {
                put_result(&mut self.results, item);
            } else {
                remove_result(&mut self.results, &item.test_id);
            }
            proof {
                assert forall|id: Seq<char>| #[trigger]
                    self.entry(id) == merged_entry(
                        lookup(before, id),
                        lookup(run.rs().subrange(0, j + 1), id),
                    ) by {
                    assert(lookup(pre, id) == merged_entry(
                        lookup(before, id),
                        lookup(run.rs().subrange(0, j as int), id),
                    ));
                }
            }
            j = j + 1;
        }
        assert(run.rs().subrange(0, j as int) =~= run.rs());
    }

    /// The ids of the tests that currently fail.
    pub fn ids(&self) -> (r: Vec<TestId>)
        requires
            self.wf(),
        ensures
            forall|id: Seq<char>| ids_of(r@).contains(id) <==> #[trigger] self.entry(id) is Some,
    {
        let mut out: Vec<TestId> = Vec::new();
        let mut i: usize = 0;
        while i < self.results.len()
            invariant
                i <= self.results@.len(),
                ids_of(out@) == ids_in(self.rs().subrange(0, i as int)),
            decreases self.results@.len() - i,
        {
            let ghost prev = out@;
            out.push(self.results[i].test_id.clone());
            assert(ids_of(out@) =~= ids_of(prev).push(self.rs()[i as int].test_id));
            assert(self.rs().subrange(0, i + 1) =~= self.rs().subrange(0, i as int).push(self.rs()[i as int]));
            i = i + 1;
            assert(ids_of(out@) =~= ids_in(self.rs().subrange(0, i as int)));
        }
        assert(self.rs().subrange(0, i as int) =~= self.rs());
        assert forall|id: Seq<char>| ids_of(out@).contains(id) <==> #[trigger] self.entry(id) is Some by {
            if has_id(self.rs(), id) {
                let k = choose|k: int| 0 <= k < self.rs().len() && #[trigger] self.rs()[k].test_id == id;
                assert(ids_in(self.rs())[k] == id);
            }
            if ids_of(out@).contains(id) {
                let k = choose|k: int| 0 <= k < ids_of(out@).len() && ids_of(out@)[k] == id;
                assert(ids_in(self.rs())[k] == self.rs()[k].test_id);
            }
        }
        out
    }
}

/// The ids of a list of results, in order.
pub open spec fn ids_in(s: Seq<ResultView>) -> Seq<Seq<char>> {
    s.map_values(|r: ResultView| r.test_id)
}

/// Extending a prefix of a list with unique ids by its next element adds exactly that
/// element's lookup.
pub proof fn lemma_prefix_step(s: Seq<ResultView>, j: int)
    requires
        unique_ids(s),
        0 <= j < s.len(),
    ensures
        unique_ids(s.subrange(0, j)),
        s.subrange(0, j + 1) == s.subrange(0, j).push(s[j]),
        !has_id(s.subrange(0, j), s[j].test_id),
        forall|id: Seq<char>| #[trigger]
            lookup(s.subrange(0, j + 1), id) == if id == s[j].test_id {
                Some(s[j])
            } else {
                lookup(s.subrange(0, j), id)
            },
{
    let p = s.subrange(0, j);
    assert(s.subrange(0, j + 1) =~= p.push(s[j]));
    assert(unique_ids(p)) by {
        assert forall|a: int, b: int|
            0 <= a < p.len() && 0 <= b < p.len() && a != b implies #[trigger] p[a].test_id
            != #[trigger] p[b].test_id by {
            assert(p[a] == s[a] && p[b] == s[b]);
        }
    }
    assert(!has_id(p, s[j].test_id)) by {
        if has_id(p, s[j].test_id) {
            let a = choose|a: int| 0 <= a < p.len() && #[trigger] p[a].test_id == s[j].test_id;
            assert(p[a] == s[a]);
        }
    }
    lemma_lookup_push(p, s[j]);
}

} // verus!
