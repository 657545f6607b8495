//! The result store: run numbering, the failing set and the duration history.

use vstd::prelude::*;
use crate::failing::{failing_entry, merged_entry, FailingSet};
use crate::model::{ids_of, lookup, ResultView, TestId, TestRun};
use crate::partition::{lookup_time, time_of};

verus! {

/// The duration history after recording `run`: a test's duration there replaces the
/// recorded one; tests without one keep theirs.
pub open spec fn time_after(before: Option<u64>, now: Option<ResultView>) -> Option<u64> {
    match now {
        Some(r) => match r.duration {
            Some(d) => Some(d),
            None => before,
        },
        None => before,
    }
}

/// What a repository keeps besides the raw run streams.
pub struct ResultStore {
    pub next_run: u64,
    pub failing: FailingSet,
    pub times: Vec<(TestId, u64)>,
}

impl ResultStore {
    /// Consistent state: the failing set has one entry per test.
    pub open spec fn wf(&self) -> bool {
        self.failing.wf()
    }

    /// An empty store whose first run will be numbered 0.
    pub fn new() -> (r: ResultStore)
        ensures
            r.wf(),
            r.next_run == 0,
            forall|id: Seq<char>| #[trigger] r.failing.entry(id) is None,
            r.times@.len() == 0,
    {
        ResultStore { next_run: 0, failing: FailingSet::new(), times: Vec::new() }
    }

    /// Allocates a run number: the current counter, which then moves on by one.
    pub fn begin_run(&mut self) -> (r: u64)
        requires
            old(self).next_run < u64::MAX,
        ensures
            r == old(self).next_run,
            final(self).next_run == old(self).next_run + 1,
            final(self).failing == old(self).failing,
            final(self).times == old(self).times,
    {
        let r = self.next_run;
        self.next_run = self.next_run + 1;
        r
    }

    /// After a full run: the failing set becomes exactly the run's failing results.
    pub fn replace_failing(&mut self, run: &TestRun)
        requires
            run.wf(),
        ensures
            final(self).wf(),
            final(self).next_run == old(self).next_run,
            final(self).times == old(self).times,
            forall|id: Seq<char>| #[trigger]
                final(self).failing.entry(id) == failing_entry(lookup(run.rs(), id)),
    {
        self.failing.replace(run);
    }

    /// After a partial run: failing results enter or replace their entries, passing
    /// ones leave, tests that the run does not mention stay as they were.
    pub fn merge_failing(&mut self, run: &TestRun)
        requires
            old(self).wf(),
            run.wf(),
        ensures
            final(self).wf(),
            final(self).next_run == old(self).next_run,
            final(self).times == old(self).times,
            forall|id: Seq<char>| #[trigger]
                final(self).failing.entry(id) == merged_entry(old(self).failing.entry(id), lookup(run.rs(), id)),
    {
        self.failing.merge(run);
    }

    /// The ids of the tests that currently fail.
    pub fn get_failing_ids(&self) -> (r: Vec<TestId>)
        requires
            self.wf(),
        ensures
            forall|id: Seq<char>| ids_of(r@).contains(id) <==> #[trigger] self.failing.entry(id) is Some,
    {
        self.failing.ids()
    }

    /// Records the known durations of `run`; each overwrites the one held for its test.
    pub fn update_durations(&mut self, run: &TestRun)
        requires
            run.wf(),
        ensures
            final(self).next_run == old(self).next_run,
            final(self).failing == old(self).failing,
            forall|id: Seq<char>| #[trigger]
                time_of(final(self).times@, id) == time_after(time_of(old(self).times@, id), lookup(run.rs(), id)),
    {
        let ghost before = self.times@;
        let ghost n0 = self.next_run;
        let ghost f0 = self.failing;
        let mut j: usize = 0;
        while j < run.results.len()
            invariant
                j <= run.results@.len(),
                run.wf(),
                self.next_run == n0,
                self.failing == f0,
                forall|id: Seq<char>| #[trigger]
                    time_of(self.times@, id) == time_after(time_of(before, id), lookup(run.rs().subrange(0, j as int), id)),
            decreases run.results@.len() - j,
        {
            proof {
                crate::failing::lemma_prefix_step(run.rs(), j as int);
            }
            let ghost prev = self.times@;
            assert forall|id: Seq<char>|
                #[trigger] time_of(prev, id) == time_after(time_of(before, id), lookup(run.rs().subrange(0, j as int), id)) by {
                assert(time_of(self.times@, id) == time_of(prev, id));
            }
            match run.results[j].duration {
                Some(d) => {
                    self.times.push((run.results[j].test_id.clone(), d));
                    assert forall|id: Seq<char>| #[trigger] time_of(self.times@, id) == if id == run.rs()[j as int].test_id {
                        Some(d)
                    } else {
                        time_of(prev, id)
                    } by {
                        assert(self.times@.drop_last() =~= prev);
                    }
                },
                None => {},
            }
            j = j + 1;
        }
        assert(run.rs().subrange(0, j as int) =~= run.rs());
    }

    /// The recorded durations of the given tests; tests without one are left out.
    pub fn get_durations_for(&self, ids: &Vec<TestId>) -> (r: Vec<(TestId, u64)>)
        ensures
            forall|i: int| 0 <= i < ids@.len() ==> time_of(r@, #[trigger] ids@[i]@) == time_of(self.times@, ids@[i]@),
            forall|x: Seq<char>| #[trigger] time_of(r@, x) is Some ==> ids_of(ids@).contains(x),
    {
        let mut out: Vec<(TestId, u64)> = Vec::new();
        let mut i: usize = 0;
        while i < ids.len()
            invariant
                i <= ids@.len(),
                forall|k: int| 0 <= k < i ==> time_of(out@, #[trigger] ids@[k]@) == time_of(self.times@, ids@[k]@),
                forall|x: Seq<char>| time_of(out@, x) is Some ==> #[trigger] time_of(out@, x) == time_of(self.times@, x),
                forall|x: Seq<char>| #[trigger] time_of(out@, x) is Some ==> ids_of(ids@).subrange(0, i as int).contains(x),
            decreases ids@.len() - i,
        {
            let ghost prev = out@;
            match lookup_time(&self.times, &ids[i]) {
                Some(d) => {
                    out.push((ids[i].clone(), d));
                    assert(out@.drop_last() =~= prev);
                    assert forall|x: Seq<char>| time_of(out@, x) is Some implies #[trigger] time_of(out@, x) == time_of(
                        self.times@,
                        x,
                    ) by {
                        if x != ids@[i as int]@ {
                            assert(time_of(out@, x) == time_of(prev, x));
                        }
                    }
                    assert forall|k: int| 0 <= k < i + 1 implies time_of(out@, #[trigger] ids@[k]@) == time_of(
                        self.times@,
                        ids@[k]@,
                    ) by {
                        if ids@[k]@ != ids@[i as int]@ {
                            assert(time_of(out@, ids@[k]@) == time_of(prev, ids@[k]@));
                        }
                    }
                    assert forall|x: Seq<char>| #[trigger] time_of(out@, x) is Some implies ids_of(ids@).subrange(
                        0,
                        i + 1,
                    ).contains(x) by {
                        let sub = ids_of(ids@).subrange(0, i + 1);
                        if x == ids@[i as int]@ {
                            assert(sub[i as int] == x);
                        } else {
                            assert(time_of(out@, x) == time_of(prev, x));
                            let j = choose|j: int| 0 <= j < i && ids_of(ids@).subrange(0, i as int)[j] == x;
                            assert(sub[j] == x);
                        }
                    }
                },
                None => {
                    assert forall|x: Seq<char>| #[trigger] time_of(out@, x) is Some implies ids_of(ids@).subrange(
                        0,
                        i + 1,
                    ).contains(x) by {
                        let j = choose|j: int| 0 <= j < i && ids_of(ids@).subrange(0, i as int)[j] == x;
                        assert(ids_of(ids@).subrange(0, i + 1)[j] == x);
                    }
                    assert forall|k: int| 0 <= k < i + 1 implies time_of(out@, #[trigger] ids@[k]@) == time_of(
                        self.times@,
                        ids@[k]@,
                    ) by {
                        if k == i {
                            if time_of(out@, ids@[k]@) is Some {
                                assert(time_of(out@, ids@[k]@) == time_of(self.times@, ids@[k]@));
                            }
                        }
                    }
                },
            }
            i = i + 1;
        }
        assert(ids_of(ids@).subrange(0, i as int) =~= ids_of(ids@));
        out
    }

    /// Files a finished run: a number for it, the failing set replaced (full run) or
    /// merged (partial run), and its durations recorded.
    pub fn insert_run(&mut self, run: &TestRun, partial: bool) -> (r: u64)
        requires
            old(self).wf(),
            run.wf(),
            old(self).next_run < u64::MAX,
        ensures
            final(self).wf(),
            r == old(self).next_run,
            final(self).next_run == old(self).next_run + 1,
            forall|id: Seq<char>| #[trigger]
                final(self).failing.entry(id) == if partial {
                    merged_entry(old(self).failing.entry(id), lookup(run.rs(), id))
                } else {
                    failing_entry(lookup(run.rs(), id))
                },
            forall|id: Seq<char>| #[trigger]
                time_of(final(self).times@, id) == time_after(time_of(old(self).times@, id), lookup(run.rs(), id)),
    {
        let r = self.begin_run();
        if partial {
            self.merge_failing(run);
        } else {
            self.replace_failing(run);
        }
        self.update_durations(run);
        r
    }
}

} // verus!
