//! Finding which tests make a target test fail when they run before it.
//!
//! The search is a state machine: it names the candidates to run with the target, the
//! caller runs them and reports whether the target failed, and the search moves on.
//! First the shortest failing prefix of the candidates is found by binary search; then
//! each test of that prefix, last first, is dropped when the failure stays without it.

use vstd::prelude::*;
use crate::model::{ids_of, TestId};
use crate::partition::copy_ids;

verus! {

/// The binary search for the shortest prefix of candidates with which the target fails.
pub struct PrefixSearch {
    pub left: usize,
    pub right: usize,
    pub best: usize,
    pub n: usize,
}

/// Failing is monotone in the prefix length: a failing prefix still fails when longer.
pub open spec fn monotone(fails: spec_fn(nat) -> bool, n: nat) -> bool {
    forall|a: nat, b: nat| a <= b <= n && #[trigger] fails(a) ==> #[trigger] fails(b)
}

impl PrefixSearch {
    /// Positions stay ordered and the best prefix found so far bounds the open range.
    pub open spec fn wf(&self) -> bool {
        self.left <= self.right && self.right <= self.n && self.right <= self.best && self.best <= self.n
    }

    /// A search over `n` candidates; with no answer yet, all of them are the best guess.
    pub fn new(n: usize) -> (r: PrefixSearch)
        ensures
            r.wf(),
            r.left == 0 && r.right == n && r.best == n && r.n == n,
    {
        PrefixSearch { left: 0, right: n, best: n, n }
    }

    /// The prefix length to try next, or none when the search is over.
    pub fn probe(&self) -> (r: Option<usize>)
        requires
            self.wf(),
        ensures
            match r {
                Some(k) => self.left < self.right && k == (self.left + (self.right - self.left) / 2) + 1 && 1 <= k <= self.right,
                None => self.left >= self.right,
            },
    {
        if self.left < self.right {
            Some((self.left + (self.right - self.left) / 2) + 1)
        } else {
            None
        }
    }

    /// Takes the answer for the prefix that `probe` named: failing narrows to it, passing
    /// moves past it.
    pub fn record(&mut self, failed: bool)
        requires
            old(self).wf(),
            old(self).left < old(self).right,
        ensures
            final(self).wf(),
            final(self).n == old(self).n,
            final(self).right - final(self).left < old(self).right - old(self).left,
            ({
                let k = (old(self).left + (old(self).right - old(self).left) / 2) + 1;
                if failed {
                    final(self).right == k - 1 && final(self).best == k && final(self).left == old(self).left
                } else {
                    final(self).left == k && final(self).right == old(self).right && final(self).best == old(self).best
                }
            }),
    {
        let mid = (self.left + (self.right - self.left) / 2);
        if failed {
            self.right = mid;
            self.best = mid + 1;
        } else {
            self.left = mid + 1;
        }
    }
}

/// What the answers so far show for the outcome `fails` of each prefix length: no
/// prefix up to `left` fails, `best` fails unless it is still `n`, and `best` lies just
/// past the open range once a failure has been seen.
pub open spec fn explains(s: PrefixSearch, fails: spec_fn(nat) -> bool) -> bool {
    &&& forall|k: nat| 1 <= k <= s.left ==> !#[trigger] fails(k)
    &&& (s.best < s.n ==> fails(s.best as nat))
    &&& (s.best == s.right + 1 || (s.best == s.n && s.right == s.n))
}

/// A fresh search explains any outcome.
pub proof fn lemma_new_explains(n: usize, fails: spec_fn(nat) -> bool)
    ensures
        explains(PrefixSearch { left: 0, right: n, best: n, n }, fails),
{
}

/// Recording the true outcome of the probed prefix keeps the search explaining a
/// monotone outcome.
pub proof fn lemma_record_explains(before: PrefixSearch, after: PrefixSearch, fails: spec_fn(nat) -> bool)
    requires
        before.wf(),
        before.left < before.right,
        explains(before, fails),
        monotone(fails, before.n as nat),
        ({
            let k = (before.left + (before.right - before.left) / 2 + 1) as nat;
            if fails(k) {
                after == (PrefixSearch { right: (k - 1) as usize, best: k as usize, ..before })
            } else {
                after == (PrefixSearch { left: k as usize, ..before })
            }
        }),
    ensures
        explains(after, fails),
{
    let k = (before.left + (before.right - before.left) / 2 + 1) as nat;
    if !fails(k) {
        assert forall|j: nat| 1 <= j <= after.left implies !#[trigger] fails(j) by {
            if fails(j) {
                assert(fails(k));
            }
        }
    }
}

/// When the search is over, `best` is the shortest failing prefix: nothing shorter
/// fails, and `best` fails unless no probe failed.
pub proof fn lemma_search_finds_shortest(s: PrefixSearch, fails: spec_fn(nat) -> bool)
    requires
        s.wf(),
        s.left >= s.right,
        explains(s, fails),
    ensures
        forall|k: nat| 1 <= k < s.best ==> !#[trigger] fails(k),
        s.best < s.n ==> fails(s.best as nat),
{
}

/// The candidates without the one at `i`.
pub fn without(candidates: &Vec<TestId>, i: usize) -> (r: Vec<TestId>)
    requires
        i < candidates@.len(),
    ensures
        ids_of(r@) == ids_of(candidates@).remove(i as int),
{
    let mut r: Vec<TestId> = Vec::new();
    let mut k: usize = 0;
    while k < candidates.len()
        invariant
            k <= candidates@.len(),
            i < candidates@.len(),
            ids_of(r@) == if k <= i {
                ids_of(candidates@).subrange(0, k as int)
            } else {
                ids_of(candidates@).subrange(0, i as int) + ids_of(candidates@).subrange(i + 1, k as int)
            },
        decreases candidates@.len() - k,
    {
        if k != i {
            let ghost prev = r@;
            r.push(candidates[k].clone());
            assert(ids_of(r@) =~= ids_of(prev).push(candidates@[k as int]@));
        }
        k = k + 1;
        let ghost c = ids_of(candidates@);
        assert(ids_of(r@) =~= if k <= i {
            c.subrange(0, k as int)
        } else {
            c.subrange(0, i as int) + c.subrange(i + 1, k as int)
        });
    }
    assert(ids_of(candidates@).remove(i as int) =~= ids_of(candidates@).subrange(0, i as int) + ids_of(
        candidates@,
    ).subrange(i + 1, candidates@.len() as int));
    r
}

/// The first `k` candidates.
pub fn prefix(candidates: &Vec<TestId>, k: usize) -> (r: Vec<TestId>)
    requires
        k <= candidates@.len(),
    ensures
        ids_of(r@) == ids_of(candidates@).subrange(0, k as int),
{
    let mut r: Vec<TestId> = Vec::new();
    let mut j: usize = 0;
    while j < k
        invariant
            j <= k <= candidates@.len(),
            ids_of(r@) == ids_of(candidates@).subrange(0, j as int),
        decreases k - j,
    {
        let ghost prev = r@;
        r.push(candidates[j].clone());
        assert(ids_of(r@) =~= ids_of(prev).push(candidates@[j as int]@));
        assert(ids_of(candidates@).subrange(0, j + 1) =~= ids_of(candidates@).subrange(0, j as int).push(
            candidates@[j as int]@,
        ));
        j = j + 1;
    }
    r
}

/// The pass that drops, last first, each test without which the target still fails.
pub struct Minimizer {
    pub set: Vec<TestId>,
    pub next: usize,
}

impl Minimizer {
    /// Starts from `set`, to be tried from its last test down.
    pub fn new(set: &Vec<TestId>) -> (r: Minimizer)
        ensures
            ids_of(r.set@) == ids_of(set@),
            r.next == set@.len(),
    {
        Minimizer { set: copy_ids(set), next: set.len() }
    }

    /// The tests to run next (the set without one test), or none when the pass is over.
    pub fn probe(&self) -> (r: Option<Vec<TestId>>)
        requires
            self.next <= self.set@.len(),
        ensures
            match r {
                Some(v) => self.next > 0 && ids_of(v@) == ids_of(self.set@).remove(self.next - 1),
                None => self.next == 0,
            },
    {
        if self.next == 0 {
            None
        } else {
            Some(without(&self.set, self.next - 1))
        }
    }

    /// Takes the answer for the last probe: when the target still failed, that test goes.
    pub fn record(&mut self, still_fails: bool)
        requires
            0 < old(self).next <= old(self).set@.len(),
        ensures
            final(self).next == old(self).next - 1,
            final(self).next <= final(self).set@.len(),
            ids_of(final(self).set@) == if still_fails {
                ids_of(old(self).set@).remove(old(self).next - 1)
            } else {
                ids_of(old(self).set@)
            },
    {
        let i = self.next - 1;
        if still_fails {
            let ghost before = self.set@;
            self.set.remove(i);
            assert(ids_of(self.set@) =~= ids_of(before).remove(i as int));
        }
        self.next = i;
    }
}

} // verus!
