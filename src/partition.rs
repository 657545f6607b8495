//! Splitting tests across workers so that each worker gets about the same runtime.

use vstd::prelude::*;
use crate::model::{ids_of, TestId};

verus! {

broadcast use vstd::seq_lib::group_to_multiset_ensures, vstd::multiset::group_multiset_axioms;

/// The recorded duration of `id` in milliseconds; a later entry overrides an earlier one.
pub open spec fn time_of(ds: Seq<(TestId, u64)>, id: Seq<char>) -> Option<u64>
    decreases ds.len(),
{
    if ds.len() == 0 {
        None
    } else if ds.last().0@ == id {
        Some(ds.last().1)
    } else {
        time_of(ds.drop_last(), id)
    }
}

/// The recorded duration of `id`, or zero when none is recorded.
pub open spec fn time_or_zero(ds: Seq<(TestId, u64)>, id: Seq<char>) -> nat {
    match time_of(ds, id) {
        Some(d) => d as nat,
        None => 0,
    }
}

/// The summed recorded durations of a list of ids.
pub open spec fn load(ds: Seq<(TestId, u64)>, ids: Seq<Seq<char>>) -> nat
    decreases ids.len(),
{
    if ids.len() == 0 {
        0
    } else {
        load(ds, ids.drop_last()) + time_or_zero(ds, ids.last())
    }
}

/// The longest recorded duration among a list of ids, or zero.
pub open spec fn max_known(ds: Seq<(TestId, u64)>, ids: Seq<Seq<char>>) -> nat
    decreases ids.len(),
{
    if ids.len() == 0 {
        0
    } else {
        let m = max_known(ds, ids.drop_last());
        let t = time_or_zero(ds, ids.last());
        if t > m {
            t
        } else {
            m
        }
    }
}

/// All ids of a list of parts, part after part.
pub open spec fn flat_ids(ps: Seq<Vec<TestId>>) -> Seq<Seq<char>>
    decreases ps.len(),
{
    if ps.len() == 0 {
        seq![]
    } else {
        flat_ids(ps.drop_last()) + ids_of(ps.last()@)
    }
}

/// The entries of `s` at positions `p`, `p + k`, `p + 2k`, ... in order.
pub open spec fn every_kth(s: Seq<Seq<char>>, k: nat, p: nat) -> Seq<Seq<char>>
    decreases s.len(),
{
    if s.len() == 0 {
        seq![]
    } else {
        let rest = every_kth(s.drop_last(), k, p);
        if (s.len() - 1) % (k as int) == p {
            rest.push(s.last())
        } else {
            rest
        }
    }
}

/// The ids of the list that have no recorded duration, in order.
pub open spec fn without_history(ds: Seq<(TestId, u64)>, ids: Seq<Seq<char>>) -> Seq<Seq<char>> {
    ids.filter(|x: Seq<char>| time_of(ds, x) is None)
}

/// No id of the list has a recorded duration.
pub open spec fn none_known(ds: Seq<(TestId, u64)>, ids: Seq<Seq<char>>) -> bool {
    forall|i: int| 0 <= i < ids.len() ==> time_of(ds, #[trigger] ids[i]) is None
}

/// Looks up the recorded duration of `id`.
pub fn lookup_time(ds: &Vec<(TestId, u64)>, id: &TestId) -> (r: Option<u64>)
    ensures
        r == time_of(ds@, id@),
{
    let mut i: usize = ds.len();
    assert(ds@.subrange(0, i as int) =~= ds@);
    while i > 0
        invariant
            i <= ds@.len(),
            time_of(ds@, id@) == time_of(ds@.subrange(0, i as int), id@),
        decreases i,
    {
        let ghost pre = ds@.subrange(0, i as int);
        assert(pre.drop_last() =~= ds@.subrange(0, i - 1));
        if ds[i - 1].0 == *id {
            return Some(ds[i - 1].1);
        }
        i = i - 1;
    }
    None
}

/// Pushing `x` onto part `m` adds exactly `x` to the ids of all parts.
pub proof fn lemma_flat_push(ps: Seq<Vec<TestId>>, m: int, part: Vec<TestId>, x: TestId)
    requires
        0 <= m < ps.len(),
        part@ == ps[m]@.push(x),
    ensures
        flat_ids(ps.update(m, part)).to_multiset() == flat_ids(ps).to_multiset().insert(x@),
    decreases ps.len(),
{
    let qs = ps.update(m, part);
    assert(ids_of(part@) =~= ids_of(ps[m]@).push(x@));
    if m == ps.len() - 1 {
        assert(qs.drop_last() =~= ps.drop_last());
        assert(flat_ids(qs) =~= (flat_ids(ps.drop_last()) + ids_of(ps[m]@)).push(x@));
    } else {
        assert(qs.drop_last() =~= ps.drop_last().update(m, part));
        lemma_flat_push(ps.drop_last(), m, part, x);
        vstd::seq_lib::lemma_multiset_commutative(flat_ids(qs.drop_last()), ids_of(ps.last()@));
        vstd::seq_lib::lemma_multiset_commutative(flat_ids(ps.drop_last()), ids_of(ps.last()@));
    }
}

/// An id of the list with a recorded duration is no longer than the longest.
pub proof fn lemma_max_known(ds: Seq<(TestId, u64)>, ids: Seq<Seq<char>>, i: int)
    requires
        0 <= i < ids.len(),
    ensures
        time_or_zero(ds, ids[i]) <= max_known(ds, ids),
    decreases ids.len(),
{
    if i < ids.len() - 1 {
        lemma_max_known(ds, ids.drop_last(), i);
    }
}

/// Moves `x` onto the end of part `m`.
pub(crate) fn push_to_part(parts: &mut Vec<Vec<TestId>>, m: usize, x: TestId)
    requires
        m < old(parts)@.len(),
    ensures
        final(parts)@.len() == old(parts)@.len(),
        final(parts)@[m as int]@ == old(parts)@[m as int]@.push(x),
        forall|p: int| 0 <= p < old(parts)@.len() && p != m ==> #[trigger] final(parts)@[p] == old(parts)@[p],
        flat_ids(final(parts)@).to_multiset() == flat_ids(old(parts)@).to_multiset().insert(x@),
{
    let ghost before = parts@;
    let mut part: Vec<TestId> = Vec::new();
    parts.set_and_swap(m, &mut part);
    part.push(x);
    let ghost full = part;
    parts.set(m, part);
    proof {
        assert(parts@ =~= before.update(m as int, full));
        lemma_flat_push(before, m as int, full, x);
    }
}

/// The first part with the smallest running total.
pub(crate) fn least_loaded(totals: &Vec<u128>) -> (m: usize)
    requires
        totals@.len() > 0,
    ensures
        m < totals@.len(),
        forall|q: int| 0 <= q < totals@.len() ==> totals@[m as int] <= #[trigger] totals@[q],
{
    let mut m: usize = 0;
    let mut i: usize = 1;
    while i < totals.len()
        invariant
            1 <= i <= totals@.len(),
            m < i,
            forall|q: int| 0 <= q < i ==> totals@[m as int] <= #[trigger] totals@[q],
        decreases totals@.len() - i,
    {
        if totals[i] < totals[m] {
            m = i;
        }
        i = i + 1;
    }
    m
}

/// Copies a list of ids.
pub fn copy_ids(v: &Vec<TestId>) -> (r: Vec<TestId>)
    ensures
        ids_of(r@) == ids_of(v@),
{
    let mut r: Vec<TestId> = Vec::new();
    let mut i: usize = 0;
    while i < v.len()
        invariant
            i <= v@.len(),
            ids_of(r@) == ids_of(v@.subrange(0, i as int)),
        decreases v@.len() - i,
    {
        let ghost prev = r@;
        r.push(v[i].clone());
        assert(ids_of(r@) =~= ids_of(prev).push(v@[i as int]@));
        assert(ids_of(v@.subrange(0, i + 1)) =~= ids_of(v@.subrange(0, i as int)).push(v@[i as int]@));
        i = i + 1;
    }
    assert(v@.subrange(0, i as int) =~= v@);
    r
}

/// The ids carried by a list of (duration, id) pairs.
pub open spec fn pair_ids(s: Seq<(u64, TestId)>) -> Seq<Seq<char>> {
    s.map_values(|p: (u64, TestId)| p.1@)
}

/// Splits `test_ids` into `concurrency` lists for parallel workers.
///
/// Tests with a recorded duration go first, longest first, each to the part with the
/// smallest running total; the rest follow round-robin in their input order. No parts
/// are made for a concurrency of zero, and a concurrency of one keeps the input whole.
pub fn partition_tests(test_ids: &Vec<TestId>, durations: &Vec<(TestId, u64)>, concurrency: usize) -> (r:
    Vec<Vec<TestId>>)
    ensures
        concurrency == 0 ==> r@.len() == 0,
        concurrency == 1 ==> r@.len() == 1 && ids_of(r@[0]@) == ids_of(test_ids@),
        r@.len() == concurrency,
        concurrency >= 1 ==> flat_ids(r@).to_multiset() == ids_of(test_ids@).to_multiset(),
        forall|p: int, q: int|
            0 <= p < r@.len() && 0 <= q < r@.len() ==> load(durations@, ids_of(#[trigger] r@[p]@))
                <= load(durations@, ids_of(#[trigger] r@[q]@)) + max_known(durations@, ids_of(test_ids@)),
        none_known(durations@, ids_of(test_ids@)) ==> forall|p: int, q: int|
            0 <= p < r@.len() && 0 <= q < r@.len() ==> #[trigger] r@[p]@.len() <= #[trigger] r@[q]@.len() + 1,
        concurrency >= 2 ==> forall|p: int|
            0 <= p < r@.len() ==> #[trigger] without_history(durations@, ids_of(r@[p]@)) == every_kth(
                without_history(durations@, ids_of(test_ids@)),
                concurrency as nat,
                p as nat,
            ),
        concurrency >= 2 ==> forall|p: int, i: int, j: int|
            0 <= p < r@.len() && 0 <= i < j < r@[p]@.len() && time_of(durations@, r@[p]@[j]@) is Some ==> time_or_zero(
                durations@,
                #[trigger] r@[p]@[i]@,
            ) >= time_or_zero(durations@, #[trigger] r@[p]@[j]@),
        concurrency >= 2 ==> forall|p: int, i: int, j: int|
            0 <= p < r@.len() && 0 <= i < j < r@[p]@.len() && time_of(durations@, #[trigger] r@[p]@[i]@) is None
                ==> time_of(durations@, #[trigger] r@[p]@[j]@) is None,
{
    if concurrency == 0 {
        return Vec::new();
    }
    if concurrency == 1 {
        let whole = copy_ids(test_ids);
        let r = vec![whole];
        assert(r@.drop_last() =~= Seq::<Vec<TestId>>::empty());
        assert(flat_ids(r@.drop_last()) =~= Seq::<Seq<char>>::empty());
        assert(r@.last() == whole);
        assert(flat_ids(r@) =~= ids_of(test_ids@));
        return r;
    }
    let ghost ds = durations@;
    let ghost all = ids_of(test_ids@);
    let ghost maxd = max_known(ds, all);
    // Known durations, longest first; ties keep their input order.
    let mut sorted: Vec<(u64, TestId)> = Vec::new();
    let mut unknown: Vec<TestId> = Vec::new();
    let mut i: usize = 0;
    while i < test_ids.len()
        invariant
            i <= test_ids@.len(),
            ds == durations@,
            all == ids_of(test_ids@),
            maxd == max_known(ds, all),
            pair_ids(sorted@).to_multiset().add(ids_of(unknown@).to_multiset())
                == ids_of(test_ids@.subrange(0, i as int)).to_multiset(),
            forall|k: int| 0 <= k < sorted@.len() ==> time_of(ds, #[trigger] sorted@[k].1@) == Some(sorted@[k].0),
            forall|k: int| 0 <= k < sorted@.len() ==> #[trigger] sorted@[k].0 <= maxd,
            forall|a: int, c: int| 0 <= a < c < sorted@.len() ==> #[trigger] sorted@[a].0 >= #[trigger] sorted@[c].0,
            forall|k: int| 0 <= k < unknown@.len() ==> time_of(ds, #[trigger] unknown@[k]@) is None,
            none_known(ds, all) ==> sorted@.len() == 0,
            unknown@.len() <= i,
            ids_of(unknown@) == without_history(ds, all.subrange(0, i as int)),
        decreases test_ids@.len() - i,
    {
        let id = test_ids[i].clone();
        assert(ids_of(test_ids@.subrange(0, i + 1)) =~= ids_of(test_ids@.subrange(0, i as int)).push(id@));
        assert(all[i as int] == id@);
        proof {
            let pre = all.subrange(0, i as int);
            assert(all.subrange(0, i + 1) =~= pre.push(id@));
            assert(pre.push(id@).drop_last() =~= pre);
            reveal(Seq::filter);
            assert(without_history(ds, pre.push(id@)) == if time_of(ds, id@) is None {
                without_history(ds, pre).push(id@)
            } else {
                without_history(ds, pre)
            });
        }
        match lookup_time(durations, &id) {
            Some(d) => {
                proof {
                    lemma_max_known(ds, all, i as int);
                }
                let mut pos: usize = 0;
                while pos < sorted.len() && sorted[pos].0 >= d
                    invariant
                        pos <= sorted@.len(),
                        forall|a: int| 0 <= a < pos ==> #[trigger] sorted@[a].0 >= d,
                    decreases sorted@.len() - pos,
                {
                    pos = pos + 1;
                }
                let ghost prev = sorted@;
                sorted.insert(pos, (d, id));
                assert(pair_ids(sorted@) =~= pair_ids(prev).insert(pos as int, id@));
                assert forall|k: int| 0 <= k < sorted@.len() implies time_of(ds, #[trigger] sorted@[k].1@)
                    == Some(sorted@[k].0) && sorted@[k].0 <= maxd by {
                    if k < pos {
                        assert(sorted@[k] == prev[k]);
                    } else if k > pos {
                        assert(sorted@[k] == prev[k - 1]);
                    }
                }
                assert forall|a: int, c: int| 0 <= a < c < sorted@.len() implies #[trigger] sorted@[a].0
                    >= #[trigger] sorted@[c].0 by {
                    let a2 = if a < pos { a } else if a == pos { -1 } else { a - 1 };
                    let c2 = if c < pos { c } else if c == pos { -1 } else { c - 1 };
                    if a != pos && c != pos {
                        assert(sorted@[a] == prev[a2] && sorted@[c] == prev[c2]);
                    } else if a == pos {
                        assert(sorted@[c] == prev[c2]);
                        assert(prev[pos as int].0 < d);
                        assert(prev[pos as int].0 >= prev[c2].0 || c2 == pos as int);
                    } else {
                        assert(sorted@[a] == prev[a2]);
                    }
                }
            },
            None => {
                let ghost prev = unknown@;
                unknown.push(id);
                assert(ids_of(unknown@) =~= ids_of(prev).push(all[i as int]));
            },
        }
        i = i + 1;
    }
    assert(test_ids@.subrange(0, i as int) =~= test_ids@);
    assert(all.subrange(0, i as int) =~= all);
    let mut parts: Vec<Vec<TestId>> = Vec::new();
    let mut totals: Vec<u128> = Vec::new();
    let mut p: usize = 0;
    while p < concurrency
        invariant
            p <= concurrency,
            parts@.len() == p,
            totals@.len() == p,
            flat_ids(parts@) == Seq::<Seq<char>>::empty(),
            forall|k: int| 0 <= k < p ==> (#[trigger] parts@[k])@.len() == 0,
            forall|k: int| 0 <= k < p ==> #[trigger] totals@[k] == 0,
            forall|k: int| 0 <= k < p ==> #[trigger] without_history(ds, ids_of(parts@[k]@)) == Seq::<Seq<char>>::empty(),
        decreases concurrency - p,
    {
        let ghost prev = parts@;
        parts.push(Vec::new());
        totals.push(0);
        assert(parts@.drop_last() =~= prev);
        assert(ids_of(parts@.last()@) =~= Seq::<Seq<char>>::empty());
        assert(without_history(ds, Seq::<Seq<char>>::empty()) =~= Seq::<Seq<char>>::empty()) by {
            reveal(Seq::filter);
        }
        p = p + 1;
    }
    let mut k: usize = 0;
    while k < sorted.len()
        invariant
            2 <= concurrency,
            k <= sorted@.len(),
            parts@.len() == concurrency,
            totals@.len() == concurrency,
            ds == durations@,
            maxd == max_known(ds, all),
            all == ids_of(test_ids@),
            forall|j: int| 0 <= j < sorted@.len() ==> time_of(ds, #[trigger] sorted@[j].1@) == Some(sorted@[j].0),
            forall|j: int| 0 <= j < sorted@.len() ==> #[trigger] sorted@[j].0 <= maxd,
            flat_ids(parts@).to_multiset() == pair_ids(sorted@.subrange(0, k as int)).to_multiset(),
            sorted@.len() == 0 ==> forall|q: int| 0 <= q < concurrency ==> (#[trigger] parts@[q])@.len() == 0,
            forall|q: int| 0 <= q < concurrency ==> #[trigger] totals@[q] == load(ds, ids_of(parts@[q]@)),
            forall|q: int| 0 <= q < concurrency ==> #[trigger] totals@[q] <= k * 0xFFFF_FFFF_FFFF_FFFFnat,
            forall|a: int, b: int|
                0 <= a < concurrency && 0 <= b < concurrency ==> #[trigger] totals@[a] <= #[trigger] totals@[b] + maxd,
            forall|q: int| 0 <= q < concurrency ==> #[trigger] without_history(ds, ids_of(parts@[q]@)) == Seq::<Seq<char>>::empty(),
            forall|q: int, j: int|
                0 <= q < concurrency && 0 <= j < parts@[q]@.len() ==> time_of(ds, #[trigger] parts@[q]@[j]@) is Some,
            forall|a: int, c: int| 0 <= a < c < sorted@.len() ==> #[trigger] sorted@[a].0 >= #[trigger] sorted@[c].0,
            forall|q: int, j: int|
                0 <= q < concurrency && 0 <= j < parts@[q]@.len() && k < sorted@.len() ==> time_or_zero(
                    ds,
                    #[trigger] parts@[q]@[j]@,
                ) >= sorted@[k as int].0,
            forall|q: int, a: int, c: int|
                0 <= q < concurrency && 0 <= a < c < parts@[q]@.len() ==> time_or_zero(ds, #[trigger] parts@[q]@[a]@)
                    >= time_or_zero(ds, #[trigger] parts@[q]@[c]@),
        decreases sorted@.len() - k,
    {
        let m = least_loaded(&totals);
        let d = sorted[k].0;
        let id = sorted[k].1.clone();
        let ghost old_parts = parts@;
        let ghost old_totals = totals@;
        assert(totals@[m as int] + d <= (k + 1) * 0xFFFF_FFFF_FFFF_FFFFnat) by (nonlinear_arith)
            requires
                totals@[m as int] <= k * 0xFFFF_FFFF_FFFF_FFFFnat,
                d <= 0xFFFF_FFFF_FFFF_FFFFnat,
        ;
        push_to_part(&mut parts, m, id);
        totals.set(m, totals[m] + d as u128);
        proof {
            assert(pair_ids(sorted@.subrange(0, k + 1)) =~= pair_ids(sorted@.subrange(0, k as int)).push(id@));
            assert(ids_of(parts@[m as int]@) =~= ids_of(old_parts[m as int]@).push(id@));
            assert(ids_of(parts@[m as int]@).drop_last() =~= ids_of(old_parts[m as int]@));
            assert forall|q: int| 0 <= q < concurrency implies #[trigger] totals@[q] <= (k + 1) * 0xFFFF_FFFF_FFFF_FFFFnat by {
                assert(k * 0xFFFF_FFFF_FFFF_FFFFnat <= (k + 1) * 0xFFFF_FFFF_FFFF_FFFFnat) by (nonlinear_arith);
            }
            assert forall|q: int| 0 <= q < concurrency implies #[trigger] totals@[q] == load(ds, ids_of(parts@[q]@)) by {
                if q != m {
                    assert(parts@[q] == old_parts[q]);
                }
            }
            assert forall|a: int, b: int|
                0 <= a < concurrency && 0 <= b < concurrency implies #[trigger] totals@[a] <= #[trigger] totals@[b] + maxd by {
                assert(old_totals[m as int] <= old_totals[b]);
                assert(old_totals[a] <= old_totals[m as int] + maxd);
            }
            assert forall|q: int, j: int|
                0 <= q < concurrency && 0 <= j < parts@[q]@.len() implies time_of(ds, #[trigger] parts@[q]@[j]@) is Some by {
                if q != m {
                    assert(parts@[q] == old_parts[q]);
                } else if j < old_parts[q]@.len() {
                    assert(parts@[q]@[j] == old_parts[q]@[j]);
                }
            }
            assert(time_or_zero(ds, id@) == d);
            assert forall|q: int, j: int|
                0 <= q < concurrency && 0 <= j < parts@[q]@.len() && k + 1 < sorted@.len() implies time_or_zero(
                    ds,
                    #[trigger] parts@[q]@[j]@,
                ) >= sorted@[k + 1].0 by {
                assert(sorted@[k as int].0 >= sorted@[k + 1].0);
                if q != m {
                    assert(parts@[q] == old_parts[q]);
                    assert(time_or_zero(ds, old_parts[q]@[j]@) >= sorted@[k as int].0);
                } else if j < old_parts[q]@.len() {
                    assert(parts@[q]@[j] == old_parts[q]@[j]);
                    assert(time_or_zero(ds, old_parts[q]@[j]@) >= sorted@[k as int].0);
                }
            }
            assert forall|q: int, a: int, c: int|
                0 <= q < concurrency && 0 <= a < c < parts@[q]@.len() implies time_or_zero(ds, #[trigger] parts@[q]@[a]@)
                >= time_or_zero(ds, #[trigger] parts@[q]@[c]@) by {
                if q != m {
                    assert(parts@[q] == old_parts[q]);
                    assert(time_or_zero(ds, old_parts[q]@[a]@) >= time_or_zero(ds, old_parts[q]@[c]@));
                } else if c < old_parts[q]@.len() {
                    assert(parts@[q]@[a] == old_parts[q]@[a]);
                    assert(parts@[q]@[c] == old_parts[q]@[c]);
                    assert(time_or_zero(ds, old_parts[q]@[a]@) >= time_or_zero(ds, old_parts[q]@[c]@));
                } else {
                    assert(parts@[q]@[a] == old_parts[q]@[a]);
                    assert(time_or_zero(ds, old_parts[q]@[a]@) >= sorted@[k as int].0);
                }
            }
            assert forall|q: int| 0 <= q < concurrency implies #[trigger] without_history(ds, ids_of(parts@[q]@))
                == Seq::<Seq<char>>::empty() by {
                if q != m {
                    assert(parts@[q] == old_parts[q]);
                } else {
                    let o = ids_of(old_parts[q]@);
                    assert(ids_of(parts@[q]@) =~= o.push(id@));
                    assert(o.push(id@).drop_last() =~= o);
                    reveal(Seq::filter);
                    assert(without_history(ds, ids_of(old_parts[q]@)) == Seq::<Seq<char>>::empty());
                }
            }
        }
        k = k + 1;
    }
    assert(sorted@.subrange(0, k as int) =~= sorted@);
    let ghost rounds: nat = 0;
    let ghost uv = ids_of(unknown@);
    let mut next: usize = 0;
    proof {
        assert(uv.subrange(0, 0) =~= Seq::<Seq<char>>::empty());
        assert forall|q: int| 0 <= q < concurrency implies #[trigger] without_history(ds, ids_of(parts@[q]@))
            == every_kth(uv.subrange(0, 0), concurrency as nat, q as nat) by {
        }
    }
    let mut t: usize = 0;
    while t < unknown.len()
        invariant
            2 <= concurrency,
            t <= unknown@.len(),
            next < concurrency,
            parts@.len() == concurrency,
            totals@.len() == concurrency,
            ds == durations@,
            maxd == max_known(ds, all),
            all == ids_of(test_ids@),
            forall|j: int| 0 <= j < unknown@.len() ==> time_of(ds, #[trigger] unknown@[j]@) is None,
            flat_ids(parts@).to_multiset() == pair_ids(sorted@).to_multiset().add(
                ids_of(unknown@.subrange(0, t as int)).to_multiset(),
            ),
            forall|q: int| 0 <= q < concurrency ==> #[trigger] totals@[q] == load(ds, ids_of(parts@[q]@)),
            forall|a: int, b: int|
                0 <= a < concurrency && 0 <= b < concurrency ==> #[trigger] totals@[a] <= #[trigger] totals@[b] + maxd,
            sorted@.len() == 0 ==> forall|q: int|
                0 <= q < concurrency ==> #[trigger] parts@[q]@.len() == rounds + if q < next {
                    1nat
                } else {
                    0nat
                },
            t == rounds * concurrency + next,
            uv == ids_of(unknown@),
            uv == without_history(ds, all),
            forall|q: int| 0 <= q < concurrency ==> #[trigger] without_history(ds, ids_of(parts@[q]@)) == every_kth(
                uv.subrange(0, t as int),
                concurrency as nat,
                q as nat,
            ),
            forall|q: int, a: int, b: int|
                0 <= q < concurrency && 0 <= a < b < parts@[q]@.len() && time_of(ds, #[trigger] parts@[q]@[a]@) is None
                    ==> time_of(ds, #[trigger] parts@[q]@[b]@) is None,
            forall|q: int, a: int, c: int|
                0 <= q < concurrency && 0 <= a < c < parts@[q]@.len() && time_of(ds, parts@[q]@[c]@) is Some
                    ==> time_or_zero(ds, #[trigger] parts@[q]@[a]@) >= time_or_zero(ds, #[trigger] parts@[q]@[c]@),
        decreases unknown@.len() - t,
    {
        let id = unknown[t].clone();
        let ghost old_parts = parts@;
        push_to_part(&mut parts, next, id);
        proof {
            let x = uv[t as int];
            assert(x == id@);
            assert(time_of(ds, unknown@[t as int]@) is None);
            assert(time_of(ds, x) is None);
            assert forall|q: int| 0 <= q < concurrency implies #[trigger] without_history(ds, ids_of(old_parts[q]@))
                == every_kth(uv.subrange(0, t as int), concurrency as nat, q as nat) by {
            }
            assert(uv.subrange(0, t + 1).drop_last() =~= uv.subrange(0, t as int));
            vstd::arithmetic::div_mod::lemma_mod_multiples_vanish(rounds as int, next as int, concurrency as int);
            vstd::arithmetic::div_mod::lemma_small_mod(next as nat, concurrency as nat);
            assert((t as int) % (concurrency as int) == next as int) by (nonlinear_arith)
                requires
                    t == rounds * concurrency + next,
                    (concurrency * rounds + next) % (concurrency as int) == (next as int) % (concurrency as int),
                    (next as int) % (concurrency as int) == next as int,
            ;
            assert forall|q: int| 0 <= q < concurrency implies #[trigger] without_history(ds, ids_of(parts@[q]@))
                == every_kth(uv.subrange(0, t + 1), concurrency as nat, q as nat) by {
                let s1 = uv.subrange(0, t + 1);
                assert(s1.len() - 1 == t);
                assert(s1.last() == x);
                assert(every_kth(s1, concurrency as nat, q as nat) == if (t as int) % (concurrency as int) == q {
                    every_kth(uv.subrange(0, t as int), concurrency as nat, q as nat).push(x)
                } else {
                    every_kth(uv.subrange(0, t as int), concurrency as nat, q as nat)
                });
                if q != next {
                    assert(parts@[q] == old_parts[q]);
                } else {
                    let o = ids_of(old_parts[q]@);
                    assert(ids_of(parts@[q]@) =~= o.push(x));
                    assert(o.push(x).drop_last() =~= o);
                    reveal(Seq::filter);
                    assert(without_history(ds, o.push(x)) == without_history(ds, o).push(x));
                }
            }
            assert forall|q: int, a: int, b: int|
                0 <= q < concurrency && 0 <= a < b < parts@[q]@.len() && time_of(ds, #[trigger] parts@[q]@[a]@) is None
                    implies time_of(ds, #[trigger] parts@[q]@[b]@) is None by {
                if q != next {
                    assert(parts@[q] == old_parts[q]);
                } else if b < old_parts[q]@.len() {
                    assert(parts@[q]@[a] == old_parts[q]@[a]);
                    assert(parts@[q]@[b] == old_parts[q]@[b]);
                } else {
                    assert(parts@[q]@[b] == id);
                }
            }
            assert forall|q: int, a: int, c: int|
                0 <= q < concurrency && 0 <= a < c < parts@[q]@.len() && time_of(ds, parts@[q]@[c]@) is Some
                    implies time_or_zero(ds, #[trigger] parts@[q]@[a]@) >= time_or_zero(ds, #[trigger] parts@[q]@[c]@) by {
                if q != next {
                    assert(parts@[q] == old_parts[q]);
                } else if c < old_parts[q]@.len() {
                    assert(parts@[q]@[a] == old_parts[q]@[a]);
                    assert(parts@[q]@[c] == old_parts[q]@[c]);
                } else {
                    assert(parts@[q]@[c] == id);
                }
            }
            assert(ids_of(unknown@.subrange(0, t + 1)) =~= ids_of(unknown@.subrange(0, t as int)).push(id@));
            assert(ids_of(parts@[next as int]@).drop_last() =~= ids_of(old_parts[next as int]@));
            assert(time_of(ds, unknown@[t as int]@) is None);
            assert forall|q: int| 0 <= q < concurrency implies #[trigger] totals@[q] == load(ds, ids_of(parts@[q]@)) by {
                if q != next {
                    assert(parts@[q] == old_parts[q]);
                }
            }
        }
        if next + 1 < concurrency {
            next = next + 1;
            proof {
                assert forall|q: int| 0 <= q < concurrency && sorted@.len() == 0 implies #[trigger] parts@[q]@.len()
                    == rounds + if q < next { 1nat } else { 0nat } by {
                    if q != next - 1 {
                        assert(parts@[q] == old_parts[q]);
                    }
                }
            }
        } else {
            next = 0;
            proof {
                assert(t + 1 == (rounds + 1) * concurrency) by (nonlinear_arith)
                    requires
                        t == rounds * concurrency + concurrency - 1,
                ;
                assert forall|q: int| 0 <= q < concurrency && sorted@.len() == 0 implies #[trigger] parts@[q]@.len()
                    == rounds + 1 by {
                    if q != concurrency - 1 {
                        assert(parts@[q] == old_parts[q]);
                    }
                }
                rounds = rounds + 1;
            }
        }
        t = t + 1;
    }
    proof {
        assert(unknown@.subrange(0, t as int) =~= unknown@);
        if none_known(ds, all) {
            assert(sorted@.len() == 0);
        }
        assert(uv.subrange(0, t as int) =~= uv);
        assert forall|q: int| 0 <= q < parts@.len() implies #[trigger] without_history(ds, ids_of(parts@[q]@))
            == every_kth(without_history(ds, all), concurrency as nat, q as nat) by {
        }
        assert forall|a: int, b: int|
            0 <= a < parts@.len() && 0 <= b < parts@.len() implies load(ds, ids_of(#[trigger] parts@[a]@))
            <= load(ds, ids_of(#[trigger] parts@[b]@)) + maxd by {
            assert(totals@[a] <= totals@[b] + maxd);
        }
    }
    parts
}

} // verus!
