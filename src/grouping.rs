//! Grouping tests by a pattern, and splitting whole groups across workers.

use vstd::prelude::*;
use crate::model::{ids_of, strs, TestId};
use crate::partition::{copy_ids, flat_ids, load, lookup_time, partition_tests, time_of, time_or_zero};
use crate::stream::opt_text;

verus! {

broadcast use vstd::seq_lib::group_to_multiset_ensures, vstd::multiset::group_multiset_axioms;

#[verifier::external_type_specification]
#[verifier::external_body]
pub struct ExRegex(regex::Regex);

#[verifier::external_type_specification]
#[verifier::external_body]
pub struct ExRegexError(regex::Error);

/// Whether the `regex` crate accepts `pattern`.
pub uninterp spec fn pattern_compiles(pattern: Seq<char>) -> bool;

/// The groups of the leftmost match of `pattern` in `text`, in order (group 0 is the
/// whole match); none when nothing matches.
pub uninterp spec fn captures_of(pattern: Seq<char>, text: Seq<char>) -> Option<Seq<Option<Seq<char>>>>;

/// The text of the group called `name` in the leftmost match of `pattern` in `text`.
pub uninterp spec fn named_capture(pattern: Seq<char>, text: Seq<char>, name: Seq<char>) -> Option<Seq<char>>;

/// Relies on regex::Regex::new, which compiles a pattern or reports why it cannot.
#[verifier::external_body]
fn compile(pattern: &str) -> (r: Result<regex::Regex, regex::Error>)
    ensures
        r is Ok <==> pattern_compiles(pattern@),
{
    regex::Regex::new(pattern)
}

/// A compiled grouping pattern.
pub struct GroupPattern {
    re: regex::Regex,
    pattern: String,
}

/// The plain values of captured groups.
pub open spec fn caps_view(r: Option<Vec<Option<String>>>) -> Option<Seq<Option<Seq<char>>>> {
    match r {
        Some(v) => Some(v@.map_values(|c: Option<String>| opt_text(c))),
        None => None,
    }
}

/// Relies on regex::Regex::captures and Captures::iter: each group of the leftmost
/// match as text, group 0 (the whole match) always present; none when nothing matches.
#[verifier::external_body]
fn captures(g: &GroupPattern, text: &str) -> (r: Option<Vec<Option<String>>>)
    ensures
        caps_view(r) == captures_of(g.pattern(), text@),
        match r {
            Some(v) => v@.len() >= 1 && v@[0] is Some,
            None => true,
        },
{
    g.re.captures(text).map(|c| c.iter().map(|m| m.map(|m| m.as_str().to_string())).collect())
}

/// Relies on regex::Regex::captures and Captures::name: the text of the named group in
/// the leftmost match.
#[verifier::external_body]
fn named(g: &GroupPattern, text: &str, name: &str) -> (r: Option<String>)
    ensures
        opt_text(r) == named_capture(g.pattern(), text@, name@),
{
    g.re.captures(text).and_then(|c| c.name(name).map(|m| m.as_str().to_string()))
}

/// Whether `pattern` matches somewhere in `text`.
pub uninterp spec fn pattern_matches(pattern: Seq<char>, text: Seq<char>) -> bool;

/// Relies on regex::Regex::is_match: whether the pattern matches anywhere in the text.
#[verifier::external_body]
fn is_match(g: &GroupPattern, text: &str) -> (r: bool)
    ensures
        r == pattern_matches(g.pattern(), text@),
{
    g.re.is_match(text)
}

/// The group of a test id: the group called `group` of the match, else its first group,
/// else the whole match; the id itself when the pattern does not match.
pub open spec fn key_of(pattern: Seq<char>, id: Seq<char>) -> Seq<char> {
    match captures_of(pattern, id) {
        None => id,
        Some(caps) => match named_capture(pattern, id, "group"@) {
            Some(k) => k,
            None => if caps.len() > 1 && caps[1] is Some {
                caps[1]->0
            } else if caps.len() > 0 && caps[0] is Some {
                caps[0]->0
            } else {
                id
            },
        },
    }
}

impl GroupPattern {
    /// The pattern's text.
    pub closed spec fn pattern(&self) -> Seq<char> {
        self.pattern@
    }

    /// Compiles `pattern`; fails exactly when the `regex` crate refuses it.
    pub fn new(pattern: &str) -> (r: Result<GroupPattern, regex::Error>)
        ensures
            r is Ok <==> pattern_compiles(pattern@),
            match r {
                Ok(g) => g.pattern() == pattern@,
                Err(_) => true,
            },
    {
        match compile(pattern) {
            Ok(re) => Ok(GroupPattern { re, pattern: pattern.to_owned() }),
            Err(e) => Err(e),
        }
    }

    /// Whether the pattern matches somewhere in `text`.
    pub fn matches(&self, text: &str) -> (r: bool)
        ensures
            r == pattern_matches(self.pattern(), text@),
    {
        is_match(self, text)
    }

    /// The group of `id` under this pattern.
    pub fn key(&self, id: &str) -> (r: String)
        ensures
            r@ == key_of(self.pattern(), id@),
    {
        match captures(self, id) {
            None => id.to_owned(),
            Some(caps) => {
                let ghost cv = caps@.map_values(|c: Option<String>| opt_text(c));
                match named(self, id, "group") {
                    Some(k) => k,
                    None => {
                        if caps.len() > 1 && caps[1].is_some() {
                            assert(cv[1] is Some);
                            match &caps[1] {
                                Some(k) => k.clone(),
                                None => id.to_owned(),
                            }
                        } else {
                            assert(cv[0] is Some);
                            match &caps[0] {
                                Some(k) => k.clone(),
                                None => id.to_owned(),
                            }
                        }
                    },
                }
            },
        }
    }
}

/// Tests grouped by key: `names[g]` is the key of the tests in `members[g]`.
pub struct TestGroups {
    pub names: Vec<String>,
    pub members: Vec<Vec<TestId>>,
}

/// Groups are well formed for `pattern` and `tests`: one member list per distinct key,
/// each member under its own key, and the members all together exactly the tests.
pub open spec fn groups_ok(names: Seq<Seq<char>>, members: Seq<Vec<TestId>>, pattern: Seq<char>, tests: Seq<Seq<char>>) -> bool {
    &&& names.len() == members.len()
    &&& forall|a: int, b: int| 0 <= a < names.len() && 0 <= b < names.len() && a != b ==> #[trigger] names[a] != #[trigger] names[b]
    &&& forall|g: int, k: int|
        0 <= g < members.len() && 0 <= k < members[g]@.len() ==> key_of(pattern, #[trigger] members[g]@[k]@) == names[g]
    &&& flat_ids(members).to_multiset() == tests.to_multiset()
}

/// Pushes `x` onto member list `g`.
fn push_member(members: &mut Vec<Vec<TestId>>, g: usize, x: TestId)
    requires
        g < old(members)@.len(),
    ensures
        final(members)@.len() == old(members)@.len(),
        final(members)@[g as int]@ == old(members)@[g as int]@.push(x),
        forall|p: int| 0 <= p < old(members)@.len() && p != g ==> #[trigger] final(members)@[p] == old(members)@[p],
        flat_ids(final(members)@).to_multiset() == flat_ids(old(members)@).to_multiset().insert(x@),
{
    let ghost before = members@;
    let mut part: Vec<TestId> = Vec::new();
    members.set_and_swap(g, &mut part);
    part.push(x);
    let ghost full = part;
    members.set(g, part);
    proof {
        assert(members@ =~= before.update(g as int, full));
        crate::partition::lemma_flat_push(before, g as int, full, x);
    }
}

/// The position of `name` among `names`.
fn find_name(names: &Vec<String>, name: &String) -> (r: Option<usize>)
    ensures
        match r {
            Some(g) => g < names@.len() && strs(names@)[g as int] == name@,
            None => !strs(names@).contains(name@),
        },
{
    let mut i: usize = 0;
    while i < names.len()
        invariant
            i <= names@.len(),
            forall|k: int| 0 <= k < i ==> strs(names@)[k] != name@,
        decreases names@.len() - i,
    {
        if names[i] == *name {
            return Some(i);
        }
        i = i + 1;
    }
    None
}

/// Groups `tests` by the key that `pattern` gives each; members keep their input order.
pub fn group_by(tests: &Vec<TestId>, pattern: &GroupPattern) -> (r: TestGroups)
    ensures
        groups_ok(strs(r.names@), r.members@, pattern.pattern(), ids_of(tests@)),
{
    let ghost p = pattern.pattern();
    let mut names: Vec<String> = Vec::new();
    let mut members: Vec<Vec<TestId>> = Vec::new();
    let mut i: usize = 0;
    assert(ids_of(tests@).subrange(0, 0) =~= seq![]);
    assert(flat_ids(members@) =~= seq![]);
    while i < tests.len()
        invariant
            i <= tests@.len(),
            p == pattern.pattern(),
            groups_ok(strs(names@), members@, p, ids_of(tests@).subrange(0, i as int)),
        decreases tests@.len() - i,
    {
        let ghost all = ids_of(tests@);
        let ghost pre = all.subrange(0, i as int);
        let ghost cur = all.subrange(0, i + 1);
        assert(cur =~= pre.push(all[i as int]));
        let id = tests[i].clone();
        assert(id@ == all[i as int]);
        assert(cur.to_multiset() == pre.to_multiset().insert(id@));
        let key = pattern.key(id.as_str());
        let ghost n0 = strs(names@);
        let ghost m0 = members@;
        match find_name(&names, &key) {
            Some(g) => {
                push_member(&mut members, g, id);
                proof {
                    assert forall|a: int, k: int|
                        0 <= a < members@.len() && 0 <= k < members@[a]@.len() implies key_of(p, #[trigger] members@[a]@[k]@)
                        == strs(names@)[a] by {
                        if a != g {
                            assert(members@[a] == m0[a]);
                        } else if k < m0[a]@.len() {
                            assert(members@[a]@[k] == m0[a]@[k]);
                        }
                    }
                    assert(flat_ids(members@).to_multiset() == cur.to_multiset());
                    assert(groups_ok(strs(names@), members@, p, cur));
                }
            },
            None => {
                let mut fresh: Vec<TestId> = Vec::new();
                fresh.push(id);
                let ghost fv = fresh;
                names.push(key);
                members.push(fresh);
                proof {
                    assert(strs(names@) =~= n0.push(key@));
                    assert(members@.drop_last() =~= m0);
                    assert(ids_of(fv@) =~= seq![id@]);
                    assert(flat_ids(members@) =~= flat_ids(m0).push(id@));
                    assert(flat_ids(members@).to_multiset() == cur.to_multiset());
                    assert(strs(names@).len() == members@.len());
                    assert forall|a: int, b: int|
                        0 <= a < strs(names@).len() && 0 <= b < strs(names@).len() && a != b implies #[trigger] strs(names@)[a]
                        != #[trigger] strs(names@)[b] by {
                        if a < n0.len() && b < n0.len() {
                            assert(n0[a] != n0[b]);
                        } else if a < n0.len() {
                            assert(n0[a] != key@) by {
                                assert(n0.contains(n0[a]));
                            }
                        } else {
                            assert(n0[b] != key@) by {
                                assert(n0.contains(n0[b]));
                            }
                        }
                    }
                    assert forall|a: int, k: int|
                        0 <= a < members@.len() && 0 <= k < members@[a]@.len() implies key_of(p, #[trigger] members@[a]@[k]@)
                        == strs(names@)[a] by {
                        if a < m0.len() {
                            assert(members@[a] == m0[a]);
                        }
                    }
                    let nn = strs(names@);
                    let mm = members@;
                    assert(nn.len() == mm.len());
                    assert(forall|a: int, b: int| 0 <= a < nn.len() && 0 <= b < nn.len() && a != b ==> #[trigger] nn[a] != #[trigger] nn[b]);
                    assert(forall|g: int, k: int|
                        0 <= g < mm.len() && 0 <= k < mm[g]@.len() ==> key_of(p, #[trigger] mm[g]@[k]@) == nn[g]);
                    assert(flat_ids(mm).to_multiset() == cur.to_multiset());
                    assert(groups_ok(strs(names@), members@, p, cur));
                }
            },
        }
        i = i + 1;
    }
    assert(ids_of(tests@).subrange(0, i as int) =~= ids_of(tests@));
    TestGroups { names, members }
}

/// Groups tests by `group_regex`; fails exactly when the pattern does not compile.
pub fn group_tests(tests: &Vec<TestId>, group_regex: &str) -> (r: Result<TestGroups, regex::Error>)
    ensures
        r is Ok <==> pattern_compiles(group_regex@),
        match r {
            Ok(gs) => groups_ok(strs(gs.names@), gs.members@, group_regex@, ids_of(tests@)),
            Err(_) => true,
        },
{
    match GroupPattern::new(group_regex) {
        Ok(p) => Ok(group_by(tests, &p)),
        Err(e) => Err(e),
    }
}


/// An id among all parts is in one of them.
pub proof fn lemma_flat_contains(ps: Seq<Vec<TestId>>, x: Seq<char>)
    requires
        flat_ids(ps).contains(x),
    ensures
        exists|g: int| 0 <= g < ps.len() && #[trigger] ids_of(ps[g]@).contains(x),
    decreases ps.len(),
{
    let front = flat_ids(ps.drop_last());
    let last = ids_of(ps.last()@);
    let k = choose|k: int| 0 <= k < flat_ids(ps).len() && flat_ids(ps)[k] == x;
    if k < front.len() {
        assert(front[k] == x);
        lemma_flat_contains(ps.drop_last(), x);
        let g = choose|g: int| 0 <= g < ps.drop_last().len() && #[trigger] ids_of(ps.drop_last()[g]@).contains(x);
        assert(ps[g] == ps.drop_last()[g]);
        assert(ids_of(ps[g]@).contains(x));
    } else {
        assert(last[k - front.len()] == x);
        assert(ids_of(ps[ps.len() - 1]@).contains(x));
    }
}

/// Inserting a whole list among the parts adds exactly its ids.
pub proof fn lemma_flat_insert(s: Seq<Vec<TestId>>, i: int, g: Vec<TestId>)
    requires
        0 <= i <= s.len(),
    ensures
        flat_ids(s.insert(i, g)).to_multiset() == flat_ids(s).to_multiset().add(ids_of(g@).to_multiset()),
    decreases s.len(),
{
    let t = s.insert(i, g);
    if i == s.len() {
        assert(t.drop_last() =~= s);
        vstd::seq_lib::lemma_multiset_commutative(flat_ids(s), ids_of(g@));
    } else {
        assert(t.drop_last() =~= s.drop_last().insert(i, g));
        assert(t.last() == s.last());
        lemma_flat_insert(s.drop_last(), i, g);
        vstd::seq_lib::lemma_multiset_commutative(flat_ids(t.drop_last()), ids_of(s.last()@));
        vstd::seq_lib::lemma_multiset_commutative(flat_ids(s.drop_last()), ids_of(s.last()@));
    }
}

/// The summed recorded durations of a list of tests.
fn group_total(members: &Vec<TestId>, durations: &Vec<(TestId, u64)>) -> (r: u128)
    ensures
        r == load(durations@, ids_of(members@)),
        r <= members@.len() * 0xFFFF_FFFF_FFFF_FFFFnat,
{
    let ghost ids = ids_of(members@);
    let mut t: u128 = 0;
    let mut i: usize = 0;
    assert(ids.subrange(0, 0) =~= Seq::<Seq<char>>::empty());
    while i < members.len()
        invariant
            i <= members@.len(),
            ids == ids_of(members@),
            t == load(durations@, ids.subrange(0, i as int)),
            t <= i * 0xFFFF_FFFF_FFFF_FFFFnat,
        decreases members@.len() - i,
    {
        assert(ids.subrange(0, i + 1).drop_last() =~= ids.subrange(0, i as int));
        assert(ids.subrange(0, i + 1).last() == members@[i as int]@);
        let d: u64 = match lookup_time(durations, &members[i]) {
            Some(d) => d,
            None => 0,
        };
        assert(t + d <= (i + 1) * 0xFFFF_FFFF_FFFF_FFFFnat) by (nonlinear_arith)
            requires
                t <= i * 0xFFFF_FFFF_FFFF_FFFFnat,
                d <= 0xFFFF_FFFF_FFFF_FFFFnat,
        ;
        t = t + d as u128;
        i = i + 1;
    }
    assert(ids.subrange(0, i as int) =~= ids);
    t
}

/// The summed durations of two lists are the sums of each.
pub proof fn lemma_load_concat(ds: Seq<(TestId, u64)>, a: Seq<Seq<char>>, b: Seq<Seq<char>>)
    ensures
        load(ds, a + b) == load(ds, a) + load(ds, b),
    decreases b.len(),
{
    if b.len() == 0 {
        assert(a + b =~= a);
    } else {
        assert((a + b).drop_last() =~= a + b.drop_last());
        lemma_load_concat(ds, a, b.drop_last());
    }
}

/// The largest summed duration of any one group.
pub open spec fn max_group_load(ds: Seq<(TestId, u64)>, gs: Seq<Vec<TestId>>) -> nat
    decreases gs.len(),
{
    if gs.len() == 0 {
        0
    } else {
        let m = max_group_load(ds, gs.drop_last());
        let t = load(ds, ids_of(gs.last()@));
        if t > m {
            t
        } else {
            m
        }
    }
}

proof fn lemma_max_group(ds: Seq<(TestId, u64)>, gs: Seq<Vec<TestId>>, k: int)
    requires
        0 <= k < gs.len(),
    ensures
        load(ds, ids_of(gs[k]@)) <= max_group_load(ds, gs),
    decreases gs.len(),
{
    if k < gs.len() - 1 {
        lemma_max_group(ds, gs.drop_last(), k);
    }
}

proof fn lemma_flat_prefix_len(s: Seq<Vec<TestId>>, k: int)
    requires
        0 <= k <= s.len(),
    ensures
        flat_ids(s.subrange(0, k)).len() <= flat_ids(s).len(),
    decreases s.len(),
{
    if k < s.len() {
        assert(s.subrange(0, k) =~= s.drop_last().subrange(0, k));
        lemma_flat_prefix_len(s.drop_last(), k);
    } else {
        assert(s.subrange(0, k) =~= s);
    }
}

/// Moves all of `g` onto the end of part `m`.
fn append_to_part(parts: &mut Vec<Vec<TestId>>, m: usize, g: &Vec<TestId>)
    requires
        m < old(parts)@.len(),
    ensures
        final(parts)@.len() == old(parts)@.len(),
        ids_of(final(parts)@[m as int]@) == ids_of(old(parts)@[m as int]@) + ids_of(g@),
        forall|p: int| 0 <= p < old(parts)@.len() && p != m ==> #[trigger] final(parts)@[p] == old(parts)@[p],
        flat_ids(final(parts)@).to_multiset() == flat_ids(old(parts)@).to_multiset().add(ids_of(g@).to_multiset()),
{
    let ghost start = parts@;
    let mut i: usize = 0;
    assert(ids_of(g@).subrange(0, 0) =~= seq![]);
    assert(ids_of(start[m as int]@) + seq![] =~= ids_of(start[m as int]@));
    while i < g.len()
        invariant
            i <= g@.len(),
            m < start.len(),
            parts@.len() == start.len(),
            ids_of(parts@[m as int]@) == ids_of(start[m as int]@) + ids_of(g@).subrange(0, i as int),
            forall|p: int| 0 <= p < start.len() && p != m ==> #[trigger] parts@[p] == start[p],
            flat_ids(parts@).to_multiset() == flat_ids(start).to_multiset().add(ids_of(g@).subrange(0, i as int).to_multiset()),
        decreases g@.len() - i,
    {
        let ghost before = parts@;
        crate::partition::push_to_part(parts, m, g[i].clone());
        proof {
            let sub = ids_of(g@).subrange(0, i as int);
            assert(ids_of(g@).subrange(0, i + 1) =~= sub.push(ids_of(g@)[i as int]));
            assert(ids_of(parts@[m as int]@) =~= ids_of(before[m as int]@).push(g@[i as int]@));
            assert(ids_of(parts@[m as int]@) =~= ids_of(start[m as int]@) + ids_of(g@).subrange(0, i + 1));
        }
        i = i + 1;
    }
    assert(ids_of(g@).subrange(0, i as int) =~= ids_of(g@));
}

/// Splits `test_ids` into `concurrency` lists, keeping each group of `group_regex` whole.
///
/// Without a pattern this is `partition::partition_tests`. With one, a pattern that does
/// not compile is an error before anything is split; otherwise groups go, longest total
/// recorded duration first, each whole to the part with the smallest running total.
pub fn partition_tests_with_grouping(
    test_ids: &Vec<TestId>,
    durations: &Vec<(TestId, u64)>,
    concurrency: usize,
    group_regex: Option<&str>,
) -> (r: Result<Vec<Vec<TestId>>, regex::Error>)
    ensures
        match group_regex {
            None => r is Ok,
            Some(p) => r is Ok <==> pattern_compiles(p@),
        },
        match r {
            Ok(ps) => ps@.len() == concurrency && (concurrency >= 1 ==> flat_ids(ps@).to_multiset()
                == ids_of(test_ids@).to_multiset()),
            Err(_) => true,
        },
        match (r, group_regex) {
            (Ok(ps), Some(p)) => forall|q: int, x: Seq<char>, y: Seq<char>|
                0 <= q < ps@.len() && #[trigger] ids_of(ps@[q]@).contains(x) && ids_of(test_ids@).contains(y)
                    && key_of(p@, x) == #[trigger] key_of(p@, y) ==> ids_of(ps@[q]@).contains(y),
            _ => true,
        },
        match (r, group_regex) {
            (Ok(ps), Some(p)) => exists|names: Seq<Seq<char>>, gs: Seq<Vec<TestId>>|
                #[trigger] groups_ok(names, gs, p@, ids_of(test_ids@)) && forall|a: int, b: int|
                    0 <= a < ps@.len() && 0 <= b < ps@.len() ==> load(durations@, ids_of(#[trigger] ps@[a]@))
                        <= load(durations@, ids_of(#[trigger] ps@[b]@)) + max_group_load(durations@, gs),
            _ => true,
        },
{
    let pattern_text = match group_regex {
        None => {
            return Ok(partition_tests(test_ids, durations, concurrency));
        },
        Some(p) => p,
    };
    let pattern = match GroupPattern::new(pattern_text) {
        Ok(g) => g,
        Err(e) => {
            return Err(e);
        },
    };
    let ghost pt = pattern_text@;
    let ghost all = ids_of(test_ids@);
    let groups = group_by(test_ids, &pattern);
    let ghost gnames = strs(groups.names@);
    let ghost gmembers = groups.members@;
    if concurrency == 0 {
        let r: Vec<Vec<TestId>> = Vec::new();
        assert(groups_ok(gnames, gmembers, pt, all));
        return Ok(r);
    }
    if concurrency == 1 {
        let whole = copy_ids(test_ids);
        let r = vec![whole];
        assert(r@.drop_last() =~= Seq::<Vec<TestId>>::empty());
        assert(flat_ids(r@.drop_last()) =~= Seq::<Seq<char>>::empty());
        assert(r@.last() == whole);
        assert(flat_ids(r@) =~= all);
        assert(groups_ok(gnames, gmembers, pt, all));
        return Ok(r);
    }
    let mut members = groups.members;
    // Groups ordered by total recorded duration, longest first; ties keep group order.
    let mut s_members: Vec<Vec<TestId>> = Vec::new();
    let mut s_names: Vec<String> = Vec::new();
    let mut s_totals: Vec<u128> = Vec::new();
    let mut j: usize = 0;
    assert(flat_ids(s_members@) =~= seq![]);
    assert(flat_ids(gmembers.subrange(0, 0)) =~= seq![]);
    while j < groups.names.len()
        invariant
            j <= gmembers.len(),
            groups_ok(gnames, gmembers, pt, all),
            gnames == strs(groups.names@),
            members@.len() == gmembers.len(),
            forall|a: int| j <= a < gmembers.len() ==> #[trigger] members@[a] == gmembers[a],
            s_members@.len() == s_names@.len(),
            s_totals@.len() == s_names@.len(),
            forall|a: int|
                0 <= a < s_totals@.len() ==> #[trigger] s_totals@[a] == load(durations@, ids_of(s_members@[a]@))
                    && s_totals@[a] <= s_members@[a]@.len() * 0xFFFF_FFFF_FFFF_FFFFnat,
            flat_ids(s_members@).to_multiset() == flat_ids(gmembers.subrange(0, j as int)).to_multiset(),
            forall|a: int, k: int|
                0 <= a < s_members@.len() && 0 <= k < s_members@[a]@.len() ==> key_of(pt, #[trigger] s_members@[a]@[k]@)
                    == strs(s_names@)[a],
            forall|x: Seq<char>| strs(s_names@).contains(x) <==> gnames.subrange(0, j as int).contains(x),
            forall|a: int, b: int|
                0 <= a < s_names@.len() && 0 <= b < s_names@.len() && a != b ==> #[trigger] strs(s_names@)[a]
                    != #[trigger] strs(s_names@)[b],
        decreases gmembers.len() - j,
    {
        let mut g: Vec<TestId> = Vec::new();
        members.set_and_swap(j, &mut g);
        assert(g == gmembers[j as int]);
        let t = group_total(&g, durations);
        let mut pos: usize = 0;
        while pos < s_totals.len() && s_totals[pos] >= t
            invariant
                pos <= s_totals@.len(),
            decreases s_totals@.len() - pos,
        {
            pos = pos + 1;
        }
        let ghost old_m = s_members@;
        let ghost old_n = strs(s_names@);
        let name = groups.names[j].clone();
        assert(name@ == gnames[j as int]);
        assert(!old_n.contains(name@)) by {
            if old_n.contains(name@) {
                assert(gnames.subrange(0, j as int).contains(name@));
                let a = choose|a: int| 0 <= a < j && gnames.subrange(0, j as int)[a] == name@;
                assert(gnames[a] == gnames[j as int]);
            }
        }
        proof {
            lemma_flat_insert(old_m, pos as int, g);
            assert(gmembers.subrange(0, j + 1).drop_last() =~= gmembers.subrange(0, j as int));
            vstd::seq_lib::lemma_multiset_commutative(flat_ids(gmembers.subrange(0, j as int)), ids_of(g@));
        }
        let ghost old_t = s_totals@;
        let ghost gv = g;
        s_members.insert(pos, g);
        s_names.insert(pos, name);
        s_totals.insert(pos, t);
        proof {
            assert forall|a: int|
                0 <= a < s_totals@.len() implies #[trigger] s_totals@[a] == load(durations@, ids_of(s_members@[a]@))
                && s_totals@[a] <= s_members@[a]@.len() * 0xFFFF_FFFF_FFFF_FFFFnat by {
                if a < pos {
                    assert(s_totals@[a] == old_t[a] && s_members@[a] == old_m[a]);
                } else if a > pos {
                    assert(s_totals@[a] == old_t[a - 1] && s_members@[a] == old_m[a - 1]);
                } else {
                    assert(s_members@[a] == gv);
                }
            }
            assert(strs(s_names@) =~= old_n.insert(pos as int, name@));
            assert(gnames.subrange(0, j + 1) =~= gnames.subrange(0, j as int).push(name@));
            assert forall|a: int, k: int|
                0 <= a < s_members@.len() && 0 <= k < s_members@[a]@.len() implies key_of(pt, #[trigger] s_members@[a]@[k]@)
                == strs(s_names@)[a] by {
                if a < pos {
                    assert(s_members@[a] == old_m[a]);
                } else if a > pos {
                    assert(s_members@[a] == old_m[a - 1]);
                } else {
                    assert(s_members@[a] == gmembers[j as int]);
                }
            }
            assert forall|x: Seq<char>| strs(s_names@).contains(x) <== gnames.subrange(0, j + 1).contains(x) by {
                if gnames.subrange(0, j + 1).contains(x) {
                    if x == name@ {
                        assert(strs(s_names@)[pos as int] == x);
                    } else {
                        assert(gnames.subrange(0, j as int).contains(x));
                        assert(old_n.contains(x));
                        let a = choose|a: int| 0 <= a < old_n.len() && old_n[a] == x;
                        if a < pos {
                            assert(strs(s_names@)[a] == x);
                        } else {
                            assert(strs(s_names@)[a + 1] == x);
                        }
                    }
                }
            }
            assert forall|x: Seq<char>| strs(s_names@).contains(x) implies gnames.subrange(0, j + 1).contains(x) by {
                let a = choose|a: int| 0 <= a < strs(s_names@).len() && strs(s_names@)[a] == x;
                if a == pos {
                    assert(gnames.subrange(0, j + 1)[j as int] == x);
                } else {
                    let b = if a < pos { a } else { a - 1 };
                    assert(old_n[b] == x);
                    assert(old_n.contains(x));
                    assert(gnames.subrange(0, j as int).contains(x));
                    let c = choose|c: int| 0 <= c < j && gnames.subrange(0, j as int)[c] == x;
                    assert(gnames.subrange(0, j + 1)[c] == x);
                }
            }
            assert forall|a: int, b: int|
                0 <= a < s_names@.len() && 0 <= b < s_names@.len() && a != b implies #[trigger] strs(s_names@)[a]
                != #[trigger] strs(s_names@)[b] by {
                let a2 = if a < pos { a } else { a - 1 };
                let b2 = if b < pos { b } else { b - 1 };
                if a != pos && b != pos {
                    assert(old_n[a2] != old_n[b2]);
                } else if a == pos {
                    assert(old_n.contains(old_n[b2]));
                } else {
                    assert(old_n.contains(old_n[a2]));
                }
            }
        }
        j = j + 1;
    }
    assert(gmembers.subrange(0, j as int) =~= gmembers);
    // Every test lies in the sorted group of its key.
    proof {
        assert forall|k: int, y: Seq<char>|
            #![trigger ids_of(s_members@[k]@).contains(y)]
            0 <= k < s_members@.len() && all.contains(y) && key_of(pt, y) == strs(s_names@)[k] implies ids_of(
            s_members@[k]@,
        ).contains(y) by {
            assert(flat_ids(s_members@).to_multiset().count(y) > 0);
            lemma_flat_contains(s_members@, y);
            let g = choose|g: int| 0 <= g < s_members@.len() && #[trigger] ids_of(s_members@[g]@).contains(y);
            let i = choose|i: int| 0 <= i < ids_of(s_members@[g]@).len() && ids_of(s_members@[g]@)[i] == y;
            assert(key_of(pt, s_members@[g]@[i]@) == strs(s_names@)[g]);
        }
    }
    let mut parts: Vec<Vec<TestId>> = Vec::new();
    let mut totals: Vec<u128> = Vec::new();
    let mut p: usize = 0;
    while p < concurrency
        invariant
            p <= concurrency,
            parts@.len() == p,
            totals@.len() == p,
            flat_ids(parts@) == Seq::<Seq<char>>::empty(),
            forall|k: int| 0 <= k < p ==> (#[trigger] parts@[k])@.len() == 0,
            forall|k: int| 0 <= k < p ==> #[trigger] totals@[k] == 0,
        decreases concurrency - p,
    {
        let ghost prev = parts@;
        parts.push(Vec::new());
        totals.push(0);
        assert(parts@.drop_last() =~= prev);
        assert(ids_of(parts@.last()@) =~= Seq::<Seq<char>>::empty());
        p = p + 1;
    }
    assert forall|q: int| 0 <= q < concurrency implies #[trigger] totals@[q] == load(durations@, ids_of(parts@[q]@)) by {
        assert(ids_of(parts@[q]@) =~= Seq::<Seq<char>>::empty());
    }
    let n_tests: usize = test_ids.len();
    let ghost maxg = max_group_load(durations@, s_members@);
    proof {
        assert(flat_ids(s_members@).to_multiset().len() == all.to_multiset().len());
    }
    let mut k: usize = 0;
    assert(flat_ids(s_members@.subrange(0, 0)) =~= seq![]);
    while k < s_members.len()
        invariant
            2 <= concurrency,
            maxg == max_group_load(durations@, s_members@),
            flat_ids(s_members@).len() == all.len(),
            all.len() == n_tests,
            forall|a: int|
                0 <= a < s_totals@.len() ==> #[trigger] s_totals@[a] == load(durations@, ids_of(s_members@[a]@))
                    && s_totals@[a] <= s_members@[a]@.len() * 0xFFFF_FFFF_FFFF_FFFFnat,
            forall|q: int| 0 <= q < concurrency ==> #[trigger] totals@[q] == load(durations@, ids_of(parts@[q]@)),
            forall|q: int|
                0 <= q < concurrency ==> #[trigger] totals@[q] <= flat_ids(s_members@.subrange(0, k as int)).len()
                    * 0xFFFF_FFFF_FFFF_FFFFnat,
            forall|a: int, b: int|
                0 <= a < concurrency && 0 <= b < concurrency ==> #[trigger] totals@[a] <= #[trigger] totals@[b] + maxg,
            k <= s_members@.len(),
            s_totals@.len() == s_members@.len(),
            s_names@.len() == s_members@.len(),
            parts@.len() == concurrency,
            totals@.len() == concurrency,
            flat_ids(parts@).to_multiset() == flat_ids(s_members@.subrange(0, k as int)).to_multiset(),
            forall|a: int, y: Seq<char>|
                #![trigger ids_of(s_members@[a]@).contains(y)]
                0 <= a < s_members@.len() && all.contains(y) && key_of(pt, y) == strs(s_names@)[a] ==> ids_of(
                    s_members@[a]@,
                ).contains(y),
            forall|a: int, i: int|
                0 <= a < s_members@.len() && 0 <= i < s_members@[a]@.len() ==> key_of(pt, #[trigger] s_members@[a]@[i]@)
                    == strs(s_names@)[a],
            forall|q: int, x: Seq<char>, y: Seq<char>|
                0 <= q < concurrency && #[trigger] ids_of(parts@[q]@).contains(x) && all.contains(y) && key_of(pt, x)
                    == #[trigger] key_of(pt, y) ==> ids_of(parts@[q]@).contains(y),
        decreases s_members@.len() - k,
    {
        let m = crate::partition::least_loaded(&totals);
        let ghost old_parts = parts@;
        let ghost old_totals = totals@;
        let ghost cnt = flat_ids(s_members@.subrange(0, k as int)).len();
        proof {
            let g = s_members@[k as int];
            assert(flat_ids(s_members@.subrange(0, k + 1)).len() == cnt + g@.len()) by {
                assert(s_members@.subrange(0, k + 1).drop_last() =~= s_members@.subrange(0, k as int));
            }
            lemma_flat_prefix_len(s_members@, k + 1);
            assert(totals@[m as int] + s_totals@[k as int] <= (cnt + g@.len()) * 0xFFFF_FFFF_FFFF_FFFFnat)
                by (nonlinear_arith)
                requires
                    totals@[m as int] <= cnt * 0xFFFF_FFFF_FFFF_FFFFnat,
                    s_totals@[k as int] <= g@.len() * 0xFFFF_FFFF_FFFF_FFFFnat,
            ;
            assert((cnt + g@.len()) * 0xFFFF_FFFF_FFFF_FFFFnat <= 0xFFFF_FFFF_FFFF_FFFFnat * 0xFFFF_FFFF_FFFF_FFFFnat)
                by (nonlinear_arith)
                requires
                    cnt + g@.len() <= 0xFFFF_FFFF_FFFF_FFFFnat,
            ;
        }
        append_to_part(&mut parts, m, &s_members[k]);
        totals.set(m, totals[m] + s_totals[k]);
        proof {
            let g = s_members@[k as int];
            lemma_load_concat(durations@, ids_of(old_parts[m as int]@), ids_of(g@));
            lemma_max_group(durations@, s_members@, k as int);
            assert forall|q: int| 0 <= q < concurrency implies #[trigger] totals@[q] == load(
                durations@,
                ids_of(parts@[q]@),
            ) by {
                if q != m {
                    assert(parts@[q] == old_parts[q]);
                }
            }
            assert forall|q: int|
                0 <= q < concurrency implies #[trigger] totals@[q] <= flat_ids(s_members@.subrange(0, k + 1)).len()
                * 0xFFFF_FFFF_FFFF_FFFFnat by {
                assert(cnt * 0xFFFF_FFFF_FFFF_FFFFnat <= (cnt + g@.len()) * 0xFFFF_FFFF_FFFF_FFFFnat) by (nonlinear_arith);
            }
            assert forall|a: int, b: int|
                0 <= a < concurrency && 0 <= b < concurrency implies #[trigger] totals@[a] <= #[trigger] totals@[b]
                + maxg by {
                assert(old_totals[m as int] <= old_totals[b]);
                assert(old_totals[a] <= old_totals[m as int] + maxg);
            }
            assert(flat_ids(s_members@.subrange(0, k + 1)) =~= flat_ids(s_members@.subrange(0, k as int)) + ids_of(g@)) by {
                assert(s_members@.subrange(0, k + 1).drop_last() =~= s_members@.subrange(0, k as int));
            }
            vstd::seq_lib::lemma_multiset_commutative(flat_ids(s_members@.subrange(0, k as int)), ids_of(g@));
            assert forall|q: int, x: Seq<char>, y: Seq<char>|
                0 <= q < concurrency && #[trigger] ids_of(parts@[q]@).contains(x) && all.contains(y) && key_of(pt, x)
                    == #[trigger] key_of(pt, y) implies ids_of(parts@[q]@).contains(y) by {
                if q != m {
                    assert(parts@[q] == old_parts[q]);
                } else {
                    let old_ids = ids_of(old_parts[q]@);
                    let new_ids = ids_of(parts@[q]@);
                    assert(new_ids == old_ids + ids_of(g@));
                    let i = choose|i: int| 0 <= i < new_ids.len() && new_ids[i] == x;
                    if i < old_ids.len() {
                        assert(old_ids[i] == x);
                        assert(old_ids.contains(x));
                        assert(old_ids.contains(y));
                        let j2 = choose|j2: int| 0 <= j2 < old_ids.len() && old_ids[j2] == y;
                        assert(new_ids[j2] == y);
                    } else {
                        assert(ids_of(g@)[i - old_ids.len()] == x);
                        assert(key_of(pt, g@[i - old_ids.len()]@) == strs(s_names@)[k as int]);
                        assert(ids_of(g@).contains(y));
                        let j2 = choose|j2: int| 0 <= j2 < ids_of(g@).len() && ids_of(g@)[j2] == y;
                        assert(new_ids[old_ids.len() + j2] == y);
                    }
                }
            }
        }
        k = k + 1;
    }
    assert(s_members@.subrange(0, k as int) =~= s_members@);
    proof {
        assert(groups_ok(strs(s_names@), s_members@, pt, all));
        assert forall|a: int, b: int|
            0 <= a < parts@.len() && 0 <= b < parts@.len() implies load(durations@, ids_of(#[trigger] parts@[a]@))
            <= load(durations@, ids_of(#[trigger] parts@[b]@)) + max_group_load(durations@, s_members@) by {
            assert(totals@[a] <= totals@[b] + maxg);
        }
    }
    Ok(parts)
}

} // verus!
