//! Small text helpers: test lists, command templates and display names.

use vstd::prelude::*;
use vstd::utf8::{encode_utf8, is_char_boundary};
use vstd::string::{StringExecFns, StringSliceAdditionalSpecFns};
use crate::model::{ids_of, strs, TestId};

verus! {

/// Where the first newline of `s` at or after `i` is, or the length when none is.
pub open spec fn next_newline(s: Seq<char>, i: int) -> int
    decreases s.len() - i,
{
    if i >= s.len() || s[i] == '\n' {
        i
    } else {
        next_newline(s, i + 1)
    }
}

/// A line without a carriage return that ends it.
pub open spec fn strip_cr(l: Seq<char>) -> Seq<char> {
    if l.len() > 0 && l.last() == '\r' {
        l.drop_last()
    } else {
        l
    }
}

/// The lines of a text: split at each newline, a carriage return before it dropped; a
/// newline at the very end starts no further line, and an empty text has no lines.
pub open spec fn lines_of(s: Seq<char>) -> Seq<Seq<char>>
    decreases s.len(),
{
    if s.len() == 0 {
        seq![]
    } else {
        let i = next_newline(s, 0);
        if i < 0 || i >= s.len() {
            seq![s]
        } else {
            seq![strip_cr(s.subrange(0, i))] + lines_of(s.subrange(i + 1, s.len() as int))
        }
    }
}

/// Whether `c` has Unicode's White_Space property, the test `char::is_whitespace` makes.
pub open spec fn is_white(c: char) -> bool {
    let u = c as int;
    (0x9 <= u <= 0xD) || u == 0x20 || u == 0x85 || u == 0xA0 || u == 0x1680 || (0x2000 <= u <= 0x200A)
        || u == 0x2028 || u == 0x2029 || u == 0x202F || u == 0x205F || u == 0x3000
}

/// A text without its leading whitespace.
pub open spec fn trim_start(s: Seq<char>) -> Seq<char>
    decreases s.len(),
{
    if s.len() > 0 && is_white(s[0]) {
        trim_start(s.drop_first())
    } else {
        s
    }
}

/// A text without its trailing whitespace.
pub open spec fn trim_end(s: Seq<char>) -> Seq<char>
    decreases s.len(),
{
    if s.len() > 0 && is_white(s.last()) {
        trim_end(s.drop_last())
    } else {
        s
    }
}

/// A text without its leading and trailing whitespace.
pub open spec fn trimmed(s: Seq<char>) -> Seq<char> {
    trim_end(trim_start(s))
}

/// A text with every occurrence of a non-empty `from` replaced by `to`, occurrences
/// taken from the left without overlapping.
pub open spec fn replaced(s: Seq<char>, from: Seq<char>, to: Seq<char>) -> Seq<char>
    decreases s.len(),
{
    if from.len() == 0 || s.len() < from.len() {
        s
    } else if s.subrange(0, from.len() as int) == from {
        to + replaced(s.subrange(from.len() as int, s.len() as int), from, to)
    } else {
        seq![s[0]] + replaced(s.drop_first(), from, to)
    }
}

/// Relies on str::lines: the lines of `s`, split at `\n` or `\r\n`, without their line
/// endings; a final line ending is optional.
#[verifier::external_body]
fn split_lines(s: &str) -> (r: Vec<String>)
    ensures
        strs(r@) == lines_of(s@),
{
    s.lines().map(|l| l.to_string()).collect()
}

/// Relies on str::trim: `s` without leading and trailing whitespace, whitespace being
/// what `char::is_whitespace` accepts.
#[verifier::external_body]
fn trim_text(s: &str) -> (r: String)
    ensures
        r@ == trimmed(s@),
{
    s.trim().to_string()
}

/// Relies on str::replace: every match of `from` in `s`, found from the left without
/// overlapping, replaced by `to`.
#[verifier::external_body]
fn replace_text(s: &str, from: &str, to: &str) -> (r: String)
    requires
        from@.len() > 0,
    ensures
        r@ == replaced(s@, from@, to@),
{
    s.replace(from, to)
}

/// Relies on str::chars: the characters of `s`, in order.
#[verifier::external_body]
fn chars_of(s: &str) -> (r: Vec<char>)
    ensures
        r@ == s@,
{
    s.chars().collect()
}

/// The placeholder for a template variable: `$` and its name.
pub fn placeholder(name: &str) -> (r: String)
    ensures
        r@ == seq!['$'] + name@,
{
    let mut r = String::from_str("$");
    proof {
        reveal_strlit("$");
    }
    r.append(name);
    r
}

/// The non-empty trimmed lines of a text.
pub open spec fn listed_ids(lines: Seq<Seq<char>>) -> Seq<Seq<char>> {
    lines.map_values(|l: Seq<char>| trimmed(l)).filter(|l: Seq<char>| l.len() > 0)
}

/// The test ids of a list: one per line, surrounding whitespace dropped, blank lines
/// skipped.
pub fn parse_list(content: &str) -> (r: Vec<TestId>)
    ensures
        ids_of(r@) == listed_ids(lines_of(content@)),
{
    let lines = split_lines(content);
    let ghost ls = lines_of(content@);
    let ghost f = |l: Seq<char>| l.len() > 0;
    let mut out: Vec<TestId> = Vec::new();
    let mut i: usize = 0;
    assert(ls.map_values(|l: Seq<char>| trimmed(l)).subrange(0, 0).filter(f) =~= seq![]) by {
        reveal(Seq::filter);
    }
    while i < lines.len()
        invariant
            i <= lines@.len(),
            strs(lines@) == ls,
            f == (|l: Seq<char>| l.len() > 0),
            ids_of(out@) == ls.map_values(|l: Seq<char>| trimmed(l)).subrange(0, i as int).filter(f),
        decreases lines@.len() - i,
    {
        let ghost tl = ls.map_values(|l: Seq<char>| trimmed(l));
        let ghost pre = tl.subrange(0, i as int);
        let t = trim_text(lines[i].as_str());
        assert(t@ == tl[i as int]);
        assert(tl.subrange(0, i + 1) =~= pre.push(t@));
        proof {
            reveal(Seq::filter);
            assert(pre.push(t@).drop_last() =~= pre);
        }
        if !t.as_str().is_empty() {
            let ghost o = out@;
            out.push(TestId::from_string(t));
            assert(ids_of(out@) =~= ids_of(o).push(tl[i as int]));
        }
        i = i + 1;
    }
    assert(ls.map_values(|l: Seq<char>| trimmed(l)).subrange(0, i as int) =~= ls.map_values(|l: Seq<char>| trimmed(l)));
    out
}

/// The first character boundary of `bytes` at or after `i`.
pub open spec fn next_boundary(bytes: Seq<u8>, i: int) -> int
    decreases bytes.len() - i,
{
    if i >= bytes.len() || is_char_boundary(bytes, i) {
        i
    } else {
        next_boundary(bytes, i + 1)
    }
}

/// The room left for a test name on a line of `max_len` columns that also shows a
/// two-column mark and a failure note of `fail_msg_len` columns.
pub open spec fn name_room(max_len: usize, fail_msg_len: usize) -> int {
    let reserved = fail_msg_len as int + 2;
    if max_len as int > reserved {
        max_len as int - reserved
    } else {
        0
    }
}

/// A test name cut to fit a progress line: its end is kept, since the end names the
/// test most precisely. Lengths count bytes; a cut inside a character moves on to the
/// next character.
pub fn truncate_test_name(test_id: &str, max_len: usize, fail_msg_len: usize) -> (r: String)
    ensures
        ({
            let b = encode_utf8(test_id@);
            let room = name_room(max_len, fail_msg_len);
            if b.len() > room {
                encode_utf8(r@) == b.subrange(next_boundary(b, b.len() - room), b.len() as int)
            } else {
                r@ == test_id@
            }
        }),
{
    let max_name = max_len.saturating_sub(fail_msg_len.saturating_add(2));
    let len = test_id.as_bytes().len();
    assert(max_name == name_room(max_len, fail_msg_len));
    proof {
        vstd::utf8::encode_utf8_valid_utf8(test_id@);
    }
    if len > max_name {
        let ghost b = encode_utf8(test_id@);
        let mut c = len - max_name;
        assert(next_boundary(b, c as int) == next_boundary(b, (len - max_name) as int));
        while c < len && !test_id.is_char_boundary(c)
            invariant
                c <= len,
                len == b.len(),
                b == test_id.spec_bytes(),
                next_boundary(b, c as int) == next_boundary(b, (len - max_name) as int),
            decreases len - c,
        {
            c = c + 1;
        }
        proof {
            if c == len {
                vstd::utf8::is_char_boundary_start_end_of_seq(b);
            }
        }
        let (_, tail) = test_id.split_at(c);
        let r = tail.to_owned();
        assert(r@ == tail@);
        r
    } else {
        test_id.to_owned()
    }
}

/// The configuration of how tests are run: the command template and its options.
pub struct TestrConfig {
    pub test_command: String,
    pub test_id_option: Option<String>,
    pub test_list_option: Option<String>,
    pub test_id_list_default: Option<String>,
    pub test_run_concurrency: Option<String>,
    pub filter_tags: Option<String>,
    pub group_regex: Option<String>,
    pub instance_provision: Option<String>,
    pub instance_execute: Option<String>,
    pub instance_dispose: Option<String>,
}

impl Default for TestrConfig {
    fn default() -> (r: Self)
        ensures
            r.test_command@.len() == 0,
            r.test_id_option is None && r.test_list_option is None,
            r.test_id_list_default is None && r.test_run_concurrency is None,
            r.filter_tags is None && r.group_regex is None,
            r.instance_provision is None && r.instance_execute is None && r.instance_dispose is None,
    {
        TestrConfig {
            test_command: String::new(),
            test_id_option: None,
            test_list_option: None,
            test_id_list_default: None,
            test_run_concurrency: None,
            filter_tags: None,
            group_regex: None,
            instance_provision: None,
            instance_execute: None,
            instance_dispose: None,
        }
    }
}

/// `cmd` after each `(name, value)` in turn has had `$name` replaced by `value`.
pub open spec fn substituted(cmd: Seq<char>, vars: Seq<(Seq<char>, Seq<char>)>) -> Seq<char>
    decreases vars.len(),
{
    if vars.len() == 0 {
        cmd
    } else {
        let (name, value) = vars.last();
        replaced(substituted(cmd, vars.drop_last()), seq!['$'] + name, value)
    }
}

/// The plain values of name-value pairs.
pub open spec fn pairs_view(v: Seq<(String, String)>) -> Seq<(Seq<char>, Seq<char>)> {
    v.map_values(|p: (String, String)| (p.0@, p.1@))
}

impl TestrConfig {
    /// `cmd` with each variable `$NAME` replaced by its value, variables taken in order.
    pub fn substitute_variables(&self, cmd: &str, vars: &Vec<(String, String)>) -> (r: String)
        ensures
            r@ == substituted(cmd@, pairs_view(vars@)),
    {
        let ghost pv = pairs_view(vars@);
        let mut result = cmd.to_owned();
        let mut i: usize = 0;
        assert(pv.subrange(0, 0) =~= seq![]);
        while i < vars.len()
            invariant
                i <= vars@.len(),
                pv == pairs_view(vars@),
                result@ == substituted(cmd@, pv.subrange(0, i as int)),
            decreases vars@.len() - i,
        {
            assert(pv.subrange(0, i + 1).drop_last() =~= pv.subrange(0, i as int));
            let key = placeholder(vars[i].0.as_str());
            result = replace_text(result.as_str(), key.as_str(), vars[i].1.as_str());
            i = i + 1;
        }
        assert(pv.subrange(0, i as int) =~= pv);
        result
    }
}


/// The value of a digit character.
pub open spec fn digit_value(c: char) -> int {
    c as int - '0' as int
}

/// Whether `c` is a decimal digit.
pub open spec fn is_digit(c: char) -> bool {
    '0' <= c && c <= '9'
}

/// The number that a run of decimal digits writes.
pub open spec fn digits_value(s: Seq<char>) -> int
    decreases s.len(),
{
    if s.len() == 0 {
        0
    } else {
        digits_value(s.drop_last()) * 10 + digit_value(s.last())
    }
}

/// A text without a leading `+`.
pub open spec fn unsigned_part(t: Seq<char>) -> Seq<char> {
    if t.len() > 0 && t[0] == '+' {
        t.drop_first()
    } else {
        t
    }
}

/// The number that a text of decimal digits writes, when it is one and fits in `u64`.
pub open spec fn digits_count(d: Seq<char>) -> Option<u64> {
    if d.len() > 0 && (forall|i: int| 0 <= i < d.len() ==> is_digit(#[trigger] d[i])) && digits_value(d)
        <= u64::MAX as int {
        Some(digits_value(d) as u64)
    } else {
        None
    }
}

/// The count that a text holds: decimal digits, optionally after a `+`, with
/// surrounding whitespace ignored; none for anything else or a value past `u64::MAX`.
pub open spec fn count_of(s: Seq<char>) -> Option<u64> {
    digits_count(unsigned_part(trimmed(s)))
}

proof fn lemma_digits_nonneg(s: Seq<char>)
    requires
        forall|i: int| 0 <= i < s.len() ==> is_digit(#[trigger] s[i]),
    ensures
        digits_value(s) >= 0,
    decreases s.len(),
{
    if s.len() > 0 {
        lemma_digits_nonneg(s.drop_last());
    }
}

proof fn lemma_digits_grow(s: Seq<char>, c: char)
    requires
        forall|i: int| 0 <= i < s.len() ==> is_digit(#[trigger] s[i]),
        is_digit(c),
    ensures
        digits_value(s.push(c)) >= digits_value(s),
        digits_value(s.push(c)) == digits_value(s) * 10 + digit_value(c),
{
    assert(s.push(c).drop_last() =~= s);
    lemma_digits_nonneg(s);
}

/// Reads a count such as a run counter or a number of workers from text.
pub fn parse_count(text: &str) -> (r: Option<u64>)
    ensures
        r == count_of(text@),
{
    let t = trim_text(text);
    let chars: Vec<char> = chars_of(t.as_str());
    let ghost tv = trimmed(text@);
    assert(chars@ == tv);
    let start: usize = if chars.len() > 0 && chars[0] == '+' { 1 } else { 0 };
    let ghost d = unsigned_part(tv);
    assert(d =~= tv.subrange(start as int, tv.len() as int));
    if start >= chars.len() {
        return None;
    }
    let mut value: u64 = 0;
    let mut i: usize = start;
    while i < chars.len()
        invariant
            start <= i <= chars@.len(),
            chars@ == tv,
            tv == trimmed(text@),
            d == unsigned_part(tv),
            d == tv.subrange(start as int, tv.len() as int),
            forall|k: int| 0 <= k < i - start ==> is_digit(#[trigger] d[k]),
            value as int == digits_value(d.subrange(0, i - start)),
        decreases chars@.len() - i,
    {
        let c = chars[i];
        let ghost pre = d.subrange(0, i - start);
        assert(d.subrange(0, i + 1 - start) =~= pre.push(c));
        assert forall|k: int| 0 <= k < pre.len() implies is_digit(#[trigger] pre[k]) by {
            assert(pre[k] == d[k]);
        }
        assert(d[i - start] == c);
        if !('0' <= c && c <= '9') {
            assert(!is_digit(d[i - start]));
            return None;
        }
        proof {
            lemma_digits_grow(pre, c);
        }
        let dv = (c as u32 - '0' as u32) as u64;
        if value > (u64::MAX - dv) / 10 {
            proof {
                assert(value * 10 + dv > u64::MAX) by (nonlinear_arith)
                    requires
                        value > (u64::MAX - dv) / 10,
                        dv <= 9,
                ;
                assert(digit_value(c) == dv as int);
                assert(digits_value(d.subrange(0, i + 1 - start)) == value * 10 + dv);
                assert forall|k: int| 0 <= k < i + 1 - start implies is_digit(#[trigger] d[k]) by {
                    if k == i - start {
                        assert(d[k] == c);
                    }
                }
                lemma_digits_prefix_bound(d, (i + 1 - start) as int);
            }
            return None;
        }
        assert(value * 10 + dv <= u64::MAX) by (nonlinear_arith)
            requires
                value <= (u64::MAX - dv) / 10,
                dv <= 9,
        ;
        value = value * 10 + dv;
        i = i + 1;
    }
    assert(d.subrange(0, i - start) =~= d);
    Some(value)
}

/// A digit string is worth at least any of its prefixes.
proof fn lemma_digits_prefix_bound(d: Seq<char>, n: int)
    requires
        0 <= n <= d.len(),
        forall|k: int| 0 <= k < n ==> is_digit(#[trigger] d[k]),
    ensures
        (forall|k: int| 0 <= k < d.len() ==> is_digit(#[trigger] d[k])) ==> digits_value(d) >= digits_value(
            d.subrange(0, n),
        ),
    decreases d.len() - n,
{
    if n < d.len() && (forall|k: int| 0 <= k < d.len() ==> is_digit(#[trigger] d[k])) {
        lemma_digits_prefix_bound(d, n + 1);
        assert(d.subrange(0, n + 1) =~= d.subrange(0, n).push(d[n]));
        assert forall|k: int| 0 <= k < n implies is_digit(#[trigger] d.subrange(0, n)[k]) by {
            assert(d.subrange(0, n)[k] == d[k]);
        }
        lemma_digits_grow(d.subrange(0, n), d[n]);
    } else if n == d.len() {
        assert(d.subrange(0, n) =~= d);
    }
}

} // verus!
