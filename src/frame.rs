//! Where scanning a byte stream is safe.
//!
//! The `subunit` scanner walks a stream packet by packet. A packet whose header is
//! sound but whose fields run into the space of its closing checksum makes the scanner
//! read past the packet, which panics. This module walks the stream the way the scanner
//! does and finds the first such packet, so that only the part before it is scanned.
//! A packet is flagged when its fields fit but leave under four bytes; whether its
//! strings are valid UTF-8 is not looked at, so a few packets that the scanner would
//! merely reject are flagged too.

use vstd::prelude::*;

verus! {

/// The size of the number that starts at `i`: its top two bits give one to four bytes.
pub open spec fn num_len(b: Seq<u8>, i: int) -> int {
    (b[i] / 64) as int + 1
}

/// The value of the `n`-byte number at `i`, without its two size bits.
pub open spec fn num_val(b: Seq<u8>, i: int, n: int) -> int
    decreases n,
{
    if n <= 1 {
        (b[i] % 64) as int
    } else {
        num_val(b, i, n - 1) * 256 + b[i + n - 1] as int
    }
}

/// A number read at `off` within `hi`: its value and where it ends.
pub open spec fn read_num(b: Seq<u8>, hi: int, off: int) -> Option<(int, int)> {
    if off >= hi {
        None
    } else if off + num_len(b, off) > hi {
        None
    } else {
        Some((num_val(b, off, num_len(b, off)), off + num_len(b, off)))
    }
}

/// The end of a length-prefixed string or byte field at `off` within `hi`.
pub open spec fn read_str(b: Seq<u8>, hi: int, off: int) -> Option<int> {
    match read_num(b, hi, off) {
        None => None,
        Some((len, e)) => if e + len > hi {
            None
        } else {
            Some(e + len)
        },
    }
}

/// The end of `count` strings in a row.
pub open spec fn read_strs(b: Seq<u8>, hi: int, off: int, count: nat) -> Option<int>
    decreases count,
{
    if count == 0 {
        Some(off)
    } else {
        match read_str(b, hi, off) {
            None => None,
            Some(e) => read_strs(b, hi, e, (count - 1) as nat),
        }
    }
}

/// The end of a tag list: a count, then that many strings.
pub open spec fn read_tags(b: Seq<u8>, hi: int, off: int) -> Option<int> {
    match read_num(b, hi, off) {
        None => None,
        Some((c, e)) => read_strs(b, hi, e, c as nat),
    }
}

/// The end of a time field: four bytes of seconds, then a number of nanoseconds.
pub open spec fn read_ts(b: Seq<u8>, hi: int, off: int) -> Option<int> {
    if hi - off < 5 {
        None
    } else if off + 4 + num_len(b, off + 4) > hi {
        None
    } else {
        Some(off + 4 + num_len(b, off + 4))
    }
}

/// Whether bit `k` of the flags is set.
pub open spec fn bit(flags: int, k: int) -> bool {
    (flags / pow2(k)) % 2 == 1
}

/// Two to the power `k`.
pub open spec fn pow2(k: int) -> int
    decreases k,
{
    if k <= 0 {
        1
    } else {
        2 * pow2(k - 1)
    }
}

/// Reads an optional field: present fields are read, absent ones take no room.
pub open spec fn then_read(o: Option<int>, present: bool, r: spec_fn(int) -> Option<int>) -> Option<int> {
    match o {
        None => None,
        Some(off) => if present {
            r(off)
        } else {
            Some(off)
        },
    }
}

/// Where the fields of a packet end, read in wire order: time, test id, tags, mime
/// type, file name and content, routing code.
pub open spec fn fields_end(b: Seq<u8>, hi: int, flags: int, start: int) -> Option<int> {
    let o1 = then_read(Some(start), bit(flags, 9), |o: int| read_ts(b, hi, o));
    let o2 = then_read(o1, bit(flags, 11), |o: int| read_str(b, hi, o));
    let o3 = then_read(o2, bit(flags, 7), |o: int| read_tags(b, hi, o));
    let o4 = then_read(o3, bit(flags, 5), |o: int| read_str(b, hi, o));
    let o5 = then_read(o4, bit(flags, 6), |o: int| read_str(b, hi, o));
    let o6 = then_read(o5, bit(flags, 6), |o: int| read_str(b, hi, o));
    then_read(o6, bit(flags, 10), |o: int| read_str(b, hi, o))
}

/// A packet in `[pos, hi)` whose fields fit but leave no room for the checksum.
pub open spec fn overruns(b: Seq<u8>, pos: int, hi: int, flags: int, start: int) -> bool {
    !bit(flags, 3) && match fields_end(b, hi, flags, start) {
        Some(e) => e + 4 > hi,
        None => false,
    }
}

/// The flags of the packet header at `pos`.
pub open spec fn flags_at(b: Seq<u8>, pos: int) -> int {
    b[pos + 1] as int * 256 + b[pos + 2] as int
}

/// Walks the stream from `pos` as the scanner does and returns where the first
/// overrunning packet starts, or the length when there is none. Stray bytes and broken
/// headers move on by one byte; a packet that the stream ends inside ends the walk; a
/// whole packet is stepped over.
pub open spec fn walk(b: Seq<u8>, pos: int) -> int
    decreases b.len() - pos,
{
    if pos < 0 || pos >= b.len() {
        b.len() as int
    } else if b[pos] != 0xB3 {
        walk(b, pos + 1)
    } else if b.len() - pos < 3 {
        b.len() as int
    } else if flags_at(b, pos) / 4096 != 2 {
        walk(b, pos + 1)
    } else if pos + 3 >= b.len() || pos + 3 + num_len(b, pos + 3) > b.len() {
        b.len() as int
    } else {
        let n = num_len(b, pos + 3);
        let len = num_val(b, pos + 3, n);
        if len > 4194304 || len < 3 + n {
            walk(b, pos + 1)
        } else if len > b.len() - pos {
            b.len() as int
        } else if overruns(b, pos, pos + len, flags_at(b, pos), pos + 3 + n) {
            pos
        } else {
            walk(b, pos + len)
        }
    }
}

/// Scanning `b` never meets an overrunning packet.
pub open spec fn scan_safe(b: Seq<u8>) -> bool {
    walk(b, 0) == b.len()
}


/// Two streams hold the same bytes below `hi`.
pub open spec fn agree(b1: Seq<u8>, b2: Seq<u8>, hi: int) -> bool {
    hi <= b1.len() && hi <= b2.len() && forall|i: int| 0 <= i < hi ==> b1[i] == b2[i]
}

proof fn lemma_num_val_agree(b1: Seq<u8>, b2: Seq<u8>, hi: int, i: int, n: int)
    requires
        agree(b1, b2, hi),
        0 <= i,
        i + n <= hi,
        n >= 1,
    ensures
        num_val(b1, i, n) == num_val(b2, i, n),
    decreases n,
{
    if n > 1 {
        lemma_num_val_agree(b1, b2, hi, i, n - 1);
    }
}

proof fn lemma_num_val_bounds(b: Seq<u8>, i: int, n: int)
    requires
        1 <= n <= 4,
    ensures
        0 <= num_val(b, i, n) < pow2(6 + 8 * (n - 1)),
    decreases n,
{
    if n > 1 {
        lemma_num_val_bounds(b, i, n - 1);
        assert(pow2(6 + 8 * (n - 1)) == 256 * pow2(6 + 8 * (n - 2))) by {
            reveal_with_fuel(pow2, 9);
        }
        assert(0 <= b[i + n - 1] < 256);
    } else {
        assert(pow2(6) == 64) by {
            reveal_with_fuel(pow2, 7);
        }
    }
}

proof fn lemma_read_num_agree(b1: Seq<u8>, b2: Seq<u8>, hi: int, off: int)
    requires
        agree(b1, b2, hi),
        0 <= off,
    ensures
        read_num(b1, hi, off) == read_num(b2, hi, off),
{
    if off < hi {
        assert(b1[off] == b2[off]);
        if off + num_len(b1, off) <= hi {
            lemma_num_val_agree(b1, b2, hi, off, num_len(b1, off));
        }
    }
}

proof fn lemma_read_str_agree(b1: Seq<u8>, b2: Seq<u8>, hi: int, off: int)
    requires
        agree(b1, b2, hi),
        0 <= off,
    ensures
        read_str(b1, hi, off) == read_str(b2, hi, off),
        read_str(b1, hi, off) matches Some(e) ==> e >= off,
{
    lemma_read_num_agree(b1, b2, hi, off);
    if off < hi {
        let n = num_len(b1, off);
        assert(1 <= n <= 4);
        lemma_num_val_bounds(b1, off, n);
    }
}

proof fn lemma_read_strs_agree(b1: Seq<u8>, b2: Seq<u8>, hi: int, off: int, count: nat)
    requires
        agree(b1, b2, hi),
        0 <= off,
    ensures
        read_strs(b1, hi, off, count) == read_strs(b2, hi, off, count),
        read_strs(b1, hi, off, count) matches Some(e) ==> e >= off,
    decreases count,
{
    if count > 0 {
        lemma_read_str_agree(b1, b2, hi, off);
        if let Some(e) = read_str(b1, hi, off) {
            lemma_read_strs_agree(b1, b2, hi, e, (count - 1) as nat);
        }
    }
}

proof fn lemma_read_tags_agree(b1: Seq<u8>, b2: Seq<u8>, hi: int, off: int)
    requires
        agree(b1, b2, hi),
        0 <= off,
    ensures
        read_tags(b1, hi, off) == read_tags(b2, hi, off),
        read_tags(b1, hi, off) matches Some(e) ==> e >= off,
{
    lemma_read_num_agree(b1, b2, hi, off);
    if let Some((c, e)) = read_num(b1, hi, off) {
        lemma_read_strs_agree(b1, b2, hi, e, c as nat);
    }
}

proof fn lemma_read_ts_agree(b1: Seq<u8>, b2: Seq<u8>, hi: int, off: int)
    requires
        agree(b1, b2, hi),
        0 <= off,
    ensures
        read_ts(b1, hi, off) == read_ts(b2, hi, off),
        read_ts(b1, hi, off) matches Some(e) ==> e >= off,
{
    if hi - off >= 5 {
        assert(b1[off + 4] == b2[off + 4]);
    }
}

/// What a packet holds is read from its own bytes only.
proof fn lemma_overruns_agree(b1: Seq<u8>, b2: Seq<u8>, pos: int, hi: int, flags: int, start: int)
    requires
        agree(b1, b2, hi),
        0 <= start,
    ensures
        overruns(b1, pos, hi, flags, start) == overruns(b2, pos, hi, flags, start),
{
    let r1 = |o: int| read_ts(b1, hi, o);
    let r2 = |o: int| read_ts(b2, hi, o);
    let s1 = |o: int| read_str(b1, hi, o);
    let s2 = |o: int| read_str(b2, hi, o);
    let t1 = |o: int| read_tags(b1, hi, o);
    let t2 = |o: int| read_tags(b2, hi, o);
    lemma_read_ts_agree(b1, b2, hi, start);
    let o1 = then_read(Some(start), bit(flags, 9), r1);
    assert(o1 == then_read(Some(start), bit(flags, 9), r2));
    assert(o1 matches Some(e) ==> e >= 0);
    let o2 = then_read(o1, bit(flags, 11), s1);
    if let Some(e) = o1 {
        lemma_read_str_agree(b1, b2, hi, e);
    }
    assert(o2 == then_read(o1, bit(flags, 11), s2));
    assert(o2 matches Some(e) ==> e >= 0);
    let o3 = then_read(o2, bit(flags, 7), t1);
    if let Some(e) = o2 {
        lemma_read_tags_agree(b1, b2, hi, e);
    }
    assert(o3 == then_read(o2, bit(flags, 7), t2));
    assert(o3 matches Some(e) ==> e >= 0);
    let o4 = then_read(o3, bit(flags, 5), s1);
    if let Some(e) = o3 {
        lemma_read_str_agree(b1, b2, hi, e);
    }
    assert(o4 == then_read(o3, bit(flags, 5), s2));
    assert(o4 matches Some(e) ==> e >= 0);
    let o5 = then_read(o4, bit(flags, 6), s1);
    if let Some(e) = o4 {
        lemma_read_str_agree(b1, b2, hi, e);
    }
    assert(o5 == then_read(o4, bit(flags, 6), s2));
    assert(o5 matches Some(e) ==> e >= 0);
    let o6 = then_read(o5, bit(flags, 6), s1);
    if let Some(e) = o5 {
        lemma_read_str_agree(b1, b2, hi, e);
    }
    assert(o6 == then_read(o5, bit(flags, 6), s2));
    assert(o6 matches Some(e) ==> e >= 0);
    if let Some(e) = o6 {
        lemma_read_str_agree(b1, b2, hi, e);
    }
    assert(fields_end(b1, hi, flags, start) == then_read(o6, bit(flags, 10), s1));
    assert(fields_end(b2, hi, flags, start) == then_read(o6, bit(flags, 10), s2));
}

/// Cutting a stream where its walk stops leaves a stream whose walk runs to the end.
pub proof fn lemma_walk_prefix(b: Seq<u8>, pos: int)
    requires
        0 <= pos <= walk(b, 0),
        walk(b, pos) == walk(b, 0),
    ensures
        walk(b.subrange(0, walk(b, 0)), pos) == walk(b, 0),
    decreases b.len() - pos,
{
    let p = walk(b, 0);
    let c = b.subrange(0, p);
    lemma_walk_bounds(b, 0);
    if pos >= p {
        return;
    }
    assert(c[pos] == b[pos]);
    if b[pos] != 0xB3 {
        lemma_walk_prefix(b, pos + 1);
    } else if b.len() - pos < 3 {
    } else {
        if p - pos < 3 {
            return;
        }
        assert(c[pos + 1] == b[pos + 1] && c[pos + 2] == b[pos + 2]);
        let flags = flags_at(b, pos);
        if flags / 4096 != 2 {
            lemma_walk_prefix(b, pos + 1);
        } else if pos + 3 >= b.len() || pos + 3 + num_len(b, pos + 3) > b.len() {
        } else {
            if pos + 3 >= p {
                return;
            }
            assert(c[pos + 3] == b[pos + 3]);
            let n = num_len(b, pos + 3);
            if pos + 3 + n > p {
                return;
            }
            lemma_num_val_agree(b, c, p, pos + 3, n);
            let len = num_val(b, pos + 3, n);
            if len > 4194304 || len < 3 + n {
                lemma_walk_prefix(b, pos + 1);
            } else if len > b.len() - pos {
            } else if overruns(b, pos, pos + len, flags, pos + 3 + n) {
            } else {
                if len > p - pos {
                    return;
                }
                lemma_overruns_agree(b, c, pos, pos + len, flags, pos + 3 + n);
                lemma_walk_prefix(b, pos + len);
            }
        }
    }
}

/// The walk stays between where it starts and the end.
pub proof fn lemma_walk_bounds(b: Seq<u8>, pos: int)
    requires
        0 <= pos,
    ensures
        walk(b, pos) <= b.len(),
        pos <= b.len() ==> pos <= walk(b, pos),
    decreases b.len() - pos,
{
    if pos < b.len() {
        if b[pos] != 0xB3 {
            lemma_walk_bounds(b, pos + 1);
        } else if b.len() - pos >= 3 && flags_at(b, pos) / 4096 == 2 && !(pos + 3 >= b.len() || pos + 3
            + num_len(b, pos + 3) > b.len()) {
            let n = num_len(b, pos + 3);
            let len = num_val(b, pos + 3, n);
            if len > 4194304 || len < 3 + n {
                lemma_walk_bounds(b, pos + 1);
            } else if len <= b.len() - pos && !overruns(b, pos, pos + len, flags_at(b, pos), pos + 3 + n) {
                lemma_walk_bounds(b, pos + len);
            }
        } else if b.len() - pos >= 3 && flags_at(b, pos) / 4096 != 2 {
            lemma_walk_bounds(b, pos + 1);
        }
    }
}


/// Reads the number at `off` within `hi`.
fn read_num_e(b: &[u8], hi: usize, off: usize) -> (r: Option<(u64, usize)>)
    requires
        hi <= b@.len(),
    ensures
        match r {
            None => read_num(b@, hi as int, off as int) is None,
            Some((v, e)) => read_num(b@, hi as int, off as int) == Some((v as int, e as int)) && v < 0x4000_0000,
        },
{
    if off >= hi {
        return None;
    }
    let n: usize = (b[off] / 64) as usize + 1;
    if n > hi - off {
        return None;
    }
    proof {
        lemma_num_val_bounds(b@, off as int, n as int);
        reveal_with_fuel(pow2, 31);
    }
    let mut v: u64 = (b[off] % 64) as u64;
    let mut k: usize = 1;
    while k < n
        invariant
            1 <= k <= n <= 4,
            off + n <= hi <= b@.len(),
            n == num_len(b@, off as int),
            v == num_val(b@, off as int, k as int),
        decreases n - k,
    {
        proof {
            lemma_num_val_bounds(b@, off as int, k as int);
            reveal_with_fuel(pow2, 31);
        }
        v = v * 256 + b[off + k] as u64;
        k = k + 1;
    }
    Some((v, off + n))
}

/// Reads a length-prefixed field at `off` within `hi`.
fn read_str_e(b: &[u8], hi: usize, off: usize) -> (r: Option<usize>)
    requires
        hi <= b@.len(),
    ensures
        match r {
            None => read_str(b@, hi as int, off as int) is None,
            Some(e) => read_str(b@, hi as int, off as int) == Some(e as int) && off <= e <= hi,
        },
{
    match read_num_e(b, hi, off) {
        None => None,
        Some((len, e)) => {
            if len > (hi - e) as u64 {
                None
            } else {
                Some(e + len as usize)
            }
        },
    }
}

/// Reads `count` strings in a row.
fn read_strs_e(b: &[u8], hi: usize, off: usize, count: u64) -> (r: Option<usize>)
    requires
        hi <= b@.len(),
        off <= hi,
    ensures
        match r {
            None => read_strs(b@, hi as int, off as int, count as nat) is None,
            Some(e) => read_strs(b@, hi as int, off as int, count as nat) == Some(e as int) && e <= hi,
        },
{
    let mut at = off;
    let mut c = count;
    while c > 0
        invariant
            hi <= b@.len(),
            at <= hi,
            read_strs(b@, hi as int, off as int, count as nat) == read_strs(b@, hi as int, at as int, c as nat),
        decreases c,
    {
        match read_str_e(b, hi, at) {
            None => {
                return None;
            },
            Some(e) => {
                at = e;
            },
        }
        c = c - 1;
    }
    Some(at)
}

/// Reads a tag list at `off` within `hi`.
fn read_tags_e(b: &[u8], hi: usize, off: usize) -> (r: Option<usize>)
    requires
        hi <= b@.len(),
    ensures
        match r {
            None => read_tags(b@, hi as int, off as int) is None,
            Some(e) => read_tags(b@, hi as int, off as int) == Some(e as int) && e <= hi,
        },
{
    match read_num_e(b, hi, off) {
        None => None,
        Some((c, e)) => read_strs_e(b, hi, e, c),
    }
}

/// Reads a time field at `off` within `hi`.
fn read_ts_e(b: &[u8], hi: usize, off: usize) -> (r: Option<usize>)
    requires
        hi <= b@.len(),
        off <= hi,
    ensures
        match r {
            None => read_ts(b@, hi as int, off as int) is None,
            Some(e) => read_ts(b@, hi as int, off as int) == Some(e as int) && e <= hi,
        },
{
    if hi - off < 5 {
        return None;
    }
    let n: usize = (b[off + 4] / 64) as usize + 1;
    if n > hi - off - 4 {
        return None;
    }
    Some(off + 4 + n)
}

/// Whether bit `k` of `flags` is set, for the bits that packets use.
fn has_bit(flags: usize, k: usize) -> (r: bool)
    requires
        k <= 11,
    ensures
        r == bit(flags as int, k as int),
{
    proof {
        reveal_with_fuel(pow2, 12);
    }
    let p: usize = if k == 3 { 8 } else if k == 5 { 32 } else if k == 6 { 64 } else if k == 7 { 128 } else if k
        == 9 { 512 } else if k == 10 { 1024 } else if k == 11 { 2048 } else if k == 0 { 1 } else if k == 1 { 2 }
    else if k == 2 { 4 } else if k == 4 { 16 } else { 256 };
    assert(p as int == pow2(k as int));
    (flags / p) % 2 == 1
}

/// Whether the packet in `[pos, hi)` overruns its checksum.
fn overruns_e(b: &[u8], hi: usize, flags: usize, start: usize) -> (r: bool)
    requires
        hi <= b@.len(),
        start <= hi,
    ensures
        r == overruns(b@, 0, hi as int, flags as int, start as int),
{
    let ghost bv = b@;
    let ghost h = hi as int;
    let ghost f = flags as int;
    if has_bit(flags, 3) {
        return false;
    }
    let mut o = start;
    let ghost o0 = Some(start as int);
    if has_bit(flags, 9) {
        match read_ts_e(b, hi, o) {
            None => {
                assert(fields_end(bv, h, f, start as int) is None);
                return false;
            },
            Some(e) => {
                o = e;
            },
        }
    }
    let ghost o1 = then_read(o0, bit(f, 9), |x: int| read_ts(bv, h, x));
    assert(o1 == Some(o as int));
    if has_bit(flags, 11) {
        match read_str_e(b, hi, o) {
            None => {
                assert(fields_end(bv, h, f, start as int) is None);
                return false;
            },
            Some(e) => {
                o = e;
            },
        }
    }
    let ghost o2 = then_read(o1, bit(f, 11), |x: int| read_str(bv, h, x));
    assert(o2 == Some(o as int));
    if has_bit(flags, 7) {
        match read_tags_e(b, hi, o) {
            None => {
                assert(fields_end(bv, h, f, start as int) is None);
                return false;
            },
            Some(e) => {
                o = e;
            },
        }
    }
    let ghost o3 = then_read(o2, bit(f, 7), |x: int| read_tags(bv, h, x));
    assert(o3 == Some(o as int));
    if has_bit(flags, 5) {
        match read_str_e(b, hi, o) {
            None => {
                assert(fields_end(bv, h, f, start as int) is None);
                return false;
            },
            Some(e) => {
                o = e;
            },
        }
    }
    let ghost o4 = then_read(o3, bit(f, 5), |x: int| read_str(bv, h, x));
    assert(o4 == Some(o as int));
    if has_bit(flags, 6) {
        match read_str_e(b, hi, o) {
            None => {
                assert(fields_end(bv, h, f, start as int) is None);
                return false;
            },
            Some(e) => {
                o = e;
            },
        }
    }
    let ghost o5 = then_read(o4, bit(f, 6), |x: int| read_str(bv, h, x));
    assert(o5 == Some(o as int));
    if has_bit(flags, 6) {
        match read_str_e(b, hi, o) {
            None => {
                assert(fields_end(bv, h, f, start as int) is None);
                return false;
            },
            Some(e) => {
                o = e;
            },
        }
    }
    let ghost o6 = then_read(o5, bit(f, 6), |x: int| read_str(bv, h, x));
    assert(o6 == Some(o as int));
    if has_bit(flags, 10) {
        match read_str_e(b, hi, o) {
            None => {
                assert(fields_end(bv, h, f, start as int) is None);
                return false;
            },
            Some(e) => {
                o = e;
            },
        }
    }
    assert(fields_end(bv, h, f, start as int) == Some(o as int));
    hi - o < 4
}

/// One step of the walk.
pub enum ScanStep {
    /// The walk goes on from this position.
    Next(usize),
    /// A packet that overruns its checksum starts here.
    Overrun,
    /// The stream ends inside a header or a packet.
    NeedMore,
}

/// Takes one step of the walk from `pos`, which is a point the walk reaches.
pub fn scan_step(b: &[u8], pos: usize) -> (r: ScanStep)
    requires
        pos < b@.len(),
    ensures
        match r {
            ScanStep::Next(p) => pos < p <= b@.len() && walk(b@, pos as int) == walk(b@, p as int),
            ScanStep::Overrun => walk(b@, pos as int) == pos,
            ScanStep::NeedMore => walk(b@, pos as int) == b@.len(),
        },
{
    let len = b.len();
    if b[pos] != 0xB3 {
        return ScanStep::Next(pos + 1);
    }
    if len - pos < 3 {
        return ScanStep::NeedMore;
    }
    let flags: usize = b[pos + 1] as usize * 256 + b[pos + 2] as usize;
    if flags / 4096 != 2 {
        return ScanStep::Next(pos + 1);
    }
    if pos + 3 >= len {
        return ScanStep::NeedMore;
    }
    let n: usize = (b[pos + 3] / 64) as usize + 1;
    if n > len - pos - 3 {
        return ScanStep::NeedMore;
    }
    let (plen, _) = match read_num_e(b, len, pos + 3) {
        Some(x) => x,
        None => {
            return ScanStep::NeedMore;
        },
    };
    if plen > 4194304 || plen < 3 + n as u64 {
        ScanStep::Next(pos + 1)
    } else if plen > (len - pos) as u64 {
        ScanStep::NeedMore
    } else if overruns_e(b, pos + plen as usize, flags, pos + 3 + n) {
        ScanStep::Overrun
    } else {
        ScanStep::Next(pos + plen as usize)
    }
}

/// Where scanning `b` has to stop: the start of its first overrunning packet, or its
/// length when there is none.
pub fn safe_scan_len(b: &[u8]) -> (r: usize)
    ensures
        r == walk(b@, 0),
{
    let len = b.len();
    let mut pos: usize = 0;
    while pos < len
        invariant
            pos <= len == b@.len(),
            walk(b@, 0) == walk(b@, pos as int),
        decreases len - pos,
    {
        match scan_step(b, pos) {
            ScanStep::Next(p) => {
                pos = p;
            },
            ScanStep::Overrun => {
                return pos;
            },
            ScanStep::NeedMore => {
                return len;
            },
        }
    }
    len
}

} // verus!
