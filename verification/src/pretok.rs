//! Pretokenizer for the fixed cl100k_base pattern, without a regex engine:
//!   '(?i:[sdmt]|ll|ve|re) | [^\r\n\p{L}\p{N}]?+\p{L}++ | \p{N}{1,3}+
//!   | ?[^\s\p{L}\p{N}]++[\r\n]*+ | \s++$ | \s*[\r\n] | \s+(?!\S) | \s
//! \p{L}, \p{N} and \s come from a Unicode class table loaded with the encoding.
use vstd::prelude::*;

use crate::vocab::{le32, rd32, VocabError};

verus! {

// ---- ASCII byte classes ---------------------------------------------------

pub open spec fn is_upper(b: u8) -> bool {
    65 <= b <= 90
}

pub open spec fn is_lower(b: u8) -> bool {
    97 <= b <= 122
}

/// [A-Za-z]
pub open spec fn is_alpha(b: u8) -> bool {
    is_upper(b) || is_lower(b)
}

/// [0-9]
pub open spec fn is_digit(b: u8) -> bool {
    48 <= b <= 57
}

/// ASCII whitespace: \\t \\n \\v \\f \\r and space.
pub open spec fn is_space(b: u8) -> bool {
    (9 <= b <= 13) || b == 32
}

/// ASCII bytes that are neither whitespace, letter nor digit (control bytes and DEL included).
pub open spec fn is_punct(b: u8) -> bool {
    b < 128 && !is_space(b) && !is_alpha(b) && !is_digit(b)
}

/// The kinds of ASCII run the scanners advance over.
#[derive(Clone, Copy)]
pub enum Run {
    Alpha,
    Upper,
    Lower,
    Punct,
}

pub open spec fn run_pred(k: Run, b: u8) -> bool {
    match k {
        Run::Alpha => is_alpha(b),
        Run::Upper => is_upper(b),
        Run::Lower => is_lower(b),
        Run::Punct => is_punct(b),
    }
}

/// End of the run of `k` bytes starting at `q` (stops at `len`).
pub open spec fn run_end(t: Seq<u8>, q: int, len: int, k: Run) -> int
    decreases len - q,
{
    if q >= len {
        q
    } else if run_pred(k, t[q]) {
        run_end(t, q + 1, len, k)
    } else {
        q
    }
}

pub proof fn lemma_run_end(t: Seq<u8>, q: int, len: int, k: Run)
    requires
        0 <= q <= len <= t.len(),
    ensures
        q <= run_end(t, q, len, k) <= len,
        forall|j: int| q <= j < run_end(t, q, len, k) ==> run_pred(k, #[trigger] t[j]),
        run_end(t, q, len, k) < len ==> !run_pred(k, t[run_end(t, q, len, k)]),
    decreases len - q,
{
    if q < len && run_pred(k, t[q]) {
        lemma_run_end(t, q + 1, len, k);
    }
}

pub fn a_let(b: u8) -> (r: bool)
    ensures
        r == is_alpha(b),
{
    (b >= 65 && b <= 90) || (b >= 97 && b <= 122)
}

pub fn a_dig(b: u8) -> (r: bool)
    ensures
        r == is_digit(b),
{
    b >= 48 && b <= 57
}

pub fn a_ws(b: u8) -> (r: bool)
    ensures
        r == is_space(b),
{
    (b >= 9 && b <= 13) || b == 32
}

pub fn a_pun(b: u8) -> (r: bool)
    ensures
        r == is_punct(b),
{
    b < 128 && !a_ws(b) && !a_let(b) && !a_dig(b)
}

fn run_test(k: &Run, b: u8) -> (r: bool)
    ensures
        r == run_pred(*k, b),
{
    match k {
        Run::Alpha => a_let(b),
        Run::Upper => b >= 65 && b <= 90,
        Run::Lower => b >= 97 && b <= 122,
        Run::Punct => a_pun(b),
    }
}

fn ascii_run(t: &[u8], q: usize, len: usize, k: Run) -> (r: usize)
    requires
        q <= len <= t@.len(),
    ensures
        r == run_end(t@, q as int, len as int, k),
{
    let mut i = q;
    while i < len && run_test(&k, t[i])
        invariant
            q <= i <= len <= t@.len(),
            run_end(t@, i as int, len as int, k) == run_end(t@, q as int, len as int, k),
        decreases len - i,
    {
        i = i + 1;
    }
    i
}

/// End of the run of ASCII letters [A-Za-z] from `q`.
pub fn ascii_letter_run(t: &[u8], q: usize, len: usize) -> (r: usize)
    requires
        q <= len <= t@.len(),
    ensures
        r == run_end(t@, q as int, len as int, Run::Alpha),
{
    ascii_run(t, q, len, Run::Alpha)
}

/// End of the run of [A-Z] from `q`.
pub fn ascii_upper_run(t: &[u8], q: usize, len: usize) -> (r: usize)
    requires
        q <= len <= t@.len(),
    ensures
        r == run_end(t@, q as int, len as int, Run::Upper),
{
    ascii_run(t, q, len, Run::Upper)
}

/// End of the run of [a-z] from `q`.
pub fn ascii_lower_run(t: &[u8], q: usize, len: usize) -> (r: usize)
    requires
        q <= len <= t@.len(),
    ensures
        r == run_end(t@, q as int, len as int, Run::Lower),
{
    ascii_run(t, q, len, Run::Lower)
}

/// End of the run of ASCII bytes that are not \\s, letter or digit.
pub fn ascii_punct_run(t: &[u8], q: usize, len: usize) -> (r: usize)
    requires
        q <= len <= t@.len(),
    ensures
        r == run_end(t@, q as int, len as int, Run::Punct),
{
    ascii_run(t, q, len, Run::Punct)
}

/// Sentinel for "no newline seen".
pub const NO_POS: usize = usize::MAX;

/// End of the run of ASCII whitespace from `q`.
pub open spec fn ws_end(t: Seq<u8>, q: int, len: int) -> int
    decreases len - q,
{
    if q >= len {
        q
    } else if is_space(t[q]) {
        ws_end(t, q + 1, len)
    } else {
        q
    }
}

/// Position of the last \\r or \\n in `t[q..e)`, or `prev` if there is none.
pub open spec fn last_nl(t: Seq<u8>, q: int, e: int, prev: int) -> int
    decreases e - q,
{
    if q >= e {
        prev
    } else if t[e - 1] == 10 || t[e - 1] == 13 {
        e - 1
    } else {
        last_nl(t, q, e - 1, prev)
    }
}

/// Advance over ASCII whitespace from `q`; `lastnl` becomes the position of
/// the last \\r/\\n in the run, if the run has one.
pub fn ascii_ws_run(t: &[u8], q: usize, len: usize, lastnl: &mut usize) -> (r: usize)
    requires
        q <= len <= t@.len(),
    ensures
        r == ws_end(t@, q as int, len as int),
        *final(lastnl) as int == last_nl(t@, q as int, r as int, *old(lastnl) as int),
{
    let mut i = q;
    while i < len && a_ws(t[i])
        invariant
            q <= i <= len <= t@.len(),
            ws_end(t@, i as int, len as int) == ws_end(t@, q as int, len as int),
            *lastnl as int == last_nl(t@, q as int, i as int, *old(lastnl) as int),
        decreases len - i,
    {
        if t[i] == 10 || t[i] == 13 {
            *lastnl = i;
        }
        i = i + 1;
        proof {
            assert(last_nl(t@, q as int, i as int, *old(lastnl) as int) == if t@[i - 1] == 10 || t@[i - 1] == 13 {
                i - 1
            } else {
                last_nl(t@, q as int, i - 1, *old(lastnl) as int)
            });
        }
    }
    i
}

// ---- UTF-8 ------------------------------------------------------------------

/// Decode one code point at `p`, leniently: a lead byte without enough input
/// after it, or a byte that starts no sequence, counts as one byte standing for
/// itself. Continuation bytes are not checked.
pub open spec fn u8dec_spec(t: Seq<u8>, p: int, len: int) -> (u32, int) {
    let c = t[p];
    if c < 0x80 {
        (c as u32, 1)
    } else if c >> 5u8 == 6 && p + 1 < len {
        ((((c & 0x1F) as u32) << 6u32) | ((t[p + 1] & 0x3F) as u32), 2)
    } else if c >> 4u8 == 0xE && p + 2 < len {
        ((((c & 0x0F) as u32) << 12u32) | (((t[p + 1] & 0x3F) as u32) << 6u32) | ((t[p + 2] & 0x3F) as u32), 3)
    } else if c >> 3u8 == 0x1E && p + 3 < len {
        ((((c & 0x07) as u32) << 18u32) | (((t[p + 1] & 0x3F) as u32) << 12u32) | (((t[p + 2] & 0x3F) as u32) << 6u32)
            | ((t[p + 3] & 0x3F) as u32), 4)
    } else {
        (c as u32, 1)
    }
}

/// Decode one UTF-8 code point at `p`; returns (code point, byte length 1..=4).
pub fn u8dec(t: &[u8], p: usize, len: usize) -> (r: (u32, usize))
    requires
        p < len <= t@.len(),
    ensures
        r.0 == u8dec_spec(t@, p as int, len as int).0,
        r.1 as int == u8dec_spec(t@, p as int, len as int).1,
        1 <= r.1 <= 4,
        p + r.1 <= len,
{
    let c = t[p];
    if c < 0x80 {
        return (c as u32, 1);
    }
    if c >> 5u8 == 6 && len - p > 1 {
        return ((((c & 0x1F) as u32) << 6u32) | ((t[p + 1] & 0x3F) as u32), 2);
    }
    if c >> 4u8 == 0xE && len - p > 2 {
        return ((((c & 0x0F) as u32) << 12u32) | (((t[p + 1] & 0x3F) as u32) << 6u32) | ((t[p + 2] & 0x3F) as u32), 3);
    }
    if c >> 3u8 == 0x1E && len - p > 3 {
        return ((((c & 0x07) as u32) << 18u32) | (((t[p + 1] & 0x3F) as u32) << 12u32) | (((t[p + 2] & 0x3F) as u32) << 6u32)
            | ((t[p + 3] & 0x3F) as u32), 4);
    }
    (c as u32, 1)
}


// ---- Unicode class tables --------------------------------------------------
//
// A class file holds one range table per class: u32 count (LE, at most 100000),
// then that many (lo, hi) u32 pairs with lo <= hi <= 0x10FFFF.

/// Some range `[lo[i], hi[i]]` holds `cp`.
pub open spec fn in_ranges(lo: Seq<u32>, hi: Seq<u32>, cp: u32) -> bool {
    exists|i: int| 0 <= i < lo.len() && lo[i] <= cp <= #[trigger] hi[i]
}

/// Binary search for `cp` among the ranges `a..=b` (meaningful when the ranges are sorted).
pub open spec fn bsearch(lo: Seq<u32>, hi: Seq<u32>, cp: u32, a: int, b: int) -> bool
    decreases b - a + 1,
{
    if a > b || a < 0 || b >= lo.len() || b >= hi.len() {
        false
    } else {
        let m = (a + b) / 2;
        if cp < lo[m] {
            bsearch(lo, hi, cp, a, m - 1)
        } else if cp > hi[m] {
            bsearch(lo, hi, cp, m + 1, b)
        } else {
            true
        }
    }
}

/// Ranges sorted and disjoint.
pub open spec fn sorted_ranges(lo: Seq<u32>, hi: Seq<u32>) -> bool {
    &&& lo.len() == hi.len()
    &&& forall|i: int| 0 <= i < lo.len() ==> #[trigger] lo[i] <= hi[i]
    &&& forall|i: int, j: int| 0 <= i < j < lo.len() ==> #[trigger] hi[i] < #[trigger] lo[j]
}

/// On sorted, disjoint ranges the binary search finds exactly the members.
pub proof fn lemma_bsearch_sorted(lo: Seq<u32>, hi: Seq<u32>, cp: u32, a: int, b: int)
    requires
        sorted_ranges(lo, hi),
        0 <= a,
        b < lo.len(),
        forall|i: int| 0 <= i < lo.len() && lo[i] <= cp <= #[trigger] hi[i] ==> a <= i <= b,
    ensures
        bsearch(lo, hi, cp, a, b) == in_ranges(lo, hi, cp),
    decreases b - a + 1,
{
    if a <= b {
        let m = (a + b) / 2;
        if cp < lo[m] {
            assert forall|i: int| 0 <= i < lo.len() && lo[i] <= cp <= #[trigger] hi[i] implies a <= i <= m - 1 by {
                if i >= m {
                    if i > m {
                        assert(hi[m] < lo[i]);
                    }
                }
            }
            lemma_bsearch_sorted(lo, hi, cp, a, m - 1);
        } else if cp > hi[m] {
            assert forall|i: int| 0 <= i < lo.len() && lo[i] <= cp <= #[trigger] hi[i] implies m + 1 <= i <= b by {
                if i <= m {
                    if i < m {
                        assert(hi[i] < lo[m]);
                    }
                }
            }
            lemma_bsearch_sorted(lo, hi, cp, m + 1, b);
        } else {
            assert(lo[m] <= cp <= hi[m]);
        }
    } else {
        if in_ranges(lo, hi, cp) {
            let i = choose|i: int| 0 <= i < lo.len() && lo[i] <= cp <= #[trigger] hi[i];
        }
    }
}

/// A range found by the binary search really holds `cp`, sorted or not.
pub proof fn lemma_bsearch_sound(lo: Seq<u32>, hi: Seq<u32>, cp: u32, a: int, b: int)
    ensures
        bsearch(lo, hi, cp, a, b) ==> in_ranges(lo, hi, cp),
    decreases b - a + 1,
{
    if a <= b && a >= 0 && b < lo.len() && b < hi.len() {
        let m = (a + b) / 2;
        if cp < lo[m] {
            lemma_bsearch_sound(lo, hi, cp, a, m - 1);
        } else if cp > hi[m] {
            lemma_bsearch_sound(lo, hi, cp, m + 1, b);
        }
    }
}

fn range_in(lo: &Vec<u32>, hi: &Vec<u32>, cp: u32) -> (r: bool)
    requires
        lo@.len() == hi@.len(),
        lo@.len() <= 100000,
    ensures
        r == bsearch(lo@, hi@, cp, 0, lo@.len() - 1),
{
    if lo.len() == 0 {
        return false;
    }
    let mut a: usize = 0;
    let mut b: usize = lo.len() - 1;
    loop
        invariant
            lo@.len() == hi@.len(),
            lo@.len() <= 100000,
            a <= lo@.len(),
            b < lo@.len(),
            bsearch(lo@, hi@, cp, a as int, b as int) == bsearch(lo@, hi@, cp, 0, lo@.len() - 1),
        decreases b - a + 1,
    {
        if a > b {
            return false;
        }
        let m = (a + b) / 2;
        if cp < lo[m] {
            if m == 0 {
                assert(!bsearch(lo@, hi@, cp, a as int, m - 1));
                return false;
            }
            b = m - 1;
        } else if cp > hi[m] {
            if m + 1 >= lo.len() {
                assert(!bsearch(lo@, hi@, cp, m + 1, b as int));
                return false;
            }
            a = m + 1;
        } else {
            return true;
        }
    }
}

pub open spec fn rt_count(raw: Seq<u8>, p: int) -> int {
    le32(raw, p)
}

pub open spec fn rt_lo(raw: Seq<u8>, p: int) -> Seq<u32> {
    Seq::new(rt_count(raw, p) as nat, |i: int| le32(raw, p + 4 + 8 * i) as u32)
}

pub open spec fn rt_hi(raw: Seq<u8>, p: int) -> Seq<u32> {
    Seq::new(rt_count(raw, p) as nat, |i: int| le32(raw, p + 8 + 8 * i) as u32)
}

pub open spec fn rt_end(raw: Seq<u8>, p: int) -> int {
    p + 4 + 8 * rt_count(raw, p)
}

/// Range `i` of the table at `p` is a valid code point range.
pub open spec fn rt_pair_ok(raw: Seq<u8>, p: int, i: int) -> bool {
    le32(raw, p + 4 + 8 * i) <= le32(raw, p + 8 + 8 * i) <= 0x10FFFF
}

/// A well-formed range table starts at `p`.
pub open spec fn rt_ok(raw: Seq<u8>, p: int) -> bool {
    &&& 0 <= p
    &&& p + 4 <= raw.len()
    &&& rt_count(raw, p) <= 100000
    &&& rt_end(raw, p) <= raw.len()
    &&& forall|i: int| 0 <= i < rt_count(raw, p) ==> #[trigger] rt_pair_ok(raw, p, i)
}

/// The error for a malformed class-table file, its message built by `format!`
/// (std); nothing is claimed of the message.
#[verifier::external_body]
fn bad_uniclass(what: &str) -> VocabError {
    VocabError(format!("toktok: bad uniclass file: {what}"))
}

/// Read one range table at `*p`, advancing `*p` past it.
pub(crate) fn read_ranges(raw: &[u8], p: &mut usize, what: &str) -> (res: Result<(Vec<u32>, Vec<u32>), VocabError>)
    ensures
        res is Ok <==> rt_ok(raw@, *old(p) as int),
        res matches Ok(r) ==> {
            &&& r.0@ == rt_lo(raw@, *old(p) as int)
            &&& r.1@ == rt_hi(raw@, *old(p) as int)
            &&& *final(p) as int == rt_end(raw@, *old(p) as int)
        },
{
    let p0 = *p;
    assert(p0 == *old(p));
    if raw.len() < 4 || p0 > raw.len() - 4 {
        return Err(bad_uniclass(what));
    }
    let n = rd32(raw, p0) as usize;
    if n > 100000 || (raw.len() - p0 - 4) / 8 < n {
        proof {
            if n <= 100000 {
                assert((raw@.len() - p0 - 4) / 8 < n ==> raw@.len() - p0 - 4 < 8 * n);
            }
        }
        return Err(bad_uniclass(what));
    }
    let mut lo: Vec<u32> = Vec::new();
    let mut hi: Vec<u32> = Vec::new();
    let mut i: usize = 0;
    let rlen = raw.len();
    while i < n
        invariant
            p0 == *old(p),
            rlen == raw@.len(),
            p0 as int + 4 + 8 * n <= raw@.len(),
            n == rt_count(raw@, p0 as int),
            n <= 100000,
            i <= n,
            lo@.len() == i,
            hi@.len() == i,
            forall|j: int| 0 <= j < i ==> #[trigger] lo@[j] == le32(raw@, p0 + 4 + 8 * j),
            forall|j: int| 0 <= j < i ==> #[trigger] hi@[j] == le32(raw@, p0 + 8 + 8 * j),
            forall|j: int| 0 <= j < i ==> #[trigger] rt_pair_ok(raw@, p0 as int, j),
        decreases n - i,
    {
        let q = p0 + 4 + 8 * i;
        let a = rd32(raw, q);
        let b = rd32(raw, q + 4);
        proof {
            assert(q + 4 == p0 + 8 + 8 * i);
            assert(b == le32(raw@, p0 + 8 + 8 * i));
            assert(a == le32(raw@, p0 + 4 + 8 * i));
        }
        if a > b || b > 0x10FFFF {
            proof {
                assert(!rt_pair_ok(raw@, p0 as int, i as int));
                assert(!rt_ok(raw@, p0 as int));
                assert(!rt_ok(raw@, *old(p) as int));
            }
            return Err(bad_uniclass(what));
        }
        lo.push(a);
        hi.push(b);
        i = i + 1;
    }
    *p = p0 + 4 + 8 * n;
    proof {
        assert(rt_end(raw@, p0 as int) == p0 + 4 + 8 * n);
        assert(rt_count(raw@, p0 as int) == n);
        assert(0 <= p0);
        assert(p0 + 4 <= raw@.len());
        assert(rt_count(raw@, p0 as int) <= 100000);
        assert(rt_end(raw@, p0 as int) <= raw@.len());
        assert(rt_ok(raw@, p0 as int));
        assert(lo@ =~= rt_lo(raw@, p0 as int));
        assert(hi@ =~= rt_hi(raw@, p0 as int));
    }
    Ok((lo, hi))
}


/// Start of the `k`-th range table of a class file.
pub open spec fn rt_pos(raw: Seq<u8>, k: int) -> int
    decreases k,
{
    if k <= 0 {
        0
    } else {
        rt_end(raw, rt_pos(raw, k - 1))
    }
}

/// A class file with `nc` well-formed range tables (bytes after them are ignored).
pub open spec fn class_file_ok(raw: Seq<u8>, nc: int) -> bool {
    forall|k: int| 0 <= k < nc ==> #[trigger] rt_ok(raw, rt_pos(raw, k))
}

pub open spec fn bit_of(x: u8, k: int) -> bool {
    (x >> (k as u8)) & 1u8 == 1u8
}

proof fn lemma_bit_set(x: u8, k: u8, j: u8)
    requires
        k < 8,
        j < 8,
    ensures
        ((x | (1u8 << k)) >> k) & 1u8 == 1u8,
        j != k ==> ((x | (1u8 << k)) >> j) & 1u8 == (x >> j) & 1u8,
        (0u8 >> j) & 1u8 == 0u8,
{
    assert(((x | (1u8 << k)) >> k) & 1u8 == 1u8) by (bit_vector)
        requires
            k < 8,
    ;
    assert(j != k ==> ((x | (1u8 << k)) >> j) & 1u8 == (x >> j) & 1u8) by (bit_vector)
        requires
            k < 8,
            j < 8,
    ;
    assert((0u8 >> j) & 1u8 == 0u8) by (bit_vector);
}

/// Membership of `cp` in the `k`-th range table of the class file `raw`.
pub open spec fn file_member(raw: Seq<u8>, k: int, cp: u32) -> bool {
    class_member(rt_lo(raw, rt_pos(raw, k)), rt_hi(raw, rt_pos(raw, k)), cp)
}

/// Eight bytes (a `lo` and a `hi` bound) per range of the first `k` classes of `ct`.
pub open spec fn ranges_total(ct: &ClassTable, k: int) -> int
    decreases k,
{
    if k <= 0 {
        0
    } else {
        ranges_total(ct, k - 1) + 8 * ct.lo_of(k - 1).len()
    }
}

/// Eight bytes per range of the first `k` range tables of the class file `raw`.
pub open spec fn file_ranges_bytes(raw: Seq<u8>, k: int) -> int
    decreases k,
{
    if k <= 0 {
        0
    } else {
        file_ranges_bytes(raw, k - 1) + 8 * rt_count(raw, rt_pos(raw, k - 1))
    }
}

proof fn lemma_ranges_total_file(ct: ClassTable, raw: Seq<u8>, k: int)
    requires
        0 <= k,
        tables_from(ct, raw, k),
    ensures
        ranges_total(&ct, k) == file_ranges_bytes(raw, k),
    decreases k,
{
    if k > 0 {
        assert(tables_from(ct, raw, k - 1));
        lemma_ranges_total_file(ct, raw, k - 1);
        assert(ct.lo_of(k - 1) == rt_lo(raw, rt_pos(raw, k - 1)));
    }
}

/// The first `nc` range tables of `ct` are those of the class file `raw`.
pub open spec fn tables_from(ct: ClassTable, raw: Seq<u8>, nc: int) -> bool {
    forall|k: int|
        #![trigger ct.lo_of(k)]
        #![trigger ct.hi_of(k)]
        0 <= k < nc ==> ct.lo_of(k) == rt_lo(raw, rt_pos(raw, k)) && ct.hi_of(k) == rt_hi(raw, rt_pos(raw, k))
}

/// Membership in a class given by its range table: exact in the Basic
/// Multilingual Plane, by binary search above it (exact when the ranges are
/// sorted and disjoint, see `lemma_bsearch_sorted`).
pub open spec fn class_member(lo: Seq<u32>, hi: Seq<u32>, cp: u32) -> bool {
    if cp < 65536 {
        in_ranges(lo, hi, cp)
    } else {
        bsearch(lo, hi, cp, 0, lo.len() - 1)
    }
}

/// Code-point classes: a sorted range list per class, plus a bitmap for the
/// Basic Multilingual Plane (bit `k` of `bmp[cp]` = class `k`).
pub struct ClassTable {
    lo: Vec<Vec<u32>>,
    hi: Vec<Vec<u32>>,
    bmp: Vec<u8>,
}

impl ClassTable {
    pub closed spec fn classes(&self) -> int {
        self.lo@.len() as int
    }

    pub closed spec fn lo_of(&self, k: int) -> Seq<u32> {
        self.lo@[k]@
    }

    pub closed spec fn hi_of(&self, k: int) -> Seq<u32> {
        self.hi@[k]@
    }

    /// Loaded and consistent: the bitmap marks exactly the BMP members of each class.
    pub closed spec fn wf(&self) -> bool {
        &&& self.lo@.len() == self.hi@.len()
        &&& self.lo@.len() <= 8
        &&& self.bmp@.len() == 65536
        &&& forall|k: int| 0 <= k < self.lo@.len() ==> (#[trigger] self.lo@[k])@.len() == self.hi@[k]@.len() && self.lo@[k]@.len() <= 100000
        &&& forall|k: int, c: int|
            0 <= k < self.lo@.len() && 0 <= c < 65536 ==> (#[trigger] bit_of(self.bmp@[c], k) <==> in_ranges(self.lo@[k]@, self.hi@[k]@, c as u32))
    }

    /// Membership of `cp` in class `k`: exact range membership in the BMP; the
    /// binary search over the range list above it.
    pub closed spec fn member(&self, k: int, cp: u32) -> bool {
        class_member(self.lo@[k]@, self.hi@[k]@, cp)
    }

    /// No classes and no bitmap.
    pub closed spec fn is_blank(&self) -> bool {
        self.lo@.len() == 0 && self.hi@.len() == 0 && self.bmp@.len() == 0
    }

    pub proof fn lemma_empty_bytes(&self)
        requires
            self.is_blank(),
        ensures
            self.spec_memory_bytes() == 0,
            self.classes() == 0,
    {
    }

    /// Membership in class `k` is range membership over that class's range table.
    pub proof fn lemma_member(&self, k: int, cp: u32)
        ensures
            self.member(k, cp) == class_member(self.lo_of(k), self.hi_of(k), cp),
    {
    }

    /// Loaded from `raw`: membership in each of the first `n` classes is
    /// membership in the ranges the file lists for it.
    pub proof fn lemma_file_member(&self, raw: Seq<u8>, n: int)
        requires
            tables_from(*self, raw, n),
        ensures
            forall|k: int, cp: u32| 0 <= k < n ==> #[trigger] self.member(k, cp) == file_member(raw, k, cp),
    {
        assert forall|k: int, cp: u32| 0 <= k < n implies #[trigger] self.member(k, cp) == file_member(raw, k, cp) by {
            let ct = *self;
            assert(ct.lo_of(k) == rt_lo(raw, rt_pos(raw, k)) && ct.hi_of(k) == rt_hi(raw, rt_pos(raw, k)));
            assert(self.member(k, cp) == class_member(ct.lo_of(k), ct.hi_of(k), cp));
        }
    }

    /// Heap bytes are the bitmap plus eight bytes per range.
    pub proof fn lemma_memory_bytes(&self)
        requires
            self.wf(),
        ensures
            self.spec_memory_bytes() == 65536 + ranges_total(self, self.classes()),
    {
        self.lemma_ranges_bytes(self.classes());
    }

    proof fn lemma_ranges_bytes(&self, k: int)
        requires
            self.wf(),
            0 <= k <= self.classes(),
        ensures
            self.ranges_bytes(k) == ranges_total(self, k),
        decreases k,
    {
        if k > 0 {
            self.lemma_ranges_bytes(k - 1);
            assert(self.lo@[k - 1]@.len() == self.hi@[k - 1]@.len());
        }
    }

    proof fn lemma_ranges_bytes_file(&self, raw: Seq<u8>, n: int)
        requires
            self.wf(),
            0 <= n,
            self.classes() == n,
            tables_from(*self, raw, n),
        ensures
            self.spec_memory_bytes() == file_ranges_bytes(raw, n) + 65536,
    {
        self.lemma_memory_bytes();
        lemma_ranges_total_file(*self, raw, n);
    }

    /// A table that loads nothing (for the scanner an encoding does not use).
    pub fn empty() -> (t: ClassTable)
        ensures
            t.classes() == 0,
            t.is_blank(),
    {
        ClassTable { lo: Vec::new(), hi: Vec::new(), bmp: Vec::new() }
    }

    pub fn has(&self, k: usize, cp: u32) -> (r: bool)
        requires
            self.wf(),
            k < self.classes(),
        ensures
            r == self.member(k as int, cp),
    {
        if cp < 65536 {
            let x = self.bmp[cp as usize];
            proof {
                assert(bit_of(self.bmp@[cp as int], k as int) <==> in_ranges(self.lo@[k as int]@, self.hi@[k as int]@, cp));
            }
            (x >> (k as u8)) & 1u8 == 1u8
        } else {
            range_in(&self.lo[k], &self.hi[k], cp)
        }
    }

    /// Exact heap bytes of the range lists and the bitmap.
    pub fn memory_bytes(&self) -> (r: usize)
        requires
            self.wf() || self.classes() == 0,
        ensures
            r == self.spec_memory_bytes(),
    {
        let mut total: usize = 0;
        let mut k: usize = 0;
        while k < self.lo.len()
            invariant
                self.wf() || self.classes() == 0,
                k <= self.lo@.len(),
                total == self.ranges_bytes(k as int),
                total <= k * 800000,
            decreases self.lo@.len() - k,
        {
            proof {
                assert(self.lo@[k as int]@.len() == self.hi@[k as int]@.len() && self.lo@[k as int]@.len() <= 100000);
            }
            total = total + self.lo[k].len() * 4 + self.hi[k].len() * 4;
            k = k + 1;
        }
        total + self.bmp.len()
    }

    pub closed spec fn ranges_bytes(&self, k: int) -> int
        decreases k,
    {
        if k <= 0 {
            0
        } else {
            self.ranges_bytes(k - 1) + self.lo@[k - 1]@.len() * 4 + self.hi@[k - 1]@.len() * 4
        }
    }

    pub closed spec fn spec_memory_bytes(&self) -> int {
        self.ranges_bytes(self.lo@.len() as int) + self.bmp@.len()
    }

    /// Load `nc` class range tables from a class file; `what` names it in errors.
    pub fn from_bytes(raw: &[u8], what: &str, nc: usize) -> (res: Result<ClassTable, VocabError>)
        requires
            nc <= 8,
        ensures
            res is Ok <==> class_file_ok(raw@, nc as int),
            res matches Ok(t) ==> {
                &&& t.wf()
                &&& t.classes() == nc
                &&& tables_from(t, raw@, nc as int)
                &&& t.spec_memory_bytes() == file_ranges_bytes(raw@, nc as int) + 65536
            },
    {
        let mut bmp: Vec<u8> = Vec::new();
        let mut z: usize = 0;
        while z < 65536
            invariant
                z <= 65536,
                bmp@.len() == z,
                forall|c: int| 0 <= c < z ==> #[trigger] bmp@[c] == 0,
            decreases 65536 - z,
        {
            bmp.push(0);
            z = z + 1;
        }
        let mut lo: Vec<Vec<u32>> = Vec::new();
        let mut hi: Vec<Vec<u32>> = Vec::new();
        let mut p: usize = 0;
        let mut c: usize = 0;
        proof {
            assert forall|k: int, cc: int| 0 <= k < 8 && 0 <= cc < 65536 implies !#[trigger] bit_of(bmp@[cc], k) by {
                lemma_bit_set(0u8, 0u8, k as u8);
                assert(bmp@[cc] == 0);
            }
        }
        while c < nc
            invariant
                nc <= 8,
                c <= nc,
                p as int == rt_pos(raw@, c as int),
                lo@.len() == c,
                hi@.len() == c,
                bmp@.len() == 65536,
                forall|k: int| 0 <= k < c ==> #[trigger] rt_ok(raw@, rt_pos(raw@, k)),
                forall|k: int| 0 <= k < c ==> (#[trigger] lo@[k])@ == rt_lo(raw@, rt_pos(raw@, k)) && hi@[k]@ == rt_hi(raw@, rt_pos(raw@, k)),
                forall|k: int| 0 <= k < c ==> (#[trigger] lo@[k])@.len() == hi@[k]@.len() && lo@[k]@.len() <= 100000,
                forall|k: int, cc: int|
                    0 <= k < 8 && 0 <= cc < 65536 ==> (#[trigger] bit_of(bmp@[cc], k) <==> (k < c && in_ranges(lo@[k]@, hi@[k]@, cc as u32))),
            decreases nc - c,
        {
            let ghost pc = p;
            let (l, h) = match read_ranges(raw, &mut p, what) {
                Ok(r) => r,
                Err(e) => {
                    proof {
                        assert(!rt_ok(raw@, rt_pos(raw@, c as int)));
                    }
                    return Err(e);
                },
            };
            let ghost los = lo@.map_values(|v: Vec<u32>| v@);
            let ghost his = hi@.map_values(|v: Vec<u32>| v@);
            proof {
                assert(rt_ok(raw@, pc as int));
                assert forall|kk: int, cc: int|
                    0 <= kk < 8 && 0 <= cc < 65536 implies (#[trigger] bit_of(bmp@[cc], kk) <==> (kk < c && in_ranges(los[kk], his[kk], cc as u32))) by {
                    if kk < c {
                        assert(los[kk] == lo@[kk]@ && his[kk] == hi@[kk]@);
                    }
                }
            }
            mark(&mut bmp, &l, &h, c as u8, Ghost(los), Ghost(his));
            let ghost lo0 = lo@;
            let ghost hi0 = hi@;
            lo.push(l);
            hi.push(h);
            proof {
                assert forall|k: int| #![trigger lo@[k]] #![trigger hi@[k]] 0 <= k < c + 1 implies (lo@[k])@ == rt_lo(raw@, rt_pos(raw@, k)) && hi@[k]@ == rt_hi(raw@, rt_pos(raw@, k))
                    && lo@[k]@.len() == hi@[k]@.len() && lo@[k]@.len() <= 100000 && rt_ok(raw@, rt_pos(raw@, k)) by {
                    if k < c {
                        assert(lo@[k] == lo0[k] && hi@[k] == hi0[k]);
                    } else {
                        assert(lo@[k] == l && hi@[k] == h);
                        assert(l@ == rt_lo(raw@, pc as int));
                    }
                }
                assert forall|kk: int, cc: int|
                    0 <= kk < 8 && 0 <= cc < 65536 implies (#[trigger] bit_of(bmp@[cc], kk) <==> (kk < c + 1 && in_ranges(lo@[kk]@, hi@[kk]@, cc as u32))) by {
                    if kk < c {
                        assert(los[kk] == lo@[kk]@ && his[kk] == hi@[kk]@);
                    }
                }
                assert(rt_pos(raw@, c + 1) == rt_end(raw@, rt_pos(raw@, c as int)));
            }
            c = c + 1;
        }
        let t = ClassTable { lo, hi, bmp };
        proof {
            assert(t.wf());
            t.lemma_ranges_bytes_file(raw@, nc as int);
        }
        Ok(t)
    }
}

/// Set bit `k` of `bmp[c]` for every BMP code point `c` in the ranges `lo`/`hi`.
fn mark(bmp: &mut Vec<u8>, lo: &Vec<u32>, hi: &Vec<u32>, k: u8, Ghost(los): Ghost<Seq<Seq<u32>>>, Ghost(his): Ghost<Seq<Seq<u32>>>)
    requires
        k < 8,
        los.len() == k,
        his.len() == k,
        lo@.len() == hi@.len(),
        old(bmp)@.len() == 65536,
        forall|kk: int, cc: int|
            0 <= kk < 8 && 0 <= cc < 65536 ==> (#[trigger] bit_of(old(bmp)@[cc], kk) <==> (kk < k && in_ranges(los[kk], his[kk], cc as u32))),
    ensures
        final(bmp)@.len() == 65536,
        forall|kk: int, cc: int|
            0 <= kk < 8 && 0 <= cc < 65536 ==> (#[trigger] bit_of(final(bmp)@[cc], kk) <==> (kk < k && in_ranges(los[kk], his[kk], cc as u32))
                || (kk == k && in_ranges(lo@, hi@, cc as u32))),
{
    let ghost b0 = bmp@;
    let mut i: usize = 0;
    proof {
        assert(lo@.take(0) =~= Seq::<u32>::empty());
    }
    while i < lo.len()
        invariant
            k < 8,
            los.len() == k,
            his.len() == k,
            lo@.len() == hi@.len(),
            i <= lo@.len(),
            bmp@.len() == 65536,
            forall|kk: int, cc: int|
                0 <= kk < 8 && 0 <= cc < 65536 ==> (#[trigger] bit_of(bmp@[cc], kk) <==> (kk < k && in_ranges(los[kk], his[kk], cc as u32))
                    || (kk == k && in_ranges(lo@.take(i as int), hi@.take(i as int), cc as u32))),
        decreases lo@.len() - i,
    {
        let ghost li = lo@.take(i as int);
        let ghost hi_ = hi@.take(i as int);
        let ghost li2 = lo@.take(i + 1);
        let ghost hi2 = hi@.take(i + 1);
        proof {
            assert forall|cc: u32| #[trigger] in_ranges(li2, hi2, cc) <==> (in_ranges(li, hi_, cc) || (lo@[i as int] <= cc <= hi@[i as int])) by {
                if in_ranges(li2, hi2, cc) {
                    let j = choose|j: int| 0 <= j < li2.len() && li2[j] <= cc <= #[trigger] hi2[j];
                    if j < i {
                        assert(li[j] == li2[j] && hi_[j] == hi2[j]);
                    }
                }
                if in_ranges(li, hi_, cc) {
                    let j = choose|j: int| 0 <= j < li.len() && li[j] <= cc <= #[trigger] hi_[j];
                    assert(li2[j] == li[j] && hi2[j] == hi_[j]);
                }
                if lo@[i as int] <= cc <= hi@[i as int] {
                    assert(li2[i as int] == lo@[i as int] && hi2[i as int] == hi@[i as int]);
                }
            }
        }
        let l = lo[i];
        if l < 65536 {
            let b: u32 = if hi[i] < 65535 { hi[i] } else { 65535 };
            let mut c: u32 = l;
            while c <= b
                invariant
                    k < 8,
                    los.len() == k,
                    his.len() == k,
                    l <= c,
                    c <= b + 1 || c == l,
                    b <= 65535,
                    bmp@.len() == 65536,
                    forall|kk: int, cc: int|
                        0 <= kk < 8 && 0 <= cc < 65536 ==> (#[trigger] bit_of(bmp@[cc], kk) <==> (kk < k && in_ranges(los[kk], his[kk], cc as u32))
                            || (kk == k && (in_ranges(li, hi_, cc as u32) || (l <= cc < c)))),
                decreases b + 1 - c,
            {
                let x = bmp[c as usize];
                let ghost before = bmp@;
                bmp.set(c as usize, x | (1u8 << k));
                proof {
                    assert forall|kk: int, cc: int|
                        0 <= kk < 8 && 0 <= cc < 65536 implies (#[trigger] bit_of(bmp@[cc], kk) <==> (kk < k && in_ranges(los[kk], his[kk], cc as u32))
                            || (kk == k && (in_ranges(li, hi_, cc as u32) || (l <= cc < c + 1)))) by {
                        if cc == c as int {
                            lemma_bit_set(x, k, kk as u8);
                            assert(before[cc] == x);
                            assert(bmp@[cc] == x | (1u8 << k));
                            assert(bit_of(before[cc], kk) == bit_of(x, kk));
                        } else {
                            assert(bmp@[cc] == before[cc]);
                        }
                    }
                }
                c = c + 1;
            }
        }
        proof {
            assert forall|kk: int, cc: int|
                0 <= kk < 8 && 0 <= cc < 65536 implies (#[trigger] bit_of(bmp@[cc], kk) <==> (kk < k && in_ranges(los[kk], his[kk], cc as u32))
                    || (kk == k && in_ranges(li2, hi2, cc as u32))) by {
                assert(in_ranges(li2, hi2, cc as u32) <==> (in_ranges(li, hi_, cc as u32) || (lo@[i as int] <= cc as u32 <= hi@[i as int])));
                assert(cc == cc as u32);
            }
        }
        i = i + 1;
    }
    proof {
        assert(lo@.take(lo@.len() as int) =~= lo@);
        assert(hi@.take(hi@.len() as int) =~= hi@);
    }
}


// ---- cl100k classes -------------------------------------------------------

/// The class table's \p{L}, \p{N} and \s agree with [A-Za-z], [0-9] and
/// ASCII whitespace on ASCII code points (true of the Unicode data).
pub open spec fn ascii_consistent(ct: ClassTable) -> bool {
    forall|b: u8|
        #![trigger ct.member(CL_L as int, b as u32)]
        #![trigger ct.member(CL_N as int, b as u32)]
        #![trigger ct.member(CL_S as int, b as u32)]
        b < 128 ==> {
            &&& (ct.member(CL_L as int, b as u32) <==> is_alpha(b))
            &&& (ct.member(CL_N as int, b as u32) <==> is_digit(b))
            &&& (ct.member(CL_S as int, b as u32) <==> is_space(b))
        }
}

/// Class index of \p{L} in a class table.
pub const CL_L: usize = 0;
/// Class index of \p{N}.
pub const CL_N: usize = 1;
/// Class index of \s.
pub const CL_S: usize = 2;

/// Unicode class table for the cl100k pattern: \p{L}, \p{N}, \s.
pub struct UClass {
    t: ClassTable,
}

impl UClass {
    #[verifier::type_invariant]
    spec fn inv(&self) -> bool {
        (self.t.wf() && self.t.classes() == 3) || self.t.is_blank()
    }

    pub closed spec fn table(&self) -> ClassTable {
        self.t
    }

    /// Loaded from a class file (the empty table answers no query).
    pub closed spec fn loaded(&self) -> bool {
        self.t.classes() == 3
    }

    /// The class table counts no ASCII byte outside [A-Za-z] as a letter (true
    /// of the Unicode data; the scanners' ASCII fast paths rely on it).
    pub open spec fn ascii_letters_ok(&self) -> bool {
        forall|b: u8| b < 128 && #[trigger] self.letter(b as u32) ==> is_alpha(b)
    }

    pub open spec fn letter(&self, cp: u32) -> bool {
        self.table().member(CL_L as int, cp)
    }

    pub open spec fn number(&self, cp: u32) -> bool {
        self.table().member(CL_N as int, cp)
    }

    pub open spec fn space(&self, cp: u32) -> bool {
        self.table().member(CL_S as int, cp)
    }

    pub fn is_l(&self, cp: u32) -> (r: bool)
        requires
            self.loaded(),
        ensures
            r == self.letter(cp),
    {
        proof {
            use_type_invariant(self);
        }
        self.t.has(CL_L, cp)
    }

    pub fn is_n(&self, cp: u32) -> (r: bool)
        requires
            self.loaded(),
        ensures
            r == self.number(cp),
    {
        proof {
            use_type_invariant(self);
        }
        self.t.has(CL_N, cp)
    }

    pub fn is_s(&self, cp: u32) -> (r: bool)
        requires
            self.loaded(),
        ensures
            r == self.space(cp),
    {
        proof {
            use_type_invariant(self);
        }
        self.t.has(CL_S, cp)
    }

    pub closed spec fn spec_memory_bytes(&self) -> int {
        self.t.spec_memory_bytes()
    }

    /// The footprint is that of the class table.
    pub proof fn lemma_spec_memory_bytes(&self)
        ensures
            self.spec_memory_bytes() == self.table().spec_memory_bytes(),
    {
    }

    /// Exact heap footprint of the class tables, in bytes.
    pub fn memory_bytes(&self) -> (r: usize)
        ensures
            r == self.spec_memory_bytes(),
            !self.loaded() ==> r == 0,
    {
        proof {
            use_type_invariant(self);
        }
        let r = self.t.memory_bytes();
        proof {
            if !self.loaded() {
                self.t.lemma_empty_bytes();
            }
        }
        r
    }

    /// The table of an encoding that does not use this scanner: loads nothing.
    pub fn empty() -> (u: UClass)
        ensures
            !u.loaded(),
            u.table().is_blank(),
            u.table().classes() == 0,
            u.spec_memory_bytes() == 0,
    {
        let t = ClassTable::empty();
        proof {
            t.lemma_empty_bytes();
        }
        UClass { t }
    }

    /// Load the three class tables (\p{L}, \p{N}, \s, in that order) from a
    /// class file; `what` names the file in errors.
    pub fn from_bytes(raw: &[u8], what: &str) -> (res: Result<UClass, VocabError>)
        ensures
            res is Ok <==> class_file_ok(raw@, 3),
            res matches Ok(u) ==> u.loaded() && tables_from(u.table(), raw@, 3),
            res matches Ok(u) ==> forall|k: int, cp: u32|
                0 <= k < 3 ==> #[trigger] u.table().member(k, cp) == file_member(raw@, k, cp),
            res matches Ok(u) ==> u.spec_memory_bytes() == file_ranges_bytes(raw@, 3) + 65536,
    {
        match ClassTable::from_bytes(raw, what, 3) {
            Ok(t) => {
                proof {
                    t.lemma_file_member(raw@, 3);
                }
                Ok(UClass { t })
            },
            Err(e) => Err(e),
        }
    }
}


// ---- pretoken grammar -----------------------------------------------------

/// The code point decoded at `q`.
pub open spec fn cp_at(t: Seq<u8>, q: int, len: int) -> u32 {
    u8dec_spec(t, q, len).0
}

/// The byte width of the code point decoded at `q`.
pub open spec fn width_at(t: Seq<u8>, q: int, len: int) -> int {
    u8dec_spec(t, q, len).1
}

/// End of the run from `q` of ASCII bytes of kind `run` and of non-ASCII code
/// points in class `k`.
pub open spec fn class_run_end(ct: ClassTable, k: int, run: Run, t: Seq<u8>, q: int, len: int) -> int
    decreases len - q,
{
    if q >= len {
        q
    } else if run_pred(run, t[q]) {
        class_run_end(ct, k, run, t, q + 1, len)
    } else if t[q] >= 128 && ct.member(k, cp_at(t, q, len)) {
        class_run_end(ct, k, run, t, q + width_at(t, q, len), len)
    } else {
        q
    }
}

/// The run counted by `class_run_end` takes at least one non-ASCII code point.
pub open spec fn class_run_mb(ct: ClassTable, k: int, run: Run, t: Seq<u8>, q: int, len: int) -> bool
    decreases len - q,
{
    if q >= len {
        false
    } else if run_pred(run, t[q]) {
        class_run_mb(ct, k, run, t, q + 1, len)
    } else {
        t[q] >= 128 && ct.member(k, cp_at(t, q, len))
    }
}

pub proof fn lemma_class_run(ct: ClassTable, k: int, run: Run, t: Seq<u8>, q: int, len: int)
    requires
        0 <= q <= len <= t.len(),
    ensures
        q <= class_run_end(ct, k, run, t, q, len) <= len,
        class_run_end(ct, k, run, t, q, len) == class_run_end(ct, k, run, t, run_end(t, q, len, run), len),
        class_run_mb(ct, k, run, t, q, len) == class_run_mb(ct, k, run, t, run_end(t, q, len, run), len),
    decreases len - q,
{
    if q < len {
        if run_pred(run, t[q]) {
            lemma_class_run(ct, k, run, t, q + 1, len);
        } else if t[q] >= 128 && ct.member(k, cp_at(t, q, len)) {
            lemma_class_run(ct, k, run, t, q + width_at(t, q, len), len);
        }
    }
}

/// Advance over the run of `class_run_end`; also says whether it took a
/// non-ASCII code point.
pub(crate) fn class_run(ct: &ClassTable, k: usize, run: Run, t: &[u8], q: usize, len: usize) -> (r: (usize, bool))
    requires
        ct.wf(),
        k < ct.classes(),
        q <= len <= t@.len(),
    ensures
        r.0 == class_run_end(*ct, k as int, run, t@, q as int, len as int),
        r.1 == class_run_mb(*ct, k as int, run, t@, q as int, len as int),
        q <= r.0 <= len,
{
    let mut i = q;
    let mut mb = false;
    proof {
        lemma_class_run(*ct, k as int, run, t@, q as int, len as int);
    }
    loop
        invariant
            ct.wf(),
            k < ct.classes(),
            q <= i <= len <= t@.len(),
            class_run_end(*ct, k as int, run, t@, i as int, len as int) == class_run_end(*ct, k as int, run, t@, q as int, len as int),
            class_run_mb(*ct, k as int, run, t@, q as int, len as int) == (mb || class_run_mb(*ct, k as int, run, t@, i as int, len as int)),
            q <= class_run_end(*ct, k as int, run, t@, q as int, len as int) <= len,
        decreases len - i,
    {
        proof {
            lemma_class_run(*ct, k as int, run, t@, i as int, len as int);
            lemma_run_end(t@, i as int, len as int, run);
        }
        i = ascii_run(t, i, len, run);
        if i >= len || t[i] < 128 {
            return (i, mb);
        }
        let (cp, n) = u8dec(t, i, len);
        if ct.has(k, cp) {
            i = i + n;
            mb = true;
        } else {
            return (i, mb);
        }
    }
}


/// ASCII case fold to lower case.
pub open spec fn fold(x: u8) -> u8 {
    if is_upper(x) {
        (x + 32) as u8
    } else {
        x
    }
}

fn fold_exec(x: u8) -> (r: u8)
    ensures
        r == fold(x),
{
    if x >= 65 && x <= 90 {
        x + 32
    } else {
        x
    }
}

/// `'(?i:[sdmt]|ll|ve|re)` at `p`: its length, or 0.
pub open spec fn cl_contraction(t: Seq<u8>, p: int, len: int) -> int {
    if t[p] == 39 && p + 1 < len {
        let c1 = fold(t[p + 1]);
        if c1 == 115 || c1 == 100 || c1 == 109 || c1 == 116 {
            2
        } else if p + 2 < len && ((c1 == 108 && fold(t[p + 2]) == 108) || (c1 == 118 && fold(t[p + 2]) == 101) || (c1 == 114
            && fold(t[p + 2]) == 101)) {
            3
        } else {
            0
        }
    } else {
        0
    }
}

fn contraction_at(t: &[u8], p: usize, len: usize) -> (r: usize)
    requires
        p < len <= t@.len(),
    ensures
        r == cl_contraction(t@, p as int, len as int),
{
    if t[p] == 39 && p + 1 < len {
        let c1 = fold_exec(t[p + 1]);
        if c1 == 115 || c1 == 100 || c1 == 109 || c1 == 116 {
            return 2;
        }
        if p + 2 < len {
            let c2 = fold_exec(t[p + 2]);
            if (c1 == 108 && c2 == 108) || (c1 == 118 && c2 == 101) || (c1 == 114 && c2 == 101) {
                return 3;
            }
        }
    }
    0
}

/// End of `\p{N}{1,3}` from `q`, `cnt` code points already taken.
pub open spec fn num_run_end(ct: ClassTable, t: Seq<u8>, q: int, len: int, cnt: int) -> int
    decreases len - q,
{
    if q < len && cnt < 3 && ct.member(CL_N as int, cp_at(t, q, len)) {
        num_run_end(ct, t, q + width_at(t, q, len), len, cnt + 1)
    } else {
        q
    }
}

pub(crate) fn num_run(ct: &ClassTable, t: &[u8], p: usize, len: usize) -> (r: usize)
    requires
        ct.wf(),
        CL_N < ct.classes(),
        p <= len <= t@.len(),
    ensures
        r == num_run_end(*ct, t@, p as int, len as int, 0),
        p <= r <= len,
{
    let mut q = p;
    let mut cnt: usize = 0;
    loop
        invariant
            ct.wf(),
            CL_N < ct.classes(),
            p <= q <= len <= t@.len(),
            cnt <= 3,
            num_run_end(*ct, t@, q as int, len as int, cnt as int) == num_run_end(*ct, t@, p as int, len as int, 0),
        decreases len - q,
    {
        if q >= len || cnt >= 3 {
            return q;
        }
        let (c2, n2) = u8dec(t, q, len);
        if ct.has(CL_N, c2) {
            q = q + n2;
            cnt = cnt + 1;
        } else {
            return q;
        }
    }
}

/// End of the run of code points in none of \s, \p{L}, \p{N} from `q`.
pub open spec fn sym_end(ct: ClassTable, t: Seq<u8>, q: int, len: int) -> int
    decreases len - q,
{
    if q < len && !ct.member(CL_S as int, cp_at(t, q, len)) && !ct.member(CL_L as int, cp_at(t, q, len)) && !ct.member(
        CL_N as int,
        cp_at(t, q, len),
    ) {
        sym_end(ct, t, q + width_at(t, q, len), len)
    } else {
        q
    }
}

/// End of the run of \r, \n (and `/` when `slash`) bytes from `q`.
pub open spec fn nl_tail(t: Seq<u8>, q: int, len: int, slash: bool) -> int
    decreases len - q,
{
    if q < len && (t[q] == 13 || t[q] == 10 || (slash && t[q] == 47)) {
        nl_tail(t, q + 1, len, slash)
    } else {
        q
    }
}

/// ` ?[^\s\p{L}\p{N}]+[\r\n]*` (with `/` in the tail when `slash`) at `p`:
/// its length, or 0.
pub open spec fn sym_len(ct: ClassTable, t: Seq<u8>, p: int, len: int, slash: bool) -> int {
    let s4 = if t[p] == 32 {
        p + 1
    } else {
        p
    };
    let q = sym_end(ct, t, run_end(t, s4, len, Run::Punct), len);
    if q > s4 {
        nl_tail(t, q, len, slash) - p
    } else {
        0
    }
}

pub(crate) fn sym_piece(ct: &ClassTable, t: &[u8], p: usize, len: usize, slash: bool) -> (r: usize)
    requires
        ct.wf(),
        3 <= ct.classes(),
        p < len <= t@.len(),
    ensures
        r == sym_len(*ct, t@, p as int, len as int, slash),
        r <= len - p,
{
    let s4 = if t[p] == 32 {
        p + 1
    } else {
        p
    };
    let mut q = ascii_punct_run(t, s4, len);
    proof {
        lemma_run_end(t@, s4 as int, len as int, Run::Punct);
    }
    loop
        invariant
            ct.wf(),
            3 <= ct.classes(),
            s4 <= q <= len <= t@.len(),
            sym_end(*ct, t@, q as int, len as int) == sym_end(*ct, t@, run_end(t@, s4 as int, len as int, Run::Punct), len as int),
        ensures
            s4 <= q <= len,
            q == sym_end(*ct, t@, run_end(t@, s4 as int, len as int, Run::Punct), len as int),
        decreases len - q,
    {
        if q >= len {
            break;
        }
        let (c2, n2) = u8dec(t, q, len);
        if !ct.has(CL_S, c2) && !ct.has(CL_L, c2) && !ct.has(CL_N, c2) {
            q = q + n2;
        } else {
            break;
        }
    }
    if q > s4 {
        let q0 = q;
        while q < len && (t[q] == 13 || t[q] == 10 || (slash && t[q] == 47))
            invariant
                q0 <= q <= len <= t@.len(),
                nl_tail(t@, q as int, len as int, slash) == nl_tail(t@, q0 as int, len as int, slash),
            decreases len - q,
        {
            q = q + 1;
        }
        return q - p;
    }
    0
}


/// Scan the \s run from `e`: its end, the position of its last \r/\n code
/// point (`lastnl` when there is none), and the width of its last code point
/// (`lastlen` when it takes none).
pub open spec fn ws_scan(ct: ClassTable, t: Seq<u8>, e: int, len: int, lastnl: int, lastlen: int) -> (int, int, int)
    decreases len - e,
{
    if e < len && ct.member(CL_S as int, cp_at(t, e, len)) {
        ws_scan(
            ct,
            t,
            e + width_at(t, e, len),
            len,
            if cp_at(t, e, len) == 13 || cp_at(t, e, len) == 10 {
                e
            } else {
                lastnl
            },
            width_at(t, e, len),
        )
    } else {
        (e, lastnl, lastlen)
    }
}

pub proof fn lemma_ws_end(t: Seq<u8>, q: int, len: int)
    requires
        0 <= q <= len <= t.len(),
    ensures
        q <= ws_end(t, q, len) <= len,
    decreases len - q,
{
    if q < len && is_space(t[q]) {
        lemma_ws_end(t, q + 1, len);
    }
}

pub proof fn lemma_last_nl(t: Seq<u8>, q: int, e: int, prev: int)
    ensures
        last_nl(t, q, e, prev) == prev || q <= last_nl(t, q, e, prev) < e,
    decreases e - q,
{
    if q < e && !(t[e - 1] == 10 || t[e - 1] == 13) {
        lemma_last_nl(t, q, e - 1, prev);
    }
}

/// The whitespace alternatives on the maximal \s run at `p`: cl100k's
/// `\s++$ | \s*[\r\n] | \s+(?!\S) | \s`, or, when `o200k_ws`,
/// `\s*[\r\n]+ | \s+(?!\S) | \s+`.
pub open spec fn ws_len(ct: ClassTable, t: Seq<u8>, p: int, len: int, o200k_ws: bool) -> int {
    let e0 = ws_end(t, p, len);
    let scan = ws_scan(ct, t, e0, len, last_nl(t, p, e0, NO_POS as int), 1);
    let e = scan.0;
    let ln = scan.1;
    let ll = scan.2;
    if e == p {
        1
    } else if o200k_ws {
        if ln != NO_POS as int {
            ln + 1 - p
        } else if e == len {
            e - p
        } else if e - p > ll {
            e - ll - p
        } else {
            e - p
        }
    } else {
        if e == len {
            e - p
        } else if ln != NO_POS as int {
            ln + 1 - p
        } else if e - p > ll {
            e - ll - p
        } else {
            width_at(t, p, len)
        }
    }
}

pub(crate) fn ws_piece(ct: &ClassTable, t: &[u8], p: usize, len: usize, o200k_ws: bool) -> (r: usize)
    requires
        ct.wf(),
        3 <= ct.classes(),
        p < len <= t@.len(),
    ensures
        r == ws_len(*ct, t@, p as int, len as int, o200k_ws),
        1 <= r <= len - p,
{
    let mut lastnl: usize = NO_POS;
    let e0 = ascii_ws_run(t, p, len, &mut lastnl);
    let ghost ln0 = lastnl;
    proof {
        lemma_ws_end(t@, p as int, len as int);
        lemma_last_nl(t@, p as int, e0 as int, NO_POS as int);
    }
    let mut e = e0;
    let mut lastlen: usize = 1;
    loop
        invariant
            ct.wf(),
            3 <= ct.classes(),
            p <= e0 <= e <= len <= t@.len(),
            ln0 == last_nl(t@, p as int, e0 as int, NO_POS as int),
            lastnl == NO_POS || p <= lastnl < e,
            1 <= lastlen <= 4,
            e > e0 ==> lastlen <= e - p,
            ws_scan(*ct, t@, e as int, len as int, lastnl as int, lastlen as int) == ws_scan(*ct, t@, e0 as int, len as int, ln0 as int, 1),
        ensures
            p <= e <= len,
            lastnl == NO_POS || p <= lastnl < e,
            e > p ==> 1 <= lastlen <= e - p,
            ws_scan(*ct, t@, e0 as int, len as int, ln0 as int, 1) == (e as int, lastnl as int, lastlen as int),
        decreases len - e,
    {
        if e >= len {
            break;
        }
        let (c2, n2) = u8dec(t, e, len);
        if !ct.has(CL_S, c2) {
            break;
        }
        if c2 == 13 || c2 == 10 {
            lastnl = e;
        }
        lastlen = n2;
        e = e + n2;
    }
    if e == p {
        return 1;
    }
    if o200k_ws {
        if lastnl != NO_POS {
            return lastnl + 1 - p;
        }
        if e == len {
            return e - p;
        }
        if e - p > lastlen {
            return (e - lastlen) - p;
        }
        e - p
    } else {
        if e == len {
            return e - p;
        }
        if lastnl != NO_POS {
            return lastnl + 1 - p;
        }
        if e - p > lastlen {
            return (e - lastlen) - p;
        }
        let (_, nb) = u8dec(t, p, len);
        nb
    }
}


/// `[^\r\n\p{L}\p{N}]` at `p` followed by a \p{L} code point: the optional
/// prefix of the letter alternative is taken.
pub open spec fn letter_pfx(ct: ClassTable, t: Seq<u8>, p: int, len: int) -> bool {
    let cp = cp_at(t, p, len);
    let nb = width_at(t, p, len);
    &&& !ct.member(CL_L as int, cp)
    &&& cp != 13
    &&& cp != 10
    &&& !ct.member(CL_N as int, cp)
    &&& p + nb < len
    &&& ct.member(CL_L as int, cp_at(t, p + nb, len))
}

/// Length of the cl100k-family pretoken at `p` (`p < len`). `o200k_ws` picks the
/// o200k-style whitespace alternatives, `single_digit` a one-code-point number
/// alternative. Zero only where the class table counts an ASCII byte that is
/// not [A-Za-z] as a letter.
pub open spec fn cl_next_len(ct: ClassTable, t: Seq<u8>, p: int, len: int, o200k_ws: bool, single_digit: bool) -> int {
    let cp = cp_at(t, p, len);
    let nb = width_at(t, p, len);
    if cl_contraction(t, p, len) > 0 {
        cl_contraction(t, p, len)
    } else if letter_pfx(ct, t, p, len) {
        class_run_end(ct, CL_L as int, Run::Alpha, t, p + nb, len) - p
    } else if ct.member(CL_L as int, cp) {
        class_run_end(ct, CL_L as int, Run::Alpha, t, p, len) - p
    } else if ct.member(CL_N as int, cp) {
        if single_digit {
            nb
        } else {
            num_run_end(ct, t, p, len, 0) - p
        }
    } else if sym_len(ct, t, p, len, false) > 0 {
        sym_len(ct, t, p, len, false)
    } else {
        ws_len(ct, t, p, len, o200k_ws)
    }
}

/// A code point that is not a letter, number, `\r` or `\n`, followed by a
/// letter (ASCII or not), opens a letter piece: the pretoken at `p` reaches
/// past that letter (the regex's optional prefix `[^\r\n\p{L}\p{N}]?` before
/// `\p{L}+`), and, when `t[p]` is not an apostrophe, it runs exactly to the
/// end of the letter run, so a letter never follows it.
pub proof fn law_cl_prefix_opens_letters(ct: ClassTable, t: Seq<u8>, p: int, len: int, o200k_ws: bool, single_digit: bool)
    requires
        0 <= p < len <= t.len(),
        forall|b: u8| b < 128 && #[trigger] ct.member(CL_L as int, b as u32) ==> is_alpha(b),
        !ct.member(CL_L as int, cp_at(t, p, len)),
        !ct.member(CL_N as int, cp_at(t, p, len)),
        cp_at(t, p, len) != 13,
        cp_at(t, p, len) != 10,
        p + width_at(t, p, len) < len,
        ct.member(CL_L as int, cp_at(t, p + width_at(t, p, len), len)),
    ensures
        ({
            let r = cl_next_len(ct, t, p, len, o200k_ws, single_digit);
            let q = p + width_at(t, p, len);
            &&& r >= width_at(t, p, len) + width_at(t, q, len)
            &&& r <= len - p
            &&& t[p] != 39 ==> (p + r == len || !(run_pred(Run::Alpha, t[p + r]) || (t[p + r] >= 128 && ct.member(
                CL_L as int,
                cp_at(t, p + r, len),
            ))))
        }),
{
    let nb = width_at(t, p, len);
    let q = p + nb;
    let cq = cp_at(t, q, len);
    if t[q] < 128 {
        assert(cq == t[q] as u32);
        assert(is_alpha(t[q]));
        lemma_class_run(ct, CL_L as int, Run::Alpha, t, q + 1, len);
    } else {
        lemma_class_run(ct, CL_L as int, Run::Alpha, t, q + width_at(t, q, len), len);
    }
    lemma_class_run(ct, CL_L as int, Run::Alpha, t, q, len);
    lemma_class_run_stop(ct, CL_L as int, Run::Alpha, t, q, len);
}

/// The run stops at the end of the text or at a byte that continues it neither
/// as an ASCII byte of the run nor as a code point of the class.
pub proof fn lemma_class_run_stop(ct: ClassTable, k: int, run: Run, t: Seq<u8>, q: int, len: int)
    requires
        0 <= q <= len <= t.len(),
    ensures
        ({
            let e = class_run_end(ct, k, run, t, q, len);
            e == len || !(run_pred(run, t[e]) || (t[e] >= 128 && ct.member(k, cp_at(t, e, len))))
        }),
    decreases len - q,
{
    if q < len {
        if run_pred(run, t[q]) {
            lemma_class_run_stop(ct, k, run, t, q + 1, len);
        } else if t[q] >= 128 && ct.member(k, cp_at(t, q, len)) {
            lemma_class_run_stop(ct, k, run, t, q + width_at(t, q, len), len);
        }
    }
}

/// Find one cl100k-family pretoken starting at `p`; returns its byte length.
pub fn pretok_next_impl<const O200K_WS: bool, const SINGLE_DIGIT: bool>(u: &UClass, t: &[u8], p: usize, len: usize) -> (r: usize)
    requires
        u.loaded(),
        p < len <= t@.len(),
    ensures
        r == cl_next_len(u.table(), t@, p as int, len as int, O200K_WS, SINGLE_DIGIT),
        r <= len - p,
        u.ascii_letters_ok() ==> r >= 1,
{
    proof {
        use_type_invariant(u);
    }
    let ct = &u.t;
    let (cp, nb) = u8dec(t, p, len);
    let c = contraction_at(t, p, len);
    if c > 0 {
        return c;
    }
    let cp_l = ct.has(CL_L, cp);
    if !cp_l && cp != 13 && cp != 10 && !ct.has(CL_N, cp) && p + nb < len {
        let (c2, _) = u8dec(t, p + nb, len);
        if ct.has(CL_L, c2) {
            let (q, _) = class_run(ct, CL_L, Run::Alpha, t, p + nb, len);
            return q - p;
        }
    }
    if cp_l {
        let (q, _) = class_run(ct, CL_L, Run::Alpha, t, p, len);
        proof {
            if u.ascii_letters_ok() {
                if t@[p as int] < 128 {
                    assert(cp == t@[p as int] as u32);
                    assert(u.letter(t@[p as int] as u32));
                    assert(is_alpha(t@[p as int]));
                    lemma_class_run(*ct, CL_L as int, Run::Alpha, t@, p + 1, len as int);
                } else {
                    lemma_class_run(*ct, CL_L as int, Run::Alpha, t@, p + nb, len as int);
                }
            }
        }
        return q - p;
    }
    if ct.has(CL_N, cp) {
        if SINGLE_DIGIT {
            return nb;
        }
        let q = num_run(ct, t, p, len);
        proof {
            lemma_num_run_bound(*ct, t@, p + nb, len as int, 1);
        }
        return q - p;
    }
    let s = sym_piece(ct, t, p, len, false);
    if s > 0 {
        return s;
    }
    ws_piece(ct, t, p, len, O200K_WS)
}

/// The cl100k pretoken at `p`.
pub fn pretok_next(u: &UClass, t: &[u8], p: usize, len: usize) -> (r: usize)
    requires
        u.loaded(),
        p < len <= t@.len(),
    ensures
        r == cl_next_len(u.table(), t@, p as int, len as int, false, false),
        r <= len - p,
        u.ascii_letters_ok() ==> r >= 1,
{
    pretok_next_impl::<false, false>(u, t, p, len)
}


/// `ps` lists consecutive nonempty pieces `(offset, length)` that cover
/// `[from, to)` exactly.
pub open spec fn tiles(ps: Seq<(usize, usize)>, from: int, to: int) -> bool
    decreases ps.len(),
{
    if ps.len() == 0 {
        from == to
    } else {
        ps[0].0 == from && ps[0].1 >= 1 && tiles(ps.drop_first(), from + ps[0].1, to)
    }
}

pub proof fn lemma_tiles_push(ps: Seq<(usize, usize)>, from: int, to: int, l: usize)
    requires
        tiles(ps, from, to),
        l >= 1,
        to == to as usize,
    ensures
        tiles(ps.push((to as usize, l)), from, to + l),
    decreases ps.len(),
{
    let x = (to as usize, l);
    if ps.len() == 0 {
        assert(ps.push(x).drop_first() =~= Seq::<(usize, usize)>::empty());
        assert(tiles(ps.push(x).drop_first(), to + l, to + l));
    } else {
        lemma_tiles_push(ps.drop_first(), from + ps[0].1, to, l);
        assert(ps.push(x).drop_first() =~= ps.drop_first().push(x));
        assert(ps.push(x)[0] == ps[0]);
    }
}

/// The word fast path of `pretok`: ` ?[A-Za-z]+` that ends the input or stops
/// at an ASCII byte; its end, or 0 where it does not apply.
pub open spec fn word_fast_end(t: Seq<u8>, p: int, len: int) -> int {
    let ls = if t[p] == 32 {
        p + 1
    } else {
        p
    };
    if ls < len && is_alpha(t[ls]) {
        let q = run_end(t, ls, len, Run::Alpha);
        if q == len || t[q] < 128 {
            q
        } else {
            0
        }
    } else {
        0
    }
}

/// Length of the piece `pretok` takes at `p`.
pub open spec fn pretok_piece_len(ct: ClassTable, t: Seq<u8>, p: int, len: int) -> int {
    if word_fast_end(t, p, len) > 0 {
        word_fast_end(t, p, len) - p
    } else {
        cl_next_len(ct, t, p, len, false, false)
    }
}

/// The pieces `pretok` reports from `p` on.
pub open spec fn pretok_pieces(ct: ClassTable, t: Seq<u8>, p: int, len: int) -> Seq<(usize, usize)>
    decreases len - p,
{
    if p < len && 0 < pretok_piece_len(ct, t, p, len) <= len - p {
        seq![(p as usize, pretok_piece_len(ct, t, p, len) as usize)] + pretok_pieces(
            ct,
            t,
            p + pretok_piece_len(ct, t, p, len),
            len,
        )
    } else {
        seq![]
    }
}

/// The cl100k pretokens of `t`, in order, as `(offset, length)`; they tile `t`.
pub fn pretok(u: &UClass, t: &[u8]) -> (pieces: Vec<(usize, usize)>)
    requires
        u.loaded(),
        u.ascii_letters_ok(),
    ensures
        pieces@ == pretok_pieces(u.table(), t@, 0, t@.len() as int),
        tiles(pieces@, 0, t@.len() as int),
{
    let len = t.len();
    let mut p: usize = 0;
    let mut out: Vec<(usize, usize)> = Vec::new();
    while p < len
        invariant
            u.loaded(),
            u.ascii_letters_ok(),
            len == t@.len(),
            p <= len,
            out@ + pretok_pieces(u.table(), t@, p as int, len as int) == pretok_pieces(u.table(), t@, 0, len as int),
            tiles(out@, 0, p as int),
        decreases len - p,
    {
        let b = t[p];
        let ls = if b == 32 {
            p + 1
        } else {
            p
        };
        let mut l: usize = 0;
        if ls < len && a_let(t[ls]) {
            let q = ascii_letter_run(t, ls, len);
            proof {
                lemma_run_end(t@, ls as int, len as int, Run::Alpha);
            }
            if q == len || t[q] < 128 {
                l = q - p;
            }
        }
        if l == 0 {
            l = pretok_next(u, t, p, len);
        }
        proof {
            assert(l as int == pretok_piece_len(u.table(), t@, p as int, len as int));
            let ps = pretok_pieces(u.table(), t@, p as int, len as int);
            assert(ps == seq![(p, l)] + pretok_pieces(u.table(), t@, p + l, len as int));
            assert(out@.push((p, l)) + pretok_pieces(u.table(), t@, p + l, len as int) =~= out@ + ps);
            lemma_tiles_push(out@, 0, p as int, l);
        }
        out.push((p, l));
        p = p + l;
    }
    out
}


// ---- bounds of the pretoken lengths ----------------------------------------

pub proof fn lemma_num_run_bound(ct: ClassTable, t: Seq<u8>, q: int, len: int, cnt: int)
    requires
        0 <= q <= len <= t.len(),
    ensures
        q <= num_run_end(ct, t, q, len, cnt) <= len,
    decreases len - q,
{
    if q < len && cnt < 3 && ct.member(CL_N as int, cp_at(t, q, len)) {
        lemma_num_run_bound(ct, t, q + width_at(t, q, len), len, cnt + 1);
    }
}

pub proof fn lemma_sym_end(ct: ClassTable, t: Seq<u8>, q: int, len: int)
    requires
        0 <= q <= len <= t.len(),
    ensures
        q <= sym_end(ct, t, q, len) <= len,
    decreases len - q,
{
    if q < len && !ct.member(CL_S as int, cp_at(t, q, len)) && !ct.member(CL_L as int, cp_at(t, q, len)) && !ct.member(
        CL_N as int,
        cp_at(t, q, len),
    ) {
        lemma_sym_end(ct, t, q + width_at(t, q, len), len);
    }
}

pub proof fn lemma_nl_tail(t: Seq<u8>, q: int, len: int, slash: bool)
    requires
        0 <= q <= len <= t.len(),
    ensures
        q <= nl_tail(t, q, len, slash) <= len,
    decreases len - q,
{
    if q < len && (t[q] == 13 || t[q] == 10 || (slash && t[q] == 47)) {
        lemma_nl_tail(t, q + 1, len, slash);
    }
}

pub proof fn lemma_sym_len(ct: ClassTable, t: Seq<u8>, p: int, len: int, slash: bool)
    requires
        0 <= p < len <= t.len(),
    ensures
        0 <= sym_len(ct, t, p, len, slash) <= len - p,
{
    let s4 = if t[p] == 32 {
        p + 1
    } else {
        p
    };
    lemma_run_end(t, s4, len, Run::Punct);
    let q0 = run_end(t, s4, len, Run::Punct);
    lemma_sym_end(ct, t, q0, len);
    let q = sym_end(ct, t, q0, len);
    if q > s4 {
        lemma_nl_tail(t, q, len, slash);
    }
}

proof fn lemma_ws_scan(ct: ClassTable, t: Seq<u8>, p: int, e: int, len: int, lastnl: int, lastlen: int)
    requires
        0 <= p <= e <= len <= t.len(),
        lastnl == NO_POS as int || p <= lastnl < e,
        e > p ==> 1 <= lastlen <= e - p,
    ensures
        ({
            let s = ws_scan(ct, t, e, len, lastnl, lastlen);
            &&& e <= s.0 <= len
            &&& s.1 == NO_POS as int || p <= s.1 < s.0
            &&& s.0 > p ==> 1 <= s.2 <= s.0 - p
        }),
    decreases len - e,
{
    if e < len && ct.member(CL_S as int, cp_at(t, e, len)) {
        lemma_ws_scan(
            ct,
            t,
            p,
            e + width_at(t, e, len),
            len,
            if cp_at(t, e, len) == 13 || cp_at(t, e, len) == 10 {
                e
            } else {
                lastnl
            },
            width_at(t, e, len),
        );
    }
}

pub proof fn lemma_ws_len(ct: ClassTable, t: Seq<u8>, p: int, len: int, o200k_ws: bool)
    requires
        0 <= p < len <= t.len(),
    ensures
        1 <= ws_len(ct, t, p, len, o200k_ws) <= len - p,
{
    lemma_ws_end(t, p, len);
    let e0 = ws_end(t, p, len);
    lemma_last_nl(t, p, e0, NO_POS as int);
    lemma_ws_scan(ct, t, p, e0, len, last_nl(t, p, e0, NO_POS as int), 1);
}

/// The cl100k-family pretoken at `p` fits in what is left of the input.
pub proof fn lemma_cl_next_len(ct: ClassTable, t: Seq<u8>, p: int, len: int, o200k_ws: bool, single_digit: bool)
    requires
        0 <= p < len <= t.len(),
    ensures
        0 <= cl_next_len(ct, t, p, len, o200k_ws, single_digit) <= len - p,
{
    let nb = width_at(t, p, len);
    lemma_class_run(ct, CL_L as int, Run::Alpha, t, p, len);
    if p + nb <= len {
        lemma_class_run(ct, CL_L as int, Run::Alpha, t, p + nb, len);
    }
    lemma_num_run_bound(ct, t, p, len, 0);
    lemma_sym_len(ct, t, p, len, false);
    lemma_ws_len(ct, t, p, len, o200k_ws);
}

} // verus!
