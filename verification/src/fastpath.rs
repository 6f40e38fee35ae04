//! The ASCII fast paths of the fused pretokenize-and-merge machines: for a
//! piece that starts with an ASCII byte and stays away from non-ASCII bytes at
//! its run boundaries, the piece's length is decided on bytes alone. Anything
//! else (length 0 here) goes to the exact Unicode scanner.
use vstd::prelude::*;

use crate::pretok::{
    run_pred, word_fast_end, lemma_num_run_bound, lemma_sym_len, lemma_ws_len, ascii_consistent, cl_contraction, cl_next_len, class_run_end, cp_at, fold, letter_pfx, num_run_end, sym_end, sym_len,
    width_at, ws_scan, ClassTable, CL_L, CL_N, CL_S, lemma_class_run,
    a_dig, a_let, a_ws, ascii_letter_run, ascii_lower_run, ascii_punct_run, ascii_upper_run, ascii_ws_run,
    is_alpha, is_digit, is_space, last_nl, lemma_last_nl, lemma_nl_tail, lemma_run_end, lemma_ws_end, nl_tail, run_end, ws_end, Run, NO_POS,
};
use crate::pretok::class_run_mb;
use crate::pretok_o200k::{contraction_end, lemma_contraction_end, o_contraction, o_letter_end, o_next_len, ul_end, upl_end, CL_LO, CL_U};

verus! {

/// `x | 0x20`: ASCII lower case for letters.
pub open spec fn low(x: u8) -> u8 {
    x | 32u8
}

/// The fast path's `'(?i:[sdmt]|ll|ve|re)` at `p` (`t[p]` is `'`): its length, or 0.
pub open spec fn fast_contraction(t: Seq<u8>, p: int, l: int) -> int {
    if p + 1 < l {
        let c1 = low(t[p + 1]);
        if c1 == 115 || c1 == 100 || c1 == 109 || c1 == 116 {
            2
        } else if p + 2 < l && ((c1 == 108 && low(t[p + 2]) == 108) || (c1 == 118 && low(t[p + 2]) == 101) || (c1 == 114
            && low(t[p + 2]) == 101)) {
            3
        } else {
            0
        }
    } else {
        0
    }
}

/// End of `[0-9]` bytes from `q`, `c` digits taken, at most 3 in all; and the
/// count.
pub open spec fn digit_end(t: Seq<u8>, q: int, l: int, c: int) -> (int, int)
    decreases l - q,
{
    if q < l && c < 3 && is_digit(t[q]) {
        digit_end(t, q + 1, l, c + 1)
    } else {
        (q, c)
    }
}

/// The fast path's number piece at `p` (`t[p]` is a digit): its length, or 0
/// when the run stops short at a non-ASCII byte.
pub open spec fn fast_digits(t: Seq<u8>, p: int, l: int) -> int {
    let d = digit_end(t, p + 1, l, 1);
    if d.1 < 3 && d.0 < l && t[d.0] >= 128 {
        0
    } else {
        d.0 - p
    }
}

/// The fast path's ` ?[punct]+[\r\n]*` piece (with `/` in the tail when
/// `slash`): its length; 0 at a non-ASCII boundary; -1 when no punctuation
/// follows.
pub open spec fn fast_punct(t: Seq<u8>, p: int, l: int, slash: bool) -> int {
    let s4 = if t[p] == 32 {
        p + 1
    } else {
        p
    };
    let q = run_end(t, s4, l, Run::Punct);
    if q > s4 {
        if q < l && t[q] >= 128 {
            0
        } else {
            nl_tail(t, q, l, slash) - p
        }
    } else {
        -1
    }
}

/// The fast path's whitespace piece at `p` (`t[p]` is ASCII whitespace), in the
/// cl100k order or, when `o200k_ws`, the o200k order; 0 at a non-ASCII boundary.
pub open spec fn fast_ws(t: Seq<u8>, p: int, l: int, o200k_ws: bool) -> int {
    let e2 = ws_end(t, p, l);
    let ln = last_nl(t, p, e2, NO_POS as int);
    if e2 < l && t[e2] >= 128 {
        0
    } else if o200k_ws {
        if ln != NO_POS as int {
            ln + 1 - p
        } else if e2 == l {
            e2 - p
        } else if e2 - p > 1 {
            e2 - p - 1
        } else {
            1
        }
    } else {
        if e2 == l {
            e2 - p
        } else if ln != NO_POS as int {
            ln + 1 - p
        } else if e2 - p > 1 {
            e2 - p - 1
        } else {
            1
        }
    }
}

/// Start of the letters of the fast path's ` ?[A-Za-z]+` at `p`, or -1.
pub open spec fn fast_letter_start(t: Seq<u8>, p: int, l: int) -> int {
    let b0 = t[p];
    if is_alpha(b0) {
        p
    } else if !is_digit(b0) && b0 != 13 && b0 != 10 && p + 1 < l && is_alpha(t[p + 1]) {
        p + 1
    } else {
        -1
    }
}

/// Length of the cl100k piece at `p` on the fast path; 0 sends the position to
/// the Unicode scanner.
pub open spec fn cl_fast_len(t: Seq<u8>, p: int, l: int) -> int {
    let b0 = t[p];
    if b0 >= 128 {
        0
    } else if b0 == 39 && fast_contraction(t, p, l) > 0 {
        fast_contraction(t, p, l)
    } else if fast_letter_start(t, p, l) >= 0 {
        let we = run_end(t, fast_letter_start(t, p, l), l, Run::Alpha);
        if we < l && t[we] >= 128 {
            0
        } else {
            we - p
        }
    } else if is_digit(b0) {
        fast_digits(t, p, l)
    } else if fast_punct(t, p, l, false) >= 0 {
        fast_punct(t, p, l, false)
    } else if is_space(b0) {
        fast_ws(t, p, l, false)
    } else {
        0
    }
}

fn fast_digits_exec(t: &[u8], p: usize, l: usize) -> (r: usize)
    requires
        p < l <= t@.len(),
    ensures
        r == fast_digits(t@, p as int, l as int),
        r <= l - p,
{
    let mut q = p + 1;
    let mut c: usize = 1;
    while q < l && c < 3 && a_dig(t[q])
        invariant
            p < q <= l <= t@.len(),
            1 <= c <= 3,
            digit_end(t@, q as int, l as int, c as int) == digit_end(t@, p + 1, l as int, 1),
        decreases l - q,
    {
        q = q + 1;
        c = c + 1;
    }
    if c < 3 && q < l && t[q] >= 128 {
        return 0;
    }
    q - p
}

/// -1 of `fast_punct` as `None`.
fn fast_punct_exec(t: &[u8], p: usize, l: usize, slash: bool) -> (r: Option<usize>)
    requires
        p < l <= t@.len(),
    ensures
        r is None <==> fast_punct(t@, p as int, l as int, slash) == -1,
        r matches Some(n) ==> n == fast_punct(t@, p as int, l as int, slash) && n <= l - p,
{
    let s4 = if t[p] == 32 {
        p + 1
    } else {
        p
    };
    let mut q = ascii_punct_run(t, s4, l);
    proof {
        lemma_run_end(t@, s4 as int, l as int, Run::Punct);
    }
    if q > s4 {
        if q < l && t[q] >= 128 {
            return Some(0);
        }
        let q0 = q;
        while q < l && (t[q] == 13 || t[q] == 10 || (slash && t[q] == 47))
            invariant
                q0 <= q <= l <= t@.len(),
                nl_tail(t@, q as int, l as int, slash) == nl_tail(t@, q0 as int, l as int, slash),
            decreases l - q,
        {
            q = q + 1;
        }
        return Some(q - p);
    }
    None
}

fn fast_ws_exec(t: &[u8], p: usize, l: usize, o200k_ws: bool) -> (r: usize)
    requires
        p < l <= t@.len(),
        is_space(t@[p as int]),
    ensures
        r == fast_ws(t@, p as int, l as int, o200k_ws),
        r <= l - p,
{
    let mut lastnl: usize = NO_POS;
    let e2 = ascii_ws_run(t, p, l, &mut lastnl);
    proof {
        lemma_ws_end(t@, p as int, l as int);
        lemma_last_nl(t@, p as int, e2 as int, NO_POS as int);
        assert(ws_end(t@, p as int, l as int) == ws_end(t@, p + 1, l as int));
        lemma_ws_end(t@, p + 1, l as int);
    }
    if e2 < l && t[e2] >= 128 {
        return 0;
    }
    if o200k_ws {
        if lastnl != NO_POS {
            lastnl + 1 - p
        } else if e2 == l {
            e2 - p
        } else if e2 - p > 1 {
            e2 - p - 1
        } else {
            1
        }
    } else {
        if e2 == l {
            e2 - p
        } else if lastnl != NO_POS {
            lastnl + 1 - p
        } else if e2 - p > 1 {
            e2 - p - 1
        } else {
            1
        }
    }
}

/// The cl100k fast-path piece length at `p` (0: use the Unicode scanner).
pub fn cl_fast(t: &[u8], p: usize, l: usize) -> (r: usize)
    requires
        p < l <= t@.len(),
    ensures
        r == cl_fast_len(t@, p as int, l as int),
        r <= l - p,
{
    let b0 = t[p];
    if b0 >= 128 {
        return 0;
    }
    if b0 == 39 && p + 1 < l {
        let c1 = t[p + 1] | 32u8;
        if c1 == 115 || c1 == 100 || c1 == 109 || c1 == 116 {
            return 2;
        }
        if p + 2 < l {
            let c2 = t[p + 2] | 32u8;
            if (c1 == 108 && c2 == 108) || (c1 == 118 && c2 == 101) || (c1 == 114 && c2 == 101) {
                return 3;
            }
        }
    }
    let ls: usize = if a_let(b0) {
        p
    } else if !a_dig(b0) && b0 != 13 && b0 != 10 && p + 1 < l && a_let(t[p + 1]) {
        p + 1
    } else {
        l
    };
    if ls < l {
        let we = ascii_letter_run(t, ls, l);
        proof {
            lemma_run_end(t@, ls as int, l as int, Run::Alpha);
        }
        if we < l && t[we] >= 128 {
            return 0;
        }
        return we - p;
    }
    if a_dig(b0) {
        return fast_digits_exec(t, p, l);
    }
    match fast_punct_exec(t, p, l, false) {
        Some(n) => {
            return n;
        },
        None => {},
    }
    if a_ws(b0) {
        return fast_ws_exec(t, p, l, false);
    }
    0
}

// ---- o200k ----

/// The fast path's `[A-Z]*[a-z]+` at `st`: whether it met a non-ASCII byte
/// (then the position goes to the Unicode scanner), and its end (0 if none).
pub open spec fn ascii_ul(t: Seq<u8>, st: int, l: int) -> (bool, int) {
    let i = run_end(t, st, l, Run::Upper);
    let j = run_end(t, i, l, Run::Lower);
    if i < l && t[i] >= 128 {
        (true, 0)
    } else if j < l && t[j] >= 128 {
        (true, 0)
    } else if j > i {
        (false, j)
    } else {
        (false, 0)
    }
}

/// The fast path's `[A-Z]+[a-z]*` at `st`, as `ascii_ul`.
pub open spec fn ascii_upl(t: Seq<u8>, st: int, l: int) -> (bool, int) {
    let i = run_end(t, st, l, Run::Upper);
    let j = run_end(t, i, l, Run::Lower);
    if i == st {
        (false, 0)
    } else if i < l && t[i] >= 128 {
        (true, 0)
    } else if j < l && t[j] >= 128 {
        (true, 0)
    } else {
        (false, j)
    }
}

/// End of the fast path's letter piece at `p` (the two letter alternatives,
/// each with the optional prefix tried first), 0 if none; `None` when a
/// non-ASCII byte was met.
pub open spec fn o_fast_letters(t: Seq<u8>, p: int, l: int) -> Option<int> {
    let b0 = t[p];
    let pe = !is_alpha(b0) && !is_digit(b0) && b0 != 13 && b0 != 10;
    let pre = pe && p + 1 < l;
    let a = if pre {
        ascii_ul(t, p + 1, l)
    } else {
        (false, 0)
    };
    let b = if a.1 == 0 {
        ascii_ul(t, p, l)
    } else {
        a
    };
    let c = if b.1 == 0 && pre {
        ascii_upl(t, p + 1, l)
    } else {
        b
    };
    let d = if c.1 == 0 {
        ascii_upl(t, p, l)
    } else {
        c
    };
    if pre && t[p + 1] >= 128 {
        None
    } else if a.0 || b.0 || c.0 || d.0 {
        None
    } else {
        Some(d.1)
    }
}

/// Length of the o200k piece at `p` on the fast path; 0 sends the position to
/// the Unicode scanner.
pub open spec fn o_fast_len(t: Seq<u8>, p: int, l: int) -> int {
    let b0 = t[p];
    if b0 >= 128 {
        0
    } else {
        match o_fast_letters(t, p, l) {
            None => 0,
            Some(e) => if e != 0 {
                contraction_end(t, e, l) - p
            } else if is_digit(b0) {
                fast_digits(t, p, l)
            } else if fast_punct(t, p, l, true) >= 0 {
                fast_punct(t, p, l, true)
            } else if is_space(b0) {
                fast_ws(t, p, l, true)
            } else {
                0
            },
        }
    }
}

fn ascii_ul_exec(t: &[u8], st: usize, l: usize, hit: &mut bool) -> (r: usize)
    requires
        st <= l <= t@.len(),
    ensures
        *final(hit) == (*old(hit) || ascii_ul(t@, st as int, l as int).0),
        r == ascii_ul(t@, st as int, l as int).1,
        r == 0 || st < r <= l,
{
    let i = ascii_upper_run(t, st, l);
    proof {
        lemma_run_end(t@, st as int, l as int, Run::Upper);
    }
    if i < l && t[i] >= 128 {
        *hit = true;
        return 0;
    }
    let j = ascii_lower_run(t, i, l);
    proof {
        lemma_run_end(t@, i as int, l as int, Run::Lower);
    }
    if j < l && t[j] >= 128 {
        *hit = true;
        return 0;
    }
    if j > i {
        j
    } else {
        0
    }
}

fn ascii_upl_exec(t: &[u8], st: usize, l: usize, hit: &mut bool) -> (r: usize)
    requires
        st <= l <= t@.len(),
    ensures
        *final(hit) == (*old(hit) || ascii_upl(t@, st as int, l as int).0),
        r == ascii_upl(t@, st as int, l as int).1,
        r == 0 || st < r <= l,
{
    let i = ascii_upper_run(t, st, l);
    proof {
        lemma_run_end(t@, st as int, l as int, Run::Upper);
    }
    if i == st {
        return 0;
    }
    if i < l && t[i] >= 128 {
        *hit = true;
        return 0;
    }
    let j = ascii_lower_run(t, i, l);
    proof {
        lemma_run_end(t@, i as int, l as int, Run::Lower);
    }
    if j < l && t[j] >= 128 {
        *hit = true;
        return 0;
    }
    j
}

/// The o200k fast-path piece length at `p` (0: use the Unicode scanner).
pub fn o_fast(t: &[u8], p: usize, l: usize) -> (r: usize)
    requires
        p < l <= t@.len(),
    ensures
        r == o_fast_len(t@, p as int, l as int),
        r <= l - p,
{
    let b0 = t[p];
    if b0 >= 128 {
        return 0;
    }
    let pe = !a_let(b0) && !a_dig(b0) && b0 != 13 && b0 != 10;
    if pe && p + 1 < l && t[p + 1] >= 128 {
        return 0;
    }
    let pre = pe && p + 1 < l;
    let mut hit = false;
    let mut e: usize = 0;
    if pre {
        e = ascii_ul_exec(t, p + 1, l, &mut hit);
    }
    if hit {
        return 0;
    }
    if e == 0 {
        e = ascii_ul_exec(t, p, l, &mut hit);
    }
    if hit {
        return 0;
    }
    if e == 0 && pre {
        e = ascii_upl_exec(t, p + 1, l, &mut hit);
    }
    if hit {
        return 0;
    }
    if e == 0 {
        e = ascii_upl_exec(t, p, l, &mut hit);
    }
    if hit {
        return 0;
    }
    if e != 0 {
        let e2 = o_contraction(t, e, l);
        return e2 - p;
    }
    if a_dig(b0) {
        return fast_digits_exec(t, p, l);
    }
    match fast_punct_exec(t, p, l, true) {
        Some(n) => {
            return n;
        },
        None => {},
    }
    if a_ws(b0) {
        return fast_ws_exec(t, p, l, true);
    }
    0
}


proof fn lemma_digit_end(t: Seq<u8>, q: int, l: int, c: int)
    requires
        0 <= q <= l,
    ensures
        q <= digit_end(t, q, l, c).0 <= l,
    decreases l - q,
{
    if q < l && c < 3 && is_digit(t[q]) {
        lemma_digit_end(t, q + 1, l, c + 1);
    }
}

proof fn lemma_fast_parts(t: Seq<u8>, p: int, l: int)
    requires
        0 <= p < l <= t.len(),
    ensures
        0 <= fast_contraction(t, p, l) <= l - p,
        fast_digits(t, p, l) <= l - p,
        t[p] < 128 && is_digit(t[p]) ==> fast_digits(t, p, l) >= 0,
        -1 <= fast_punct(t, p, l, false) <= l - p,
        -1 <= fast_punct(t, p, l, true) <= l - p,
        is_space(t[p]) ==> 0 <= fast_ws(t, p, l, false) <= l - p && 0 <= fast_ws(t, p, l, true) <= l - p,
        fast_letter_start(t, p, l) >= 0 ==> p <= fast_letter_start(t, p, l) < l
            && fast_letter_start(t, p, l) < run_end(t, fast_letter_start(t, p, l), l, Run::Alpha) <= l,
{
    lemma_digit_end(t, p + 1, l, 1);
    let s4 = if t[p] == 32 {
        p + 1
    } else {
        p
    };
    lemma_run_end(t, s4, l, Run::Punct);
    let q = run_end(t, s4, l, Run::Punct);
    lemma_nl_tail(t, q, l, false);
    lemma_nl_tail(t, q, l, true);
    lemma_ws_end(t, p, l);
    let e2 = ws_end(t, p, l);
    lemma_last_nl(t, p, e2, NO_POS as int);
    if is_space(t[p]) {
        assert(ws_end(t, p, l) == ws_end(t, p + 1, l));
        lemma_ws_end(t, p + 1, l);
    }
    let ls = fast_letter_start(t, p, l);
    if ls >= 0 {
        lemma_run_end(t, ls, l, Run::Alpha);
        lemma_run_end(t, ls + 1, l, Run::Alpha);
    }
}

/// The fast-path piece fits in what is left of the input.
pub proof fn lemma_cl_fast_len(t: Seq<u8>, p: int, l: int)
    requires
        0 <= p < l <= t.len(),
    ensures
        0 <= cl_fast_len(t, p, l) <= l - p,
{
    lemma_fast_parts(t, p, l);
}

pub proof fn lemma_ascii_letters(t: Seq<u8>, st: int, l: int)
    requires
        0 <= st <= l <= t.len(),
    ensures
        ascii_ul(t, st, l).1 == 0 || st < ascii_ul(t, st, l).1 <= l,
        ascii_upl(t, st, l).1 == 0 || st < ascii_upl(t, st, l).1 <= l,
{
    lemma_run_end(t, st, l, Run::Upper);
    let i = run_end(t, st, l, Run::Upper);
    lemma_run_end(t, i, l, Run::Lower);
}

/// The fast-path piece fits in what is left of the input.
pub proof fn lemma_o_fast_len(t: Seq<u8>, p: int, l: int)
    requires
        0 <= p < l <= t.len(),
    ensures
        0 <= o_fast_len(t, p, l) <= l - p,
{
    lemma_fast_parts(t, p, l);
    lemma_ascii_letters(t, p, l);
    if p + 1 <= l {
        lemma_ascii_letters(t, p + 1, l);
    }
    match o_fast_letters(t, p, l) {
        Some(e) => {
            lemma_contraction_end(t, e, l);
        },
        None => {},
    }
}


// ---- the fast path agrees with the Unicode scanner ----------------------------------

proof fn lemma_low_fold(x: u8, c: u8)
    requires
        97 <= c <= 122,
    ensures
        (low(x) == c) <==> (fold(x) == c),
{
    assert((x | 32u8) == c <==> (x == c || x == (c - 32) as u8)) by (bit_vector)
        requires
            97 <= c <= 122,
    ;
}

proof fn lemma_contraction_agrees(t: Seq<u8>, p: int, l: int)
    requires
        0 <= p < l <= t.len(),
        t[p] == 39,
    ensures
        fast_contraction(t, p, l) == cl_contraction(t, p, l),
{
    if p + 1 < l {
        let x = t[p + 1];
        lemma_low_fold(x, 115);
        lemma_low_fold(x, 100);
        lemma_low_fold(x, 109);
        lemma_low_fold(x, 116);
        lemma_low_fold(x, 108);
        lemma_low_fold(x, 118);
        lemma_low_fold(x, 114);
        if p + 2 < l {
            let y = t[p + 2];
            lemma_low_fold(y, 108);
            lemma_low_fold(y, 101);
        }
    }
}

/// At an ASCII byte the decoder takes that byte alone.
proof fn lemma_ascii_cp(t: Seq<u8>, q: int, l: int)
    requires
        0 <= q < l <= t.len(),
        t[q] < 128,
    ensures
        cp_at(t, q, l) == t[q] as u32,
        width_at(t, q, l) == 1,
{
}

/// Over ASCII letters the class run is the ASCII run, when it stops at an
/// ASCII byte or the end.
proof fn lemma_letters_agree(ct: ClassTable, t: Seq<u8>, q: int, l: int)
    requires
        ascii_consistent(ct),
        0 <= q <= l <= t.len(),
        !(run_end(t, q, l, Run::Alpha) < l && t[run_end(t, q, l, Run::Alpha)] >= 128),
    ensures
        class_run_end(ct, CL_L as int, Run::Alpha, t, q, l) == run_end(t, q, l, Run::Alpha),
{
    lemma_class_run(ct, CL_L as int, Run::Alpha, t, q, l);
    lemma_run_end(t, q, l, Run::Alpha);
}

proof fn lemma_digits_agree(ct: ClassTable, t: Seq<u8>, q: int, l: int, c: int)
    requires
        ascii_consistent(ct),
        0 <= q <= l <= t.len(),
        !(digit_end(t, q, l, c).1 < 3 && digit_end(t, q, l, c).0 < l && t[digit_end(t, q, l, c).0] >= 128),
    ensures
        num_run_end(ct, t, q, l, c) == digit_end(t, q, l, c).0,
    decreases l - q,
{
    if q < l && c < 3 {
        if t[q] < 128 {
            lemma_ascii_cp(t, q, l);
            let b = t[q];
            assert(ct.member(CL_N as int, b as u32) <==> is_digit(b));
            if is_digit(b) {
                lemma_digits_agree(ct, t, q + 1, l, c + 1);
            }
        }
    }
}

proof fn lemma_ws_stop(t: Seq<u8>, q: int, l: int)
    requires
        0 <= q <= l <= t.len(),
    ensures
        ws_end(t, q, l) < l ==> !is_space(t[ws_end(t, q, l)]),
    decreases l - q,
{
    if q < l && is_space(t[q]) {
        lemma_ws_stop(t, q + 1, l);
    }
}

/// Where the cl100k fast path decides, it takes the piece the Unicode scanner
/// takes (for a class table consistent with ASCII).
pub proof fn lemma_cl_fast_agrees(ct: ClassTable, t: Seq<u8>, p: int, l: int)
    requires
        ascii_consistent(ct),
        0 <= p < l <= t.len(),
        cl_fast_len(t, p, l) > 0,
    ensures
        cl_fast_len(t, p, l) == cl_next_len(ct, t, p, l, false, false),
{
    let b0 = t[p];
    lemma_ascii_cp(t, p, l);
    assert(ct.member(CL_L as int, b0 as u32) <==> is_alpha(b0));
    assert(ct.member(CL_N as int, b0 as u32) <==> is_digit(b0));
    assert(ct.member(CL_S as int, b0 as u32) <==> is_space(b0));
    if b0 == 39 {
        lemma_contraction_agrees(t, p, l);
    }
    assert(b0 != 39 ==> cl_contraction(t, p, l) == 0);
    if p + 1 < l && t[p + 1] < 128 {
        lemma_ascii_cp(t, p + 1, l);
        let b1 = t[p + 1];
        assert(ct.member(CL_L as int, b1 as u32) <==> is_alpha(b1));
    }
    if b0 == 39 && fast_contraction(t, p, l) > 0 {
    } else if fast_letter_start(t, p, l) >= 0 {
        let ls = fast_letter_start(t, p, l);
        lemma_letters_agree(ct, t, ls, l);
        if ls == p + 1 {
            assert(letter_pfx(ct, t, p, l));
        } else {
            assert(!letter_pfx(ct, t, p, l));
        }
    } else if is_digit(b0) {
        assert(!letter_pfx(ct, t, p, l));
        lemma_digits_agree(ct, t, p + 1, l, 1);
        assert(num_run_end(ct, t, p, l, 0) == num_run_end(ct, t, p + 1, l, 1));
    } else {
        let s4 = if b0 == 32 {
            p + 1
        } else {
            p
        };
        lemma_run_end(t, s4, l, Run::Punct);
        let q = run_end(t, s4, l, Run::Punct);
        lemma_nl_tail(t, q, l, false);
        if q < l && t[q] < 128 {
            lemma_ascii_cp(t, q, l);
            let bq = t[q];
            assert(ct.member(CL_L as int, bq as u32) <==> is_alpha(bq));
            assert(ct.member(CL_N as int, bq as u32) <==> is_digit(bq));
            assert(ct.member(CL_S as int, bq as u32) <==> is_space(bq));
        }
        if fast_punct(t, p, l, false) >= 0 {
            assert(!letter_pfx(ct, t, p, l));
            assert(sym_end(ct, t, q, l) == q);
        } else {
            lemma_ws_end(t, p, l);
            assert(ws_end(t, p, l) == ws_end(t, p + 1, l));
            lemma_ws_end(t, p + 1, l);
            lemma_ws_stop(t, p, l);
            let e2 = ws_end(t, p, l);
            assert(is_space(b0));
            assert(cl_fast_len(t, p, l) == fast_ws(t, p, l, false));
            assert(!(e2 < l && t[e2] >= 128));
            assert(q == s4);
            if e2 < l {
                lemma_ascii_cp(t, e2, l);
                let be = t[e2];
                assert(ct.member(CL_S as int, be as u32) <==> is_space(be));
            }
            assert(!letter_pfx(ct, t, p, l));
            assert(sym_end(ct, t, q, l) == q);
            assert(sym_len(ct, t, p, l, false) == 0);
            let ln = last_nl(t, p, e2, NO_POS as int);
            assert(ws_scan(ct, t, e2, l, ln, 1) == (e2, ln, 1int));
        }
    }
}


/// With a class table consistent with ASCII, the cl100k scanner never answers 0.
pub proof fn lemma_cl_next_len_pos(ct: ClassTable, t: Seq<u8>, p: int, l: int)
    requires
        ascii_consistent(ct),
        0 <= p < l <= t.len(),
    ensures
        cl_next_len(ct, t, p, l, false, false) >= 1,
{
    let nb = width_at(t, p, l);
    let cp = cp_at(t, p, l);
    lemma_class_run(ct, CL_L as int, Run::Alpha, t, p, l);
    if p + nb <= l {
        lemma_class_run(ct, CL_L as int, Run::Alpha, t, p + nb, l);
        lemma_num_run_bound(ct, t, p + nb, l, 1);
    }
    lemma_sym_len(ct, t, p, l, false);
    lemma_ws_len(ct, t, p, l, false);
    if t[p] < 128 {
        lemma_ascii_cp(t, p, l);
        let b0 = t[p];
        assert(ct.member(CL_L as int, b0 as u32) <==> is_alpha(b0));
        if is_alpha(b0) {
            lemma_class_run(ct, CL_L as int, Run::Alpha, t, p + 1, l);
        }
    }
}

/// Where the word fast path of `pretok` applies, it takes the scanner's piece.
pub proof fn lemma_word_fast_agrees(ct: ClassTable, t: Seq<u8>, p: int, l: int)
    requires
        ascii_consistent(ct),
        0 <= p < l <= t.len(),
        word_fast_end(t, p, l) > 0,
    ensures
        word_fast_end(t, p, l) - p == cl_next_len(ct, t, p, l, false, false),
{
    let b0 = t[p];
    let ls = if b0 == 32 {
        p + 1
    } else {
        p
    };
    lemma_ascii_cp(t, p, l);
    lemma_ascii_cp(t, ls, l);
    assert(ct.member(CL_L as int, b0 as u32) <==> is_alpha(b0));
    assert(ct.member(CL_N as int, b0 as u32) <==> is_digit(b0));
    let bl = t[ls];
    assert(ct.member(CL_L as int, bl as u32) <==> is_alpha(bl));
    lemma_run_end(t, ls, l, Run::Alpha);
    lemma_letters_agree(ct, t, ls, l);
    if b0 == 32 {
        assert(letter_pfx(ct, t, p, l));
    } else {
        assert(!letter_pfx(ct, t, p, l));
    }
}


// ---- o200k ----

/// Class `k` of the table agrees with the ASCII run kind `run` on ASCII code points.
pub open spec fn class_agrees(ct: ClassTable, k: int, run: Run) -> bool {
    forall|b: u8| b < 128 ==> (#[trigger] ct.member(k, b as u32) <==> run_pred(run, b))
}

/// The o200k table's classes agree with ASCII: \p{L}, \p{N}, \s as for cl100k,
/// UPPER with [A-Z] and LOWER with [a-z].
pub open spec fn ascii_consistent_o(ct: ClassTable) -> bool {
    &&& ascii_consistent(ct)
    &&& class_agrees(ct, CL_U as int, Run::Upper)
    &&& class_agrees(ct, CL_LO as int, Run::Lower)
}

/// A class run that stops at an ASCII byte or the end is the ASCII run.
proof fn lemma_class_run_ascii(ct: ClassTable, k: int, run: Run, t: Seq<u8>, q: int, l: int)
    requires
        class_agrees(ct, k, run),
        0 <= q <= l <= t.len(),
        !(run_end(t, q, l, run) < l && t[run_end(t, q, l, run)] >= 128),
    ensures
        class_run_end(ct, k, run, t, q, l) == run_end(t, q, l, run),
        !class_run_mb(ct, k, run, t, q, l),
{
    lemma_class_run(ct, k, run, t, q, l);
    lemma_run_end(t, q, l, run);
}

proof fn lemma_ul_agrees(ct: ClassTable, t: Seq<u8>, st: int, l: int)
    requires
        ascii_consistent_o(ct),
        0 <= st <= l <= t.len(),
        !ascii_ul(t, st, l).0,
    ensures
        ul_end(ct, t, st, l) == ascii_ul(t, st, l).1,
{
    lemma_run_end(t, st, l, Run::Upper);
    let i = run_end(t, st, l, Run::Upper);
    lemma_class_run_ascii(ct, CL_U as int, Run::Upper, t, st, l);
    lemma_class_run_ascii(ct, CL_LO as int, Run::Lower, t, i, l);
}

proof fn lemma_upl_agrees(ct: ClassTable, t: Seq<u8>, st: int, l: int)
    requires
        ascii_consistent_o(ct),
        0 <= st <= l <= t.len(),
        st < l ==> t[st] < 128,
        !ascii_upl(t, st, l).0,
    ensures
        upl_end(ct, t, st, l) == ascii_upl(t, st, l).1,
{
    lemma_run_end(t, st, l, Run::Upper);
    let i = run_end(t, st, l, Run::Upper);
    if i != st {
        lemma_class_run_ascii(ct, CL_U as int, Run::Upper, t, st, l);
        lemma_class_run_ascii(ct, CL_LO as int, Run::Lower, t, i, l);
    } else {
        lemma_class_run(ct, CL_U as int, Run::Upper, t, st, l);
        if st < l {
            assert(!run_pred(Run::Upper, t[st]));
            lemma_ascii_cp(t, st, l);
            let b = t[st];
            assert(ct.member(CL_U as int, b as u32) <==> run_pred(Run::Upper, b));
        }
    }
}

/// Where the o200k fast path decides, it takes the piece the Unicode scanner
/// takes (for a class table consistent with ASCII).
pub proof fn lemma_o_fast_agrees(ct: ClassTable, t: Seq<u8>, p: int, l: int)
    requires
        ascii_consistent_o(ct),
        0 <= p < l <= t.len(),
        o_fast_len(t, p, l) > 0,
    ensures
        o_fast_len(t, p, l) == o_next_len(ct, t, p, l, true, false),
{
    let b0 = t[p];
    lemma_ascii_cp(t, p, l);
    assert(ct.member(CL_L as int, b0 as u32) <==> is_alpha(b0));
    assert(ct.member(CL_N as int, b0 as u32) <==> is_digit(b0));
    assert(ct.member(CL_S as int, b0 as u32) <==> is_space(b0));
    let pe = !is_alpha(b0) && !is_digit(b0) && b0 != 13 && b0 != 10;
    let pre = pe && p + 1 < l;
    assert(o_fast_letters(t, p, l) is Some);
    let a = if pre {
        ascii_ul(t, p + 1, l)
    } else {
        (false, 0)
    };
    let b = if a.1 == 0 {
        ascii_ul(t, p, l)
    } else {
        a
    };
    let c = if b.1 == 0 && pre {
        ascii_upl(t, p + 1, l)
    } else {
        b
    };
    let d = if c.1 == 0 {
        ascii_upl(t, p, l)
    } else {
        c
    };
    assert(!a.0 && !b.0 && !c.0 && !d.0);
    lemma_ascii_letters(t, p, l);
    lemma_ascii_letters(t, p + 1, l);
    if pre {
        lemma_ul_agrees(ct, t, p + 1, l);
        if b.1 == 0 {
            lemma_upl_agrees(ct, t, p + 1, l);
        }
    } else if pe {
        lemma_class_run(ct, CL_U as int, Run::Upper, t, p + 1, l);
        lemma_class_run(ct, CL_LO as int, Run::Lower, t, p + 1, l);
        assert(ul_end(ct, t, p + 1, l) == 0);
        assert(upl_end(ct, t, p + 1, l) == 0);
    }
    if a.1 == 0 {
        lemma_ul_agrees(ct, t, p, l);
    }
    if c.1 == 0 {
        lemma_upl_agrees(ct, t, p, l);
    }
    assert(o_letter_end(ct, t, p, l, false) == b.1);
    if b.1 == 0 {
        assert(o_letter_end(ct, t, p, l, true) == d.1);
    }
    assert(o_fast_letters(t, p, l) == Some(d.1));
    if d.1 != 0 {
        assert(o_fast_len(t, p, l) == contraction_end(t, d.1, l) - p);
        if b.1 != 0 {
            assert(d.1 == b.1);
        } else {
            assert(o_letter_end(ct, t, p, l, false) == 0);
        }
        assert(o_fast_len(t, p, l) == o_next_len(ct, t, p, l, true, false));
    }
    if d.1 == 0 {
        if is_digit(b0) {
            lemma_digits_agree(ct, t, p + 1, l, 1);
            assert(num_run_end(ct, t, p, l, 0) == num_run_end(ct, t, p + 1, l, 1));
            assert(o_fast_len(t, p, l) == o_next_len(ct, t, p, l, true, false));
        } else {
            let s4 = if b0 == 32 {
                p + 1
            } else {
                p
            };
            lemma_run_end(t, s4, l, Run::Punct);
            let q = run_end(t, s4, l, Run::Punct);
            lemma_nl_tail(t, q, l, true);
            if q < l && t[q] < 128 {
                lemma_ascii_cp(t, q, l);
                let bq = t[q];
                assert(ct.member(CL_L as int, bq as u32) <==> is_alpha(bq));
                assert(ct.member(CL_N as int, bq as u32) <==> is_digit(bq));
                assert(ct.member(CL_S as int, bq as u32) <==> is_space(bq));
            }
            if fast_punct(t, p, l, true) >= 0 {
                assert(sym_end(ct, t, q, l) == q);
                assert(o_fast_len(t, p, l) == o_next_len(ct, t, p, l, true, false));
            } else {
                lemma_ws_end(t, p, l);
                assert(ws_end(t, p, l) == ws_end(t, p + 1, l));
                lemma_ws_end(t, p + 1, l);
                lemma_ws_stop(t, p, l);
                let e2 = ws_end(t, p, l);
                assert(is_space(b0));
                assert(o_fast_len(t, p, l) == fast_ws(t, p, l, true));
                assert(!(e2 < l && t[e2] >= 128));
                assert(q == s4);
                if e2 < l {
                    lemma_ascii_cp(t, e2, l);
                    let be = t[e2];
                    assert(ct.member(CL_S as int, be as u32) <==> is_space(be));
                }
                assert(sym_end(ct, t, q, l) == q);
                assert(sym_len(ct, t, p, l, true) == 0);
                let ln = last_nl(t, p, e2, NO_POS as int);
                assert(ws_scan(ct, t, e2, l, ln, 1) == (e2, ln, 1int));
            }
        }
    }
}

} // verus!
