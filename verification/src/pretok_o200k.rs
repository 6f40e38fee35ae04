//! Pretokenizer for the fixed o200k_base pattern (ordered, first match, greedy):
//!   1: [^\r\n\p{L}\p{N}]? [UPPER]* [LOWER]+ (?i:'s|'t|'re|'ve|'m|'ll|'d)?
//!   2: [^\r\n\p{L}\p{N}]? [UPPER]+ [LOWER]* (?i:'s|'t|'re|'ve|'m|'ll|'d)?
//!   3: \p{N}{1,3}
//!   4:  ?[^\s\p{L}\p{N}]+ [\r\n/]*
//!   5: \s*[\r\n]+      6: \s+(?!\S)      7: \s+
//! where UPPER = [\p{Lu}\p{Lt}\p{Lm}\p{Lo}\p{M}] and LOWER = [\p{Ll}\p{Lm}\p{Lo}\p{M}].
use vstd::prelude::*;

use crate::pretok::{
    tables_from, file_member, file_ranges_bytes, lemma_num_run_bound, lemma_sym_len, lemma_ws_len, class_file_ok, class_run, class_run_end, class_run_mb, cp_at, fold, lemma_class_run, num_run, num_run_end,
    sym_len, sym_piece, u8dec, width_at, ws_len, ws_piece, ClassTable, Run, CL_L, CL_N, CL_S, is_alpha, is_lower,
    is_upper,
};
use crate::vocab::VocabError;

verus! {

/// Class index of UPPER.
pub const CL_U: usize = 3;
/// Class index of LOWER.
pub const CL_LO: usize = 4;

/// Unicode class table for the o200k pattern: \p{L}, \p{N}, \s, UPPER, LOWER.
pub struct UClassO {
    t: ClassTable,
}

impl UClassO {
    #[verifier::type_invariant]
    spec fn inv(&self) -> bool {
        (self.t.wf() && self.t.classes() == 5) || self.t.is_blank()
    }

    pub closed spec fn table(&self) -> ClassTable {
        self.t
    }

    proof fn lemma_table(&self)
        requires
            self.inv(),
        ensures
            self.loaded() ==> self.t.wf() && self.t.classes() == 5,
            !self.loaded() ==> self.t.is_blank() && self.t.classes() == 0,
    {
        if self.t.is_blank() {
            self.t.lemma_empty_bytes();
        }
    }

    /// Loaded from a class file (the empty table answers no query).
    pub closed spec fn loaded(&self) -> bool {
        self.t.classes() == 5
    }

    pub open spec fn class(&self, k: int, cp: u32) -> bool {
        self.table().member(k, cp)
    }

    fn cls(&self, k: usize, cp: u32) -> (r: bool)
        requires
            self.loaded(),
            k < 5,
        ensures
            r == self.class(k as int, cp),
    {
        proof {
            use_type_invariant(self);
            self.lemma_table();
        }
        self.t.has(k, cp)
    }

    pub fn is_l(&self, cp: u32) -> (r: bool)
        requires
            self.loaded(),
        ensures
            r == self.class(CL_L as int, cp),
    {
        self.cls(CL_L, cp)
    }

    pub fn is_n(&self, cp: u32) -> (r: bool)
        requires
            self.loaded(),
        ensures
            r == self.class(CL_N as int, cp),
    {
        self.cls(CL_N, cp)
    }

    pub fn is_s(&self, cp: u32) -> (r: bool)
        requires
            self.loaded(),
        ensures
            r == self.class(CL_S as int, cp),
    {
        self.cls(CL_S, cp)
    }

    pub fn is_u(&self, cp: u32) -> (r: bool)
        requires
            self.loaded(),
        ensures
            r == self.class(CL_U as int, cp),
    {
        self.cls(CL_U, cp)
    }

    pub fn is_lo(&self, cp: u32) -> (r: bool)
        requires
            self.loaded(),
        ensures
            r == self.class(CL_LO as int, cp),
    {
        self.cls(CL_LO, cp)
    }

    pub closed spec fn spec_memory_bytes(&self) -> int {
        self.t.spec_memory_bytes()
    }

    /// The footprint is that of the class table.
    pub proof fn lemma_spec_memory_bytes(&self)
        ensures
            self.spec_memory_bytes() == self.table().spec_memory_bytes(),
    {
    }

    /// Exact heap footprint of the class tables, in bytes.
    pub fn memory_bytes(&self) -> (r: usize)
        ensures
            r == self.spec_memory_bytes(),
            !self.loaded() ==> r == 0,
    {
        proof {
            use_type_invariant(self);
            self.lemma_table();
        }
        let r = self.t.memory_bytes();
        proof {
            if !self.loaded() {
                self.t.lemma_empty_bytes();
            }
        }
        r
    }

    /// The table of an encoding that does not use this scanner: loads nothing.
    pub fn empty() -> (u: UClassO)
        ensures
            !u.loaded(),
    {
        UClassO { t: ClassTable::empty() }
    }

    /// Load the five class tables (\p{L}, \p{N}, \s, UPPER, LOWER, in that
    /// order) from a class file; `what` names the file in errors.
    pub fn from_bytes(raw: &[u8], what: &str) -> (res: Result<UClassO, VocabError>)
        ensures
            res is Ok <==> class_file_ok(raw@, 5),
            res matches Ok(u) ==> u.loaded() && tables_from(u.table(), raw@, 5),
            res matches Ok(u) ==> forall|k: int, cp: u32|
                0 <= k < 5 ==> #[trigger] u.table().member(k, cp) == file_member(raw@, k, cp),
            res matches Ok(u) ==> u.spec_memory_bytes() == file_ranges_bytes(raw@, 5) + 65536,
    {
        match ClassTable::from_bytes(raw, what, 5) {
            Ok(t) => {
                proof {
                    t.lemma_file_member(raw@, 5);
                }
                Ok(UClassO { t })
            },
            Err(e) => Err(e),
        }
    }
}

/// Start of the last LOWER code point's successor among the code points decoded
/// from `q` up to `i`; `e` if none is LOWER.
pub open spec fn lower_scan(ct: ClassTable, t: Seq<u8>, q: int, i: int, len: int, e: int) -> int
    decreases len - q,
{
    if q >= i || q >= len {
        e
    } else {
        lower_scan(
            ct,
            t,
            q + width_at(t, q, len),
            i,
            len,
            if ct.member(CL_LO as int, cp_at(t, q, len)) {
                q + width_at(t, q, len)
            } else {
                e
            },
        )
    }
}

/// `[UPPER]*[LOWER]+` at `start`: its end, or 0. UPPER* is greedy; when
/// LOWER+ then finds nothing, the match ends after the last LOWER code point
/// that UPPER* took (a pure-ASCII UPPER* run has none).
pub open spec fn ul_end(ct: ClassTable, t: Seq<u8>, start: int, len: int) -> int {
    let i = class_run_end(ct, CL_U as int, Run::Upper, t, start, len);
    let j = class_run_end(ct, CL_LO as int, Run::Lower, t, i, len);
    if j > i {
        j
    } else if !class_run_mb(ct, CL_U as int, Run::Upper, t, start, len) {
        0
    } else {
        lower_scan(ct, t, start, i, len, 0)
    }
}

/// `[UPPER]+[LOWER]*` at `start`: its end, or 0.
pub open spec fn upl_end(ct: ClassTable, t: Seq<u8>, start: int, len: int) -> int {
    let i = class_run_end(ct, CL_U as int, Run::Upper, t, start, len);
    if i == start {
        0
    } else {
        class_run_end(ct, CL_LO as int, Run::Lower, t, i, len)
    }
}

/// `[UPPER]*[LOWER]+` at `start`: its end, or 0.
pub fn o_match_ul(u: &UClassO, t: &[u8], start: usize, len: usize) -> (r: usize)
    requires
        u.loaded(),
        start <= len <= t@.len(),
    ensures
        r == ul_end(u.table(), t@, start as int, len as int),
        r == 0 || start < r <= len,
{
    proof {
        use_type_invariant(u);
        u.lemma_table();
    }
    let ct = &u.t;
    let (i, sawmb) = class_run(ct, CL_U, Run::Upper, t, start, len);
    let (j, _) = class_run(ct, CL_LO, Run::Lower, t, i, len);
    if j > i {
        return j;
    }
    if !sawmb {
        return 0;
    }
    let mut e: usize = 0;
    let mut p = start;
    while p < i
        invariant
            ct.wf(),
            ct.classes() == 5,
            start <= p,
            i <= len <= t@.len(),
            e == 0 || start < e <= len,
            lower_scan(*ct, t@, p as int, i as int, len as int, e as int) == lower_scan(*ct, t@, start as int, i as int, len as int, 0),
        decreases len - p,
    {
        let (cp, n) = u8dec(t, p, len);
        if ct.has(CL_LO, cp) {
            e = p + n;
        }
        p = p + n;
    }
    e
}

/// `[UPPER]+[LOWER]*` at `start`: its end, or 0.
pub fn o_match_upl(u: &UClassO, t: &[u8], start: usize, len: usize) -> (r: usize)
    requires
        u.loaded(),
        start <= len <= t@.len(),
    ensures
        r == upl_end(u.table(), t@, start as int, len as int),
        r == 0 || start < r <= len,
{
    proof {
        use_type_invariant(u);
        u.lemma_table();
    }
    let ct = &u.t;
    let (i, _) = class_run(ct, CL_U, Run::Upper, t, start, len);
    if i == start {
        return 0;
    }
    let (j, _) = class_run(ct, CL_LO, Run::Lower, t, i, len);
    j
}

/// `(?i:'s|'t|'re|'ve|'m|'ll|'d)?` after a letter match ending at `e`: the end
/// with the suffix taken.
pub open spec fn contraction_end(t: Seq<u8>, e: int, len: int) -> int {
    if e >= len || t[e] != 39 || e + 1 >= len {
        e
    } else {
        let c1 = fold(t[e + 1]);
        if c1 == 115 || c1 == 116 || c1 == 109 || c1 == 100 {
            e + 2
        } else if e + 2 < len && ((c1 == 114 && fold(t[e + 2]) == 101) || (c1 == 118 && fold(t[e + 2]) == 101) || (c1 == 108
            && fold(t[e + 2]) == 108)) {
            e + 3
        } else {
            e
        }
    }
}

/// `(?i:'s|'t|'re|'ve|'m|'ll|'d)?` suffix after a letter match ending at `e`.
pub fn o_contraction(t: &[u8], e: usize, len: usize) -> (r: usize)
    requires
        len <= t@.len(),
    ensures
        r == contraction_end(t@, e as int, len as int),
        e <= r,
        e <= len ==> r <= len,
{
    if e >= len || t[e] != 39 {
        return e;
    }
    if e + 1 >= len {
        return e;
    }
    let x1 = t[e + 1];
    let c1 = if x1 >= 65 && x1 <= 90 {
        x1 + 32
    } else {
        x1
    };
    if c1 == 115 || c1 == 116 || c1 == 109 || c1 == 100 {
        return e + 2;
    }
    if e + 2 < len {
        let x2 = t[e + 2];
        let c2 = if x2 >= 65 && x2 <= 90 {
            x2 + 32
        } else {
            x2
        };
        if (c1 == 114 && c2 == 101) || (c1 == 118 && c2 == 101) || (c1 == 108 && c2 == 108) {
            return e + 3;
        }
    }
    e
}

/// One of the two letter alternatives at `p` (`upl` picks the second), its
/// optional prefix tried first: the match's end, or 0.
pub open spec fn o_letter_end(ct: ClassTable, t: Seq<u8>, p: int, len: int, upl: bool) -> int {
    let cp = cp_at(t, p, len);
    let nb = width_at(t, p, len);
    let prefelig = cp != 13 && cp != 10 && !ct.member(CL_L as int, cp) && !ct.member(CL_N as int, cp);
    let e = if prefelig {
        if upl {
            upl_end(ct, t, p + nb, len)
        } else {
            ul_end(ct, t, p + nb, len)
        }
    } else {
        0
    };
    if e != 0 {
        e
    } else if upl {
        upl_end(ct, t, p, len)
    } else {
        ul_end(ct, t, p, len)
    }
}

/// Length of the o200k-family pretoken at `p` (`p < len`). `contr` attaches
/// the contraction suffix to the letter alternatives; `single_digit` makes the
/// number alternative one code point.
pub open spec fn o_next_len(ct: ClassTable, t: Seq<u8>, p: int, len: int, contr: bool, single_digit: bool) -> int {
    let cp = cp_at(t, p, len);
    let nb = width_at(t, p, len);
    let e0 = o_letter_end(ct, t, p, len, false);
    let e1 = o_letter_end(ct, t, p, len, true);
    if e0 > 0 {
        (if contr {
            contraction_end(t, e0, len)
        } else {
            e0
        }) - p
    } else if e1 > 0 {
        (if contr {
            contraction_end(t, e1, len)
        } else {
            e1
        }) - p
    } else if ct.member(CL_N as int, cp) {
        if single_digit {
            nb
        } else {
            num_run_end(ct, t, p, len, 0) - p
        }
    } else if sym_len(ct, t, p, len, true) > 0 {
        sym_len(ct, t, p, len, true)
    } else {
        ws_len(ct, t, p, len, true)
    }
}

/// Find one o200k-family pretoken starting at `p`; returns its byte length.
pub fn pretok_next_o200k_impl<const CONTR: bool, const SINGLE_DIGIT: bool>(u: &UClassO, t: &[u8], p: usize, len: usize) -> (r: usize)
    requires
        u.loaded(),
        p < len <= t@.len(),
    ensures
        r == o_next_len(u.table(), t@, p as int, len as int, CONTR, SINGLE_DIGIT),
        1 <= r <= len - p,
{
    proof {
        use_type_invariant(u);
        u.lemma_table();
    }
    let ct = &u.t;
    let (cp, nb) = u8dec(t, p, len);
    let prefelig = cp != 13 && cp != 10 && !ct.has(CL_L, cp) && !ct.has(CL_N, cp);
    let mut alt: usize = 0;
    while alt < 2
        invariant
            u.loaded(),
            ct == &u.t,
            ct.wf(),
            ct.classes() == 5,
            p < len <= t@.len(),
            cp == cp_at(t@, p as int, len as int),
            nb == width_at(t@, p as int, len as int),
            p + nb <= len,
            prefelig == (cp != 13 && cp != 10 && !ct.member(CL_L as int, cp) && !ct.member(CL_N as int, cp)),
            alt <= 2,
            alt >= 1 ==> o_letter_end(*ct, t@, p as int, len as int, false) == 0,
            alt >= 2 ==> o_letter_end(*ct, t@, p as int, len as int, true) == 0,
        decreases 2 - alt,
    {
        let mut e: usize = 0;
        if prefelig {
            e = if alt == 0 {
                o_match_ul(u, t, p + nb, len)
            } else {
                o_match_upl(u, t, p + nb, len)
            };
        }
        if e == 0 {
            e = if alt == 0 {
                o_match_ul(u, t, p, len)
            } else {
                o_match_upl(u, t, p, len)
            };
        }
        if e > 0 {
            let e2 = if CONTR {
                o_contraction(t, e, len)
            } else {
                e
            };
            return e2 - p;
        }
        alt = alt + 1;
    }
    if ct.has(CL_N, cp) {
        if SINGLE_DIGIT {
            return nb;
        }
        let q = num_run(ct, t, p, len);
        proof {
            lemma_num_run_bound(*ct, t@, p + nb, len as int, 1);
        }
        return q - p;
    }
    let s = sym_piece(ct, t, p, len, true);
    if s > 0 {
        return s;
    }
    ws_piece(ct, t, p, len, true)
}

/// The o200k pretoken at `p`.
pub fn pretok_next_o200k(u: &UClassO, t: &[u8], p: usize, len: usize) -> (r: usize)
    requires
        u.loaded(),
        p < len <= t@.len(),
    ensures
        r == o_next_len(u.table(), t@, p as int, len as int, true, false),
        1 <= r <= len - p,
{
    pretok_next_o200k_impl::<true, false>(u, t, p, len)
}


proof fn lemma_lower_scan(ct: ClassTable, t: Seq<u8>, start: int, q: int, i: int, len: int, e: int)
    requires
        0 <= start <= q,
        i <= len <= t.len(),
        e == 0 || start < e <= len,
    ensures
        lower_scan(ct, t, q, i, len, e) == 0 || start < lower_scan(ct, t, q, i, len, e) <= len,
    decreases len - q,
{
    if !(q >= i || q >= len) {
        lower_scan_step(ct, t, start, q, i, len, e);
    }
}

proof fn lower_scan_step(ct: ClassTable, t: Seq<u8>, start: int, q: int, i: int, len: int, e: int)
    requires
        0 <= start <= q < i <= len <= t.len(),
        e == 0 || start < e <= len,
    ensures
        lower_scan(ct, t, q, i, len, e) == 0 || start < lower_scan(ct, t, q, i, len, e) <= len,
    decreases len - q, 0int,
{
    let w = width_at(t, q, len);
    lemma_lower_scan(
        ct,
        t,
        start,
        q + w,
        i,
        len,
        if ct.member(CL_LO as int, cp_at(t, q, len)) {
            q + w
        } else {
            e
        },
    );
}

/// The letter alternatives end inside the input, past where they start.
pub proof fn lemma_letter_ends(ct: ClassTable, t: Seq<u8>, start: int, len: int)
    requires
        0 <= start <= len <= t.len(),
    ensures
        ul_end(ct, t, start, len) == 0 || start < ul_end(ct, t, start, len) <= len,
        upl_end(ct, t, start, len) == 0 || start < upl_end(ct, t, start, len) <= len,
{
    crate::pretok::lemma_class_run(ct, CL_U as int, Run::Upper, t, start, len);
    let i = class_run_end(ct, CL_U as int, Run::Upper, t, start, len);
    crate::pretok::lemma_class_run(ct, CL_LO as int, Run::Lower, t, i, len);
    lemma_lower_scan(ct, t, start, start, i, len, 0);
}

pub proof fn lemma_contraction_end(t: Seq<u8>, e: int, len: int)
    ensures
        e <= contraction_end(t, e, len),
        e <= len ==> contraction_end(t, e, len) <= len,
{
}

/// Once a LOWER code point is seen, the scan's answer is past it.
proof fn lemma_lower_scan_ge(ct: ClassTable, t: Seq<u8>, q: int, i: int, len: int, e: int)
    requires
        0 <= q,
        q < i,
        q < len <= t.len(),
        ct.member(CL_LO as int, cp_at(t, q, len)),
    ensures
        lower_scan(ct, t, q, i, len, e) >= q + width_at(t, q, len),
    decreases len - q,
{
    let w = width_at(t, q, len);
    lemma_lower_scan_from(ct, t, q + w, i, len, q + w);
}

proof fn lemma_lower_scan_from(ct: ClassTable, t: Seq<u8>, q: int, i: int, len: int, e: int)
    requires
        0 <= e <= q,
    ensures
        lower_scan(ct, t, q, i, len, e) >= e,
    decreases len - q,
{
    if !(q >= i || q >= len) {
        let w = width_at(t, q, len);
        assert(w >= 1);
        if ct.member(CL_LO as int, cp_at(t, q, len)) {
            lemma_lower_scan_from(ct, t, q + w, i, len, q + w);
        } else {
            lemma_lower_scan_from(ct, t, q + w, i, len, e);
        }
    }
}

/// A code point that is not a letter, number, `\r` or `\n` (ASCII or not),
/// and not itself UPPER or LOWER, followed by an UPPER or LOWER code point,
/// is the optional prefix of a letter alternative
/// (`[^\r\n\p{L}\p{N}]?[UPPER]*[LOWER]+` or `[^\r\n\p{L}\p{N}]?[UPPER]+[LOWER]*`):
/// the pretoken at `p` starts with it and reaches past it.
pub proof fn law_o_prefix_opens_letters(ct: ClassTable, t: Seq<u8>, p: int, len: int, contr: bool, single_digit: bool)
    requires
        0 <= p < len <= t.len(),
        !ct.member(CL_L as int, cp_at(t, p, len)),
        !ct.member(CL_N as int, cp_at(t, p, len)),
        cp_at(t, p, len) != 13,
        cp_at(t, p, len) != 10,
        !(t[p] < 128 && is_alpha(t[p])),
        !(t[p] >= 128 && (ct.member(CL_U as int, cp_at(t, p, len)) || ct.member(CL_LO as int, cp_at(t, p, len)))),
        p + width_at(t, p, len) < len,
        ({
            let q = p + width_at(t, p, len);
            let c = cp_at(t, q, len);
            (t[q] < 128 && is_alpha(t[q])) || (t[q] >= 128 && (ct.member(CL_U as int, c) || ct.member(CL_LO as int, c)))
        }),
    ensures
        o_next_len(ct, t, p, len, contr, single_digit) > width_at(t, p, len),
        o_next_len(ct, t, p, len, contr, single_digit) <= len - p,
{
    let nb = width_at(t, p, len);
    let q = p + nb;
    let c = cp_at(t, q, len);
    lemma_o_next_len(ct, t, p, len, contr, single_digit);
    lemma_letter_ends(ct, t, p, len);
    lemma_letter_ends(ct, t, q, len);
    // nothing of a letter alternative starts at `p` itself
    lemma_class_run(ct, CL_U as int, Run::Upper, t, p, len);
    lemma_class_run(ct, CL_LO as int, Run::Lower, t, p, len);
    assert(class_run_end(ct, CL_U as int, Run::Upper, t, p, len) == p);
    assert(class_run_end(ct, CL_LO as int, Run::Lower, t, p, len) == p);
    assert(!class_run_mb(ct, CL_U as int, Run::Upper, t, p, len));
    assert(ul_end(ct, t, p, len) == 0);
    assert(upl_end(ct, t, p, len) == 0);
    // one of them starts at `q`
    let i = class_run_end(ct, CL_U as int, Run::Upper, t, q, len);
    lemma_class_run(ct, CL_U as int, Run::Upper, t, q, len);
    lemma_class_run(ct, CL_LO as int, Run::Lower, t, i, len);
    if (t[q] < 128 && is_upper(t[q])) || (t[q] >= 128 && ct.member(CL_U as int, c)) {
        if t[q] < 128 {
            lemma_class_run(ct, CL_U as int, Run::Upper, t, q + 1, len);
        } else {
            lemma_class_run(ct, CL_U as int, Run::Upper, t, q + width_at(t, q, len), len);
        }
        assert(upl_end(ct, t, q, len) > q);
    } else {
        if t[q] < 128 {
            assert(is_lower(t[q]));
            assert(i == q);
            lemma_class_run(ct, CL_LO as int, Run::Lower, t, q + 1, len);
        } else {
            assert(ct.member(CL_LO as int, c));
            if i == q {
                lemma_class_run(ct, CL_LO as int, Run::Lower, t, q + width_at(t, q, len), len);
            } else {
                let j = class_run_end(ct, CL_LO as int, Run::Lower, t, i, len);
                if j <= i {
                    assert(class_run_mb(ct, CL_U as int, Run::Upper, t, q, len));
                    lemma_lower_scan_ge(ct, t, q, i, len, 0);
                }
            }
        }
        assert(ul_end(ct, t, q, len) > q);
    }
    lemma_contraction_end(t, o_letter_end(ct, t, p, len, false), len);
    lemma_contraction_end(t, o_letter_end(ct, t, p, len, true), len);
}

/// The o200k-family pretoken at `p` is nonempty and fits in what is left.
pub proof fn lemma_o_next_len(ct: ClassTable, t: Seq<u8>, p: int, len: int, contr: bool, single_digit: bool)
    requires
        0 <= p < len <= t.len(),
    ensures
        1 <= o_next_len(ct, t, p, len, contr, single_digit) <= len - p,
{
    let nb = width_at(t, p, len);
    lemma_letter_ends(ct, t, p, len);
    lemma_letter_ends(ct, t, p + nb, len);
    let e0 = o_letter_end(ct, t, p, len, false);
    let e1 = o_letter_end(ct, t, p, len, true);
    lemma_contraction_end(t, e0, len);
    lemma_contraction_end(t, e1, len);
    lemma_num_run_bound(ct, t, p, len, 0);
    if p + nb <= len {
        lemma_num_run_bound(ct, t, p + nb, len, 1);
    }
    lemma_sym_len(ct, t, p, len, true);
    lemma_ws_len(ct, t, p, len, true);
}


/// The pieces `(offset, length)` the o200k scanner alone splits `t[p..l)` into.
pub open spec fn o_pieces(ct: ClassTable, t: Seq<u8>, p: int, l: int) -> Seq<(usize, usize)>
    decreases l - p,
{
    if p < l && 0 < o_next_len(ct, t, p, l, true, false) <= l - p {
        seq![(p as usize, o_next_len(ct, t, p, l, true, false) as usize)] + o_pieces(
            ct,
            t,
            p + o_next_len(ct, t, p, l, true, false),
            l,
        )
    } else {
        seq![]
    }
}

} // verus!
