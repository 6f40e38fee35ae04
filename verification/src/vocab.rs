use std::collections::HashMap;
use vstd::prelude::*;

use crate::trie::{lemma_dead_start, lemma_longest_prefix, lemma_longest_step, prefix_of, Steps2, lemma_prefixes_bound, token_prefixes, total_bytes, Radix, Trie};

verus! {

broadcast use vstd::std_specs::hash::group_hash_axioms;

/// Sentinel id: "no token".
pub const RANK_MAX: u32 = 0xFFFF_FFFFu32;

/// Largest number of ids a vocabulary may hold (18-bit ids).
pub const MAX_IDS: u32 = 262144u32;

/// The trie holds fewer nodes than this (20-bit node ids).
pub const TRIE_MAX_NODES: usize = 1048576usize;

// ---------------------------------------------------------------------------
// The mathematical model: a vocabulary is the sequence of token byte strings,
// indexed by id (= merge rank).
// ---------------------------------------------------------------------------

/// Well-formed token table: 1..=2^18 ids, every token 1..=255 bytes.
pub open spec fn toks_wf(toks: Seq<Seq<u8>>) -> bool {
    &&& 1 <= toks.len() <= MAX_IDS
    &&& forall|i: int| 0 <= i < toks.len() ==> 1 <= #[trigger] toks[i].len() <= 255
}

/// The largest id below `k` whose token is exactly `b`, or `RANK_MAX`.
pub open spec fn find_upto(toks: Seq<Seq<u8>>, b: Seq<u8>, k: int) -> u32
    decreases k,
{
    if k <= 0 {
        RANK_MAX
    } else if toks[k - 1] == b {
        (k - 1) as u32
    } else {
        find_upto(toks, b, k - 1)
    }
}

/// The id of the token `b` (the largest one, should the same bytes occur twice).
pub open spec fn find_tok(toks: Seq<Seq<u8>>, b: Seq<u8>) -> u32 {
    find_upto(toks, b, toks.len() as int)
}

/// Length of the longest prefix of `s`, at most `j` bytes long, that is a token (0 if none).
pub open spec fn lpl(toks: Seq<Seq<u8>>, s: Seq<u8>, j: int) -> int
    decreases j,
{
    if j <= 0 {
        0
    } else if j <= s.len() && find_tok(toks, s.take(j)) != RANK_MAX {
        j
    } else {
        lpl(toks, s, j - 1)
    }
}

/// The longest token that is a prefix of `s` and at most `j` bytes long.
pub open spec fn longest_tok(toks: Seq<Seq<u8>>, s: Seq<u8>, j: int) -> u32 {
    let l = lpl(toks, s, j);
    if l == 0 {
        RANK_MAX
    } else {
        find_tok(toks, s.take(l))
    }
}

/// Longest token that is a prefix of `s` (the trie walk).
pub open spec fn next_match_spec(toks: Seq<Seq<u8>>, s: Seq<u8>) -> u32 {
    longest_tok(toks, s, s.len() as int)
}

/// Longest token that is a proper prefix of token `id`.
pub open spec fn next_prefix_spec(toks: Seq<Seq<u8>>, id: int) -> u32 {
    longest_tok(toks, toks[id], toks[id].len() - 1)
}

/// Every byte of `s` is a token by itself.
pub open spec fn covers(toks: Seq<Seq<u8>>, s: Seq<u8>) -> bool {
    forall|i: int| 0 <= i < s.len() ==> find_tok(toks, seq![s[i]]) != RANK_MAX
}

// ---- merge tables --------------------------------------------------------

/// Key of the pair (t1, t2) in the pair table.
pub open spec fn pair_key(t1: u32, t2: u32) -> u64 {
    (t1 as int * 262144 + t2 as int) as u64
}

/// The token that (t1, t2) merges into, or `RANK_MAX`.
pub open spec fn pair_lookup(pm: Map<u64, u32>, t1: u32, t2: u32) -> u32 {
    if pm.contains_key(pair_key(t1, t2)) {
        pm[pair_key(t1, t2)]
    } else {
        RANK_MAX
    }
}

/// Merge compatibility of adjacent tokens `t1 t2`: walking the merge trees
/// inward from the seam, no merge across the seam may rank before the merges
/// that produced the two sides (`limit` is the rank bound in force).
pub open spec fn valid_walk(sp: Seq<(u32, u32)>, pm: Map<u64, u32>, t1: u32, t2: u32, limit: u32) -> bool
    decreases t1 + t2,
{
    if t1 as int >= sp.len() || t2 as int >= sp.len() || sp[t1 as int].1 > t1 || sp[t2 as int].0 > t2 {
        false
    } else {
        let c = pair_lookup(pm, t1, t2);
        if c != RANK_MAX && c < limit {
            false
        } else if t1 > t2 {
            let n1 = sp[t1 as int].1;
            if n1 == t1 {
                let n2 = sp[t2 as int].0;
                if n2 == t2 {
                    true
                } else {
                    valid_walk(sp, pm, t1, n2, (t2 + 1) as u32)
                }
            } else {
                valid_walk(sp, pm, n1, t2, t1)
            }
        } else {
            let n2 = sp[t2 as int].0;
            if n2 == t2 {
                let n1 = sp[t1 as int].1;
                if n1 == t1 {
                    true
                } else {
                    valid_walk(sp, pm, n1, t2, t1)
                }
            } else {
                valid_walk(sp, pm, t1, n2, (t2 + 1) as u32)
            }
        }
    }
}

pub open spec fn valid_with(sp: Seq<(u32, u32)>, pm: Map<u64, u32>, t1: u32, t2: u32) -> bool {
    valid_walk(sp, pm, t1, t2, RANK_MAX)
}

/// Search along the proper prefixes of token `id` (longest first, at most `j`
/// bytes) for the pair it was merged from.
pub open spec fn split_search(
    toks: Seq<Seq<u8>>,
    sp: Seq<(u32, u32)>,
    pm: Map<u64, u32>,
    id: int,
    j: int,
) -> Option<(u32, u32)>
    decreases j,
{
    let l = lpl(toks, toks[id], j);
    if l <= 0 || l > j {
        None
    } else {
        let t1 = find_tok(toks, toks[id].take(l));
        let t2 = find_tok(toks, toks[id].skip(l));
        if t2 != RANK_MAX && (t1 as int) < id && (t2 as int) < id && valid_with(sp, pm, t1, t2) {
            Some((t1, t2))
        } else {
            split_search(toks, sp, pm, id, l - 1)
        }
    }
}

/// Split table and pair table after processing the first `k` ids.
pub open spec fn build(toks: Seq<Seq<u8>>, k: int) -> (Seq<(u32, u32)>, Map<u64, u32>)
    decreases k,
{
    if k <= 0 {
        (Seq::empty(), Map::empty())
    } else {
        let prev = build(toks, k - 1);
        let id = k - 1;
        match split_search(toks, prev.0, prev.1, id, toks[id].len() - 1) {
            Some(p) => (prev.0.push(p), prev.1.insert(pair_key(p.0, p.1), id as u32)),
            None => (prev.0.push((id as u32, id as u32)), prev.1),
        }
    }
}

pub open spec fn split_of(toks: Seq<Seq<u8>>) -> Seq<(u32, u32)> {
    build(toks, toks.len() as int).0
}

pub open spec fn pairs_of(toks: Seq<Seq<u8>>) -> Map<u64, u32> {
    build(toks, toks.len() as int).1
}

/// `t1 t2` may stand next to each other in an encoding.
pub open spec fn valid_pair(toks: Seq<Seq<u8>>, t1: u32, t2: u32) -> bool {
    valid_with(split_of(toks), pairs_of(toks), t1, t2)
}

/// Two tokens that merge into a token never stand side by side: the merge
/// would have been made.
pub proof fn law_merged_pair_invalid(toks: Seq<Seq<u8>>, t1: u32, t2: u32)
    requires
        pair_lookup(pairs_of(toks), t1, t2) != RANK_MAX,
    ensures
        !valid_pair(toks, t1, t2),
{
}

/// A merge across the seam that ranks before a side blocks the pair: when
/// the right part `r1` of the larger left token `t1` merges with `t2` into a
/// token ranked below `t1`, that merge comes first, so `t1` is never formed
/// next to `t2`; likewise, when `t1` merges with the left part `l2` of the
/// larger right token `t2` into a token ranked at most `t2`.
pub proof fn law_seam_merge_blocks_pair(toks: Seq<Seq<u8>>, t1: u32, t2: u32)
    requires
        toks.len() <= MAX_IDS,
    ensures
        ({
            let sp = split_of(toks);
            let pm = pairs_of(toks);
            &&& (t1 > t2 && (t1 as int) < sp.len() && sp[t1 as int].1 != t1 && pair_lookup(pm, sp[t1 as int].1, t2) != RANK_MAX
                && pair_lookup(pm, sp[t1 as int].1, t2) < t1) ==> !valid_pair(toks, t1, t2)
            &&& (t1 <= t2 && (t2 as int) < sp.len() && sp[t2 as int].0 != t2 && pair_lookup(pm, t1, sp[t2 as int].0) != RANK_MAX
                && pair_lookup(pm, t1, sp[t2 as int].0) <= t2) ==> !valid_pair(toks, t1, t2)
        }),
{
    let sp = split_of(toks);
    let pm = pairs_of(toks);
    reveal_with_fuel(valid_walk, 2);
    lemma_build(toks, toks.len() as int);
    if t1 <= t2 && (t2 as int) < sp.len() && sp[t2 as int].0 != t2 {
        let n2 = sp[t2 as int].0;
        assert(valid_walk(sp, pm, t1, t2, RANK_MAX) ==> valid_walk(sp, pm, t1, n2, (t2 + 1) as u32));
    }
}

// ---- lemmas on the model -------------------------------------------------

pub proof fn lemma_find_upto(toks: Seq<Seq<u8>>, b: Seq<u8>, k: int)
    requires
        0 <= k <= toks.len() <= MAX_IDS,
    ensures
        find_upto(toks, b, k) == RANK_MAX <==> (forall|j: int| 0 <= j < k ==> toks[j] != b),
        find_upto(toks, b, k) != RANK_MAX ==> {
            &&& (find_upto(toks, b, k) as int) < k
            &&& toks[find_upto(toks, b, k) as int] == b
            &&& forall|j: int| find_upto(toks, b, k) < j < k ==> toks[j] != b
        },
    decreases k,
{
    if k > 0 {
        lemma_find_upto(toks, b, k - 1);
    }
}

pub proof fn lemma_find_tok(toks: Seq<Seq<u8>>, b: Seq<u8>)
    requires
        toks.len() <= MAX_IDS,
    ensures
        find_tok(toks, b) == RANK_MAX <==> (forall|j: int| 0 <= j < toks.len() ==> toks[j] != b),
        find_tok(toks, b) != RANK_MAX ==> {
            &&& (find_tok(toks, b) as int) < toks.len()
            &&& toks[find_tok(toks, b) as int] == b
            &&& forall|j: int| find_tok(toks, b) < j < toks.len() ==> toks[j] != b
        },
{
    lemma_find_upto(toks, b, toks.len() as int);
}

pub proof fn lemma_lpl(toks: Seq<Seq<u8>>, s: Seq<u8>, j: int)
    ensures
        0 <= lpl(toks, s, j),
        lpl(toks, s, j) <= j || lpl(toks, s, j) == 0,
        lpl(toks, s, j) <= s.len(),
        lpl(toks, s, j) > 0 ==> find_tok(toks, s.take(lpl(toks, s, j))) != RANK_MAX,
        forall|jj: int|
            lpl(toks, s, j) < jj <= j && jj <= s.len() ==> find_tok(toks, #[trigger] s.take(jj))
                == RANK_MAX,
    decreases j,
{
    if j > 0 {
        lemma_lpl(toks, s, j - 1);
    }
}

/// `lpl` only looks at the first `j` bytes.
pub proof fn lemma_lpl_prefix(toks: Seq<Seq<u8>>, s1: Seq<u8>, s2: Seq<u8>, j: int)
    requires
        j <= s1.len(),
        j <= s2.len(),
        0 <= j ==> s1.take(j) == s2.take(j),
    ensures
        lpl(toks, s1, j) == lpl(toks, s2, j),
    decreases j,
{
    if j > 0 {
        assert(s1.take(j - 1) == s1.take(j).take(j - 1));
        assert(s2.take(j - 1) == s2.take(j).take(j - 1));
        lemma_lpl_prefix(toks, s1, s2, j - 1);
    }
}

/// The longest-prefix token really is a prefix of `s`.
pub proof fn lemma_longest_tok(toks: Seq<Seq<u8>>, s: Seq<u8>, j: int)
    requires
        toks.len() <= MAX_IDS,
    ensures
        longest_tok(toks, s, j) != RANK_MAX ==> {
            let t = longest_tok(toks, s, j) as int;
            &&& t < toks.len()
            &&& toks[t] == s.take(lpl(toks, s, j))
            &&& 0 < lpl(toks, s, j) <= s.len()
            &&& lpl(toks, s, j) <= j
        },
        longest_tok(toks, s, j) == RANK_MAX ==> lpl(toks, s, j) == 0,
{
    lemma_lpl(toks, s, j);
    let l = lpl(toks, s, j);
    if l > 0 {
        lemma_find_tok(toks, s.take(l));
    }
}


// ---- the vocabulary file format -------------------------------------------
//
//   u32 n (LE), then n records: u16 len (LE, 1..=255), len token bytes,
//   u32 rank (LE, < n, each rank once); nothing after the last record.

pub open spec fn le16(raw: Seq<u8>, p: int) -> int {
    raw[p] as int + 256 * raw[p + 1] as int
}

pub open spec fn le32(raw: Seq<u8>, p: int) -> int {
    raw[p] as int + 256 * raw[p + 1] as int + 65536 * raw[p + 2] as int + 16777216 * raw[p + 3] as int
}

/// Offset of record `i`, assuming the records before it are well formed.
pub open spec fn rec_start(raw: Seq<u8>, i: int) -> int
    decreases i,
{
    if i <= 0 {
        4
    } else {
        let p = rec_start(raw, i - 1);
        p + 6 + le16(raw, p)
    }
}

pub open spec fn rec_len(raw: Seq<u8>, i: int) -> int {
    le16(raw, rec_start(raw, i))
}

pub open spec fn rec_bytes(raw: Seq<u8>, i: int) -> Seq<u8> {
    let p = rec_start(raw, i);
    raw.subrange(p + 2, p + 2 + rec_len(raw, i))
}

pub open spec fn rec_rank(raw: Seq<u8>, i: int) -> int {
    let p = rec_start(raw, i);
    le32(raw, p + 2 + rec_len(raw, i))
}

pub open spec fn rec_ok(raw: Seq<u8>, n: int, i: int) -> bool {
    let p = rec_start(raw, i);
    &&& p + 2 <= raw.len()
    &&& 1 <= rec_len(raw, i) <= 255
    &&& p + 6 + rec_len(raw, i) <= raw.len()
    &&& rec_rank(raw, i) < n
}

pub open spec fn vocab_count(raw: Seq<u8>) -> int {
    le32(raw, 0)
}

/// `raw` is a well-formed vocabulary file.
pub open spec fn vocab_file_ok(raw: Seq<u8>) -> bool {
    let n = vocab_count(raw);
    &&& raw.len() >= 4
    &&& 1 <= n <= MAX_IDS
    &&& forall|i: int| 0 <= i < n ==> #[trigger] rec_ok(raw, n, i)
    &&& forall|i: int, j: int| 0 <= i < j < n ==> #[trigger] rec_rank(raw, i) != #[trigger] rec_rank(raw, j)
    &&& rec_start(raw, n) == raw.len()
}

/// The record that carries rank `r`.
pub open spec fn rank_owner(raw: Seq<u8>, r: int) -> int {
    choose|i: int| 0 <= i < vocab_count(raw) && rec_rank(raw, i) == r
}

/// The token table a well-formed file describes: token `r` is the record of rank `r`.
pub open spec fn parse_vocab(raw: Seq<u8>) -> Seq<Seq<u8>> {
    Seq::new(vocab_count(raw) as nat, |r: int| rec_bytes(raw, rank_owner(raw, r)))
}

/// Some element of `r` equals `x`.
pub open spec fn takes(r: Seq<int>, x: int) -> bool {
    exists|i: int| 0 <= i < r.len() && r[i] == x
}

/// n distinct values below n take every value below n.
pub proof fn lemma_pigeonhole(r: Seq<int>, n: int)
    requires
        r.len() == n,
        forall|i: int| 0 <= i < n ==> 0 <= #[trigger] r[i] < n,
        forall|i: int, j: int| 0 <= i < j < n ==> #[trigger] r[i] != #[trigger] r[j],
    ensures
        forall|x: int| 0 <= x < n ==> #[trigger] takes(r, x),
{
    broadcast use vstd::set::group_set_axioms;
    assert(r.no_duplicates()) by {
        assert forall|i: int, j: int| 0 <= i < r.len() && 0 <= j < r.len() && i != j implies r[i] != r[j] by {
            if i < j {
            } else {
            }
        }
    }
    r.unique_seq_to_set();
    vstd::set_lib::lemma_int_range(0, n);
    let full = vstd::set_lib::set_int_range(0, n);
    assert(r.to_set().subset_of(full));
    vstd::set_lib::lemma_subset_equality(r.to_set(), full);
    assert forall|x: int| 0 <= x < n implies #[trigger] takes(r, x) by {
        assert(full.contains(x));
        assert(r.to_set().contains(x));
    }
}


/// Error from loading or building an encoding.
#[derive(Debug)]
pub struct VocabError(pub String);

/// The error for a malformed vocabulary file, its message built by `format!`
/// (std); nothing is claimed of the message.
#[verifier::external_body]
fn bad_vocab(why: &str, what: &str) -> VocabError {
    VocabError(format!("toktok: bad vocab file ({why}): {what}"))
}

pub(crate) fn rd16(raw: &[u8], p: usize) -> (r: usize)
    requires
        p + 2 <= raw@.len(),
    ensures
        r == le16(raw@, p as int),
        r < 65536,
{
    raw[p] as usize + 256 * raw[p + 1] as usize
}

pub(crate) fn rd32(raw: &[u8], p: usize) -> (r: u32)
    requires
        p + 4 <= raw@.len(),
    ensures
        r == le32(raw@, p as int),
{
    raw[p] as u32 + 256 * raw[p + 1] as u32 + 65536 * raw[p + 2] as u32 + 16777216 * raw[p + 3] as u32
}

/// Check the record structure of a vocabulary file and locate each token's
/// bytes by rank: `(offset, length)`.
fn parse_records(raw: &[u8], what: &str) -> (res: Result<Vec<(usize, usize)>, VocabError>)
    ensures
        res is Ok <==> vocab_file_ok(raw@),
        res matches Ok(tb) ==> {
            &&& tb@.len() == vocab_count(raw@)
            &&& forall|r: int|
                0 <= r < tb@.len() ==> {
                    &&& 1 <= (#[trigger] tb@[r]).1 <= 255
                    &&& tb@[r].0 + tb@[r].1 <= raw@.len()
                    &&& raw@.subrange(tb@[r].0 as int, tb@[r].0 + tb@[r].1) == parse_vocab(raw@)[r]
                }
        },
{
    if raw.len() < 4 {
        return Err(bad_vocab("truncated header", what));
    }
    let n = rd32(raw, 0);
    if n == 0 || n > MAX_IDS {
        return Err(bad_vocab("token count out of range (max 262144 ids)", what));
    }
    let n_us = n as usize;
    let mut tb: Vec<(usize, usize)> = Vec::new();
    let mut seen: Vec<bool> = Vec::new();
    let mut z: usize = 0;
    while z < n_us
        invariant
            z <= n_us,
            tb@.len() == z,
            seen@.len() == z,
            forall|r: int| 0 <= r < z ==> !#[trigger] seen@[r],
        decreases n_us - z,
    {
        tb.push((0, 0));
        seen.push(false);
        z = z + 1;
    }
    let ghost rawv = raw@;
    let mut p: usize = 4;
    let mut k: u32 = 0;
    let ghost mut ranks: Seq<int> = Seq::empty();
    while k < n
        invariant
            rawv == raw@,
            n == vocab_count(rawv),
            rawv.len() >= 4,
            1 <= n <= MAX_IDS,
            n_us == n,
            k <= n,
            p == rec_start(rawv, k as int),
            p <= rawv.len(),
            tb@.len() == n,
            seen@.len() == n,
            ranks.len() == k,
            forall|i: int| 0 <= i < k ==> #[trigger] ranks[i] == rec_rank(rawv, i),
            forall|i: int| 0 <= i < k ==> #[trigger] rec_ok(rawv, n as int, i),
            forall|i: int, j: int| 0 <= i < j < k ==> #[trigger] rec_rank(rawv, i) != #[trigger] rec_rank(rawv, j),
            forall|r: int| 0 <= r < n ==> (#[trigger] seen@[r] <==> takes(ranks, r)),
            forall|i: int|
                0 <= i < k ==> (#[trigger] tb@[rec_rank(rawv, i)]).0 == rec_start(rawv, i) + 2
                    && tb@[rec_rank(rawv, i)].1 == rec_len(rawv, i),
        decreases n - k,
    {
        let ghost kk = k as int;
        if raw.len() - p < 2 {
            proof {
                assert(!rec_ok(rawv, n as int, kk));
            }
            return Err(bad_vocab("truncated record", what));
        }
        let bl = rd16(raw, p);
        if bl == 0 || bl > 255 {
            proof {
                assert(!rec_ok(rawv, n as int, kk));
            }
            return Err(bad_vocab("token length out of range", what));
        }
        if raw.len() - p - 2 < bl + 4 {
            proof {
                assert(!rec_ok(rawv, n as int, kk));
            }
            return Err(bad_vocab("truncated token bytes", what));
        }
        let r = rd32(raw, p + 2 + bl) as usize;
        if r >= n_us {
            proof {
                assert(!rec_ok(rawv, n as int, kk));
            }
            return Err(bad_vocab("rank out of range", what));
        }
        if seen[r] {
            proof {
                assert(takes(ranks, r as int));
                let i = choose|i: int| 0 <= i < ranks.len() && ranks[i] == r as int;
                assert(rec_rank(rawv, i) == rec_rank(rawv, kk));
            }
            return Err(bad_vocab("duplicate rank", what));
        }
        let ghost old_seen = seen@;
        let ghost old_tb = tb@;
        proof {
            assert(rec_len(rawv, kk) == bl);
            assert(rec_rank(rawv, kk) == r);
            assert(rec_ok(rawv, n as int, kk));
            assert(rec_start(rawv, kk + 1) == p + 2 + bl + 4);
        }
        seen.set(r, true);
        tb.set(r, (p + 2, bl));
        proof {
            let old_ranks = ranks;
            ranks = ranks.push(r as int);
            assert forall|x: int| 0 <= x < n implies (#[trigger] seen@[x] <==> takes(ranks, x)) by {
                assert(old_seen[x] <==> takes(old_ranks, x));
                if x == r as int {
                    assert(ranks[kk] == x);
                }
                if takes(old_ranks, x) {
                    let i = choose|i: int| 0 <= i < old_ranks.len() && old_ranks[i] == x;
                    assert(ranks[i] == x);
                }
                if takes(ranks, x) {
                    let i = choose|i: int| 0 <= i < ranks.len() && ranks[i] == x;
                    if i < kk {
                        assert(old_ranks[i] == x);
                    }
                }
            }
            assert forall|i: int| 0 <= i < kk implies rec_rank(rawv, i) != r as int by {
                assert(old_ranks[i] == rec_rank(rawv, i));
                if rec_rank(rawv, i) == r as int {
                    assert(takes(old_ranks, r as int));
                }
            }
            assert forall|i: int| 0 <= i < kk + 1 implies (#[trigger] tb@[rec_rank(rawv, i)]).0 == rec_start(rawv, i) + 2
                    && tb@[rec_rank(rawv, i)].1 == rec_len(rawv, i) by {
                if i < kk {
                    assert(rec_rank(rawv, i) != r as int);
                    assert(rec_ok(rawv, n as int, i));
                    assert(old_tb[rec_rank(rawv, i)].0 == rec_start(rawv, i) + 2);
                    assert(tb@[rec_rank(rawv, i)] == old_tb[rec_rank(rawv, i)]);
                } else {
                    assert(i == kk);
                    assert(tb@[r as int].0 == p + 2 && tb@[r as int].1 == bl);
                    assert(rec_rank(rawv, i) == r as int);
                    assert(rec_start(rawv, i) == p);
                }
            }
        }
        p = p + 2 + bl + 4;
        k = k + 1;
    }
    if p != raw.len() {
        return Err(bad_vocab("trailing bytes", what));
    }
    proof {
        assert forall|i: int| 0 <= i < n implies 0 <= #[trigger] ranks[i] < n by {
            assert(rec_ok(rawv, n as int, i));
        }
        assert forall|i: int, j: int| 0 <= i < j < n implies #[trigger] ranks[i] != #[trigger] ranks[j] by {
            assert(rec_rank(rawv, i) != rec_rank(rawv, j));
        }
        lemma_pigeonhole(ranks, n as int);
        assert forall|r: int|
            0 <= r < tb@.len() implies {
                &&& 1 <= (#[trigger] tb@[r]).1 <= 255
                &&& tb@[r].0 + tb@[r].1 <= rawv.len()
                &&& rawv.subrange(tb@[r].0 as int, tb@[r].0 + tb@[r].1) == parse_vocab(rawv)[r]
            } by {
            assert(takes(ranks, r));
            let i = choose|i: int| 0 <= i < ranks.len() && ranks[i] == r;
            let o = rank_owner(rawv, r);
            assert(rec_rank(rawv, i) == r);
            assert(0 <= o < n && rec_rank(rawv, o) == r);
            if o != i {
                if o < i {
                    assert(rec_rank(rawv, o) != rec_rank(rawv, i));
                } else {
                    assert(rec_rank(rawv, i) != rec_rank(rawv, o));
                }
            }
            assert(rec_ok(rawv, n as int, i));
            assert(tb@[rec_rank(rawv, i)].0 == rec_start(rawv, i) + 2);
            assert(rec_start(rawv, i) + 6 + rec_len(rawv, i) <= rawv.len());
            assert(parse_vocab(rawv)[r] == rec_bytes(rawv, o));
        }
    }
    Ok(tb)
}


/// Split-table shape: every entry is `(id, id)` (a base token) or a pair of smaller ids.
pub open spec fn split_wf(sp: Seq<(u32, u32)>) -> bool {
    forall|t: int|
        0 <= t < sp.len() ==> (#[trigger] sp[t] == (t as u32, t as u32)) || (sp[t].0 < t && sp[t].1 < t)
}

pub proof fn lemma_split_search(toks: Seq<Seq<u8>>, sp: Seq<(u32, u32)>, pm: Map<u64, u32>, id: int, j: int)
    ensures
        split_search(toks, sp, pm, id, j) matches Some(p) ==> (p.0 as int) < id && (p.1 as int) < id,
    decreases j,
{
    let l = lpl(toks, toks[id], j);
    if l > 0 && l <= j {
        lemma_split_search(toks, sp, pm, id, l - 1);
    }
}

pub proof fn lemma_build(toks: Seq<Seq<u8>>, k: int)
    requires
        0 <= k <= toks.len(),
    ensures
        build(toks, k).0.len() == k,
        split_wf(build(toks, k).0),
    decreases k,
{
    if k > 0 {
        lemma_build(toks, k - 1);
        let prev = build(toks, k - 1);
        lemma_split_search(toks, prev.0, prev.1, k - 1, toks[k - 1].len() - 1);
        let sp = build(toks, k).0;
        assert forall|t: int| 0 <= t < sp.len() implies (#[trigger] sp[t] == (t as u32, t as u32)) || (sp[t].0 < t && sp[t].1 < t) by {
            if t < k - 1 {
                assert(sp[t] == prev.0[t]);
            }
        }
    }
}

/// Merge compatibility of `t1 t2` under the split table `split` and pair table `plk`.
fn valid_pair_in(split: &Vec<(u32, u32)>, plk: &HashMap<u64, u32>, a: u32, b: u32) -> (r: bool)
    requires
        split_wf(split@),
        split@.len() <= MAX_IDS,
        (a as int) < split@.len(),
        (b as int) < split@.len(),
    ensures
        r == valid_with(split@, plk@, a, b),
{
    let ghost sp = split@;
    let ghost pm = plk@;
    let mut t1 = a;
    let mut t2 = b;
    let mut limit: u32 = RANK_MAX;
    let ghost want = valid_with(sp, pm, t1, t2);
    assert(want == valid_with(split@, plk@, a, b));
    loop
        invariant
            want == valid_with(split@, plk@, a, b),
            sp == split@,
            pm == plk@,
            split_wf(sp),
            sp.len() <= MAX_IDS,
            (t1 as int) < sp.len(),
            (t2 as int) < sp.len(),
            valid_walk(sp, pm, t1, t2, limit) == want,
        decreases t1 + t2,
    {
        proof {
            assert(sp[t1 as int] == (t1, t1) || (sp[t1 as int].0 < t1 && sp[t1 as int].1 < t1));
            assert(sp[t2 as int] == (t2, t2) || (sp[t2 as int].0 < t2 && sp[t2 as int].1 < t2));
        }
        let key: u64 = t1 as u64 * 262144 + t2 as u64;
        let c: u32 = match plk.get(&key) {
            Some(v) => *v,
            None => RANK_MAX,
        };
        assert(c == pair_lookup(pm, t1, t2));
        if c != RANK_MAX && c < limit {
            assert(!valid_walk(sp, pm, t1, t2, limit));
            return false;
        }
        let ghost (o1, o2, ol) = (t1, t2, limit);
        if t1 > t2 {
            limit = t1;
            t1 = split[t1 as usize].1;
            if t1 == limit {
                limit = t2 + 1;
                t2 = split[t2 as usize].0;
                if t2 + 1 == limit {
                    assert(valid_walk(sp, pm, o1, o2, ol));
                    return true;
                }
            }
        } else {
            limit = t2 + 1;
            t2 = split[t2 as usize].0;
            if t2 + 1 == limit {
                limit = t1;
                t1 = split[t1 as usize].1;
                if t1 == limit {
                    assert(valid_walk(sp, pm, o1, o2, ol));
                    return true;
                }
            }
        }
    }
}


/// A loaded BPE vocabulary: the token bytes by id, the byte trie, and the merge
/// tables that decide which adjacent tokens are compatible.
pub struct Vocab {
    /// token bytes concatenated, by id
    all: Vec<u8>,
    /// token `id` is `all[tstart[id]..tstart[id + 1]]`
    tstart: Vec<u32>,
    /// token byte lengths
    tlen: Vec<u8>,
    n: u32,
    trie: Trie,
    /// longest proper-prefix token of each token
    npm: Vec<u32>,
    /// the two tokens each token was merged from, or (id, id) for a base token
    split: Vec<(u32, u32)>,
    /// (t1, t2) -> the token they merge into
    plk: HashMap<u64, u32>,
    /// walk states after every two-byte start and every three-byte character
    radix: Radix,
    /// two-byte steps of the walk, and the odd last byte
    steps: Steps2,
    toks: Ghost<Seq<Seq<u8>>>,
}

impl View for Vocab {
    type V = Seq<Seq<u8>>;

    closed spec fn view(&self) -> Seq<Seq<u8>> {
        self.toks@
    }
}

impl Vocab {
    #[verifier::type_invariant]
    closed spec fn inv(&self) -> bool {
        let toks = self.toks@;
        let n = toks.len() as int;
        &&& toks_wf(toks)
        &&& self.n == n
        &&& layout_ok(self.all@, self.tstart@, self.tlen@, toks)
        &&& self.trie.inv(toks, n, Seq::empty())
        &&& self.npm@.len() == n
        &&& forall|i: int| 0 <= i < n ==> #[trigger] self.npm@[i] == next_prefix_spec(toks, i)
        &&& self.split@ == split_of(toks)
        &&& self.plk@ == pairs_of(toks)
        &&& self.radix.wf(&self.trie, toks)
        &&& self.steps.wf(&self.trie, toks)
    }

    /// The token table of a built vocabulary is well formed: 1 to `MAX_IDS`
    /// tokens of 1..=255 bytes each. (It does nothing at run time; a caller
    /// calls it for its `ensures`.)
    pub fn well_formed(&self)
        ensures
            toks_wf(self@),
    {
        proof {
            use_type_invariant(self);
        }
    }

    /// Number of tokens.
    pub fn size(&self) -> (r: usize)
        ensures
            r == self@.len(),
    {
        proof {
            use_type_invariant(self);
        }
        self.n as usize
    }

    /// Byte length of token `id`.
    pub fn token_len(&self, id: u32) -> (r: u32)
        requires
            (id as int) < self@.len(),
        ensures
            r == self@[id as int].len(),
    {
        proof {
            use_type_invariant(self);
            assert(slot_ok(self.all@, self.tstart@, self.tlen@, self.toks@, id as int));
        }
        self.tlen[id as usize] as u32
    }

    /// The longest token that is a proper prefix of token `id`, or `RANK_MAX`.
    pub fn next_prefix(&self, id: u32) -> (r: u32)
        requires
            (id as int) < self@.len(),
        ensures
            r == next_prefix_spec(self@, id as int),
    {
        proof {
            use_type_invariant(self);
        }
        self.npm[id as usize]
    }

    /// The bytes of token `id`.
    pub fn token_bytes(&self, id: u32) -> (r: &[u8])
        requires
            (id as int) < self@.len(),
        ensures
            r@ == self@[id as int],
    {
        proof {
            use_type_invariant(self);
            assert(slot_ok(self.all@, self.tstart@, self.tlen@, self.toks@, id as int));
            assert(self.tstart@[id as int + 1] <= self.all@.len());
        }
        let a = self.tstart[id as usize] as usize;
        let b = self.tstart[id as usize + 1] as usize;
        vstd::slice::slice_subrange(self.all.as_slice(), a, b)
    }

    /// The id of the token with exactly these bytes (the largest, should two
    /// ids share them), or `RANK_MAX`.
    pub fn find_id(&self, b: &[u8]) -> (r: u32)
        ensures
            r == find_tok(self@, b@),
    {
        proof {
            use_type_invariant(self);
            assert(b@.subrange(0, b@.len() as int) =~= b@);
        }
        self.trie.lookup(b, 0, b.len(), Ghost(self.toks@))
    }

    /// Longest token that is a prefix of `text[start..end]`, or `RANK_MAX`.
    pub fn next_match_at(&self, text: &[u8], start: usize, end: usize) -> (r: u32)
        requires
            start <= end <= text@.len(),
        ensures
            r == next_match_spec(self@, text@.subrange(start as int, end as int)),
    {
        proof {
            use_type_invariant(self);
        }
        let ghost toks = self.toks@;
        let ghost s = text@.subrange(start as int, end as int);
        if end - start >= 2 {
            let (node, best) = self.radix.start2(&self.trie, text[start], text[start + 1], Ghost(toks));
            proof {
                let x = seq![text@[start as int], text@[start + 1]];
                assert(s.take(2) =~= x);
                lemma_longest_prefix(toks, s, x, 2);
            }
            if node == 0 {
                proof {
                    lemma_dead_start(toks, s, 2);
                }
                return best;
            }
            self.steps.walk2(&self.trie, text, start, end, node, start + 2, best, Ghost(toks))
        } else {
            self.trie.longest(text, start, end, Ghost(toks))
        }
    }

    /// Longest token that is a prefix of `text`, when `text` starts with a
    /// well-formed three-byte UTF-8 character: the walk starts after that
    /// character.
    pub fn next_match_3(&self, text: &[u8]) -> (r: u32)
        requires
            text@.len() >= 3,
            0xE0 <= text@[0] <= 0xEF,
            0x80 <= text@[1] <= 0xBF,
            0x80 <= text@[2] <= 0xBF,
        ensures
            r == next_match_spec(self@, text@),
    {
        proof {
            use_type_invariant(self);
        }
        let ghost toks = self.toks@;
        let ghost s = text@;
        let (node, best) = self.radix.start3(&self.trie, text[0], text[1], text[2], Ghost(toks));
        proof {
            let x = seq![text@[0], text@[1], text@[2]];
            assert(s.take(3) =~= x);
            lemma_longest_prefix(toks, s, x, 3);
        }
        if node == 0 {
            proof {
                lemma_dead_start(toks, s, 3);
            }
            return best;
        }
        if text.len() == 3 {
            return best;
        }
        // one byte to even depth, then two-byte steps
        let n4 = self.trie.step(node, text[3], Ghost(toks));
        proof {
            assert(s.take(3).push(text@[3]) =~= s.take(4));
            lemma_longest_step(toks, s, 3);
        }
        if n4 == 0 {
            proof {
                crate::vocab::lemma_find_tok(toks, s.take(4));
                if find_tok(toks, s.take(4)) != RANK_MAX {
                    let id = find_tok(toks, s.take(4)) as int;
                    assert(prefix_of(s.take(4), toks[id])) by {
                        assert(toks[id].take(4) =~= toks[id]);
                    }
                }
                lemma_dead_start(toks, s, 4);
            }
            return best;
        }
        let t4 = self.trie.tok_at(n4, Ghost(toks));
        let best4 = if t4 != RANK_MAX { t4 } else { best };
        proof {
            assert(text@.subrange(0, text@.len() as int) =~= s);
        }
        self.steps.walk2(&self.trie, text, 0, text.len(), n4, 4, best4, Ghost(toks))
    }

    /// Longest token that is a prefix of `text`, or `RANK_MAX`.
    pub fn next_match(&self, text: &[u8]) -> (r: u32)
        ensures
            r == next_match_spec(self@, text@),
    {
        proof {
            assert(text@.subrange(0, text@.len() as int) =~= text@);
        }
        self.next_match_at(text, 0, text.len())
    }

    /// Whether `t1 t2` may stand next to each other in an encoding: undoing
    /// their merges from the seam outward never meets a merge across the seam
    /// that ranks before them.
    pub fn is_valid_token_pair(&self, t1: u32, t2: u32) -> (r: bool)
        requires
            (t1 as int) < self@.len(),
            (t2 as int) < self@.len(),
        ensures
            r == valid_pair(self@, t1, t2),
    {
        proof {
            use_type_invariant(self);
            lemma_build(self.toks@, self.toks@.len() as int);
        }
        valid_pair_in(&self.split, &self.plk, t1, t2)
    }
}


/// The error for a vocabulary whose trie would be too large, its message built
/// by `format!` (std); nothing is claimed of the message.
#[verifier::external_body]
fn trie_too_large(what: &str) -> VocabError {
    VocabError(format!("toktok: trie too large (max 2^20 nodes): {what}"))
}

/// Append `raw[o..o + l]` to `all`.
fn append_bytes(all: &mut Vec<u8>, raw: &[u8], o: usize, l: usize)
    requires
        o + l <= raw@.len(),
    ensures
        final(all)@ == old(all)@ + raw@.subrange(o as int, o + l),
{
    let ghost start = all@;
    let mut i: usize = 0;
    let _len = raw.len();
    while i < l
        invariant
            i <= l,
            o + l <= raw@.len(),
            raw@.len() == _len,
            all@ == start + raw@.subrange(o as int, o + i),
        decreases l - i,
    {
        all.push(raw[o + i]);
        i = i + 1;
        proof {
            assert(raw@.subrange(o as int, o + i) =~= raw@.subrange(o as int, o + i - 1).push(raw@[o + i - 1]));
        }
    }
}

/// Token `i` sits at `all[tstart[i]..tstart[i + 1]]` and has length `tlen[i]`.
pub open spec fn slot_ok(all: Seq<u8>, tstart: Seq<u32>, tlen: Seq<u8>, toks: Seq<Seq<u8>>, i: int) -> bool {
    &&& tstart[i] <= tstart[i + 1]
    &&& all.subrange(tstart[i] as int, tstart[i + 1] as int) == toks[i]
    &&& tlen[i] == toks[i].len()
    &&& tstart[i + 1] - tstart[i] == toks[i].len()
}

/// `all`/`tstart`/`tlen` lay out the token table `toks`.
pub open spec fn layout_ok(all: Seq<u8>, tstart: Seq<u32>, tlen: Seq<u8>, toks: Seq<Seq<u8>>) -> bool {
    let n = toks.len() as int;
    &&& tstart.len() == n + 1
    &&& tlen.len() == n
    &&& tstart[0] == 0
    &&& tstart[n] == all.len()
    &&& all.len() <= n * 255
    &&& forall|i: int| 0 <= i <= n ==> #[trigger] tstart[i] <= all.len()
    &&& forall|i: int| 0 <= i < n ==> #[trigger] slot_ok(all, tstart, tlen, toks, i)
}

/// The offset of token `k` is the total length of the tokens before it.
proof fn lemma_tstart_total(all: Seq<u8>, tstart: Seq<u32>, tlen: Seq<u8>, toks: Seq<Seq<u8>>, k: int)
    requires
        layout_ok(all, tstart, tlen, toks),
        0 <= k <= toks.len(),
    ensures
        tstart[k] == total_bytes(toks, k),
    decreases k,
{
    if k > 0 {
        lemma_tstart_total(all, tstart, tlen, toks, k - 1);
        assert(slot_ok(all, tstart, tlen, toks, k - 1));
    }
}

/// Appending one token keeps the layout.
proof fn lemma_layout_push(
    all: Seq<u8>,
    tstart: Seq<u32>,
    tlen: Seq<u8>,
    toks: Seq<Seq<u8>>,
    tok: Seq<u8>,
)
    requires
        layout_ok(all, tstart, tlen, toks),
        1 <= tok.len() <= 255,
        all.len() + tok.len() < 0x1_0000_0000,
    ensures
        layout_ok(
            all + tok,
            tstart.push((all.len() + tok.len()) as u32),
            tlen.push(tok.len() as u8),
            toks.push(tok),
        ),
{
    let all2 = all + tok;
    let ts2 = tstart.push((all.len() + tok.len()) as u32);
    let tl2 = tlen.push(tok.len() as u8);
    let toks2 = toks.push(tok);
    let n = toks.len() as int;
    assert forall|i: int| 0 <= i <= n + 1 implies #[trigger] ts2[i] <= all2.len() by {
        if i <= n {
            assert(tstart[i] <= all.len());
        }
    }
    assert forall|i: int| 0 <= i < n + 1 implies #[trigger] slot_ok(all2, ts2, tl2, toks2, i) by {
        if i < n {
            assert(slot_ok(all, tstart, tlen, toks, i));
            assert(tstart[i + 1] <= all.len());
            assert(all2.subrange(ts2[i] as int, ts2[i + 1] as int) =~= all.subrange(tstart[i] as int, tstart[i + 1] as int));
        } else {
            assert(all2.subrange(ts2[i] as int, ts2[i + 1] as int) =~= tok);
        }
    }
}

/// Lay the tokens out by id: concatenated bytes, start offsets, lengths.
fn layout_tokens(raw: &[u8], tb: &Vec<(usize, usize)>, Ghost(toks): Ghost<Seq<Seq<u8>>>) -> (res: (
    Vec<u8>,
    Vec<u32>,
    Vec<u8>,
))
    requires
        toks_wf(toks),
        tb@.len() == toks.len(),
        forall|r: int|
            0 <= r < tb@.len() ==> {
                &&& 1 <= (#[trigger] tb@[r]).1 <= 255
                &&& tb@[r].0 + tb@[r].1 <= raw@.len()
                &&& raw@.subrange(tb@[r].0 as int, tb@[r].0 + tb@[r].1) == toks[r]
            },
    ensures
        layout_ok(res.0@, res.1@, res.2@, toks),
{
    let n_us = tb.len();
    let mut all: Vec<u8> = Vec::new();
    let mut tstart: Vec<u32> = Vec::new();
    let mut tlen: Vec<u8> = Vec::new();
    tstart.push(0);
    let mut id: usize = 0;
    proof {
        assert(toks.take(0) =~= Seq::<Seq<u8>>::empty());
    }
    while id < n_us
        invariant
            toks_wf(toks),
            n_us == toks.len(),
            tb@.len() == n_us,
            forall|r: int|
                0 <= r < tb@.len() ==> {
                    &&& 1 <= (#[trigger] tb@[r]).1 <= 255
                    &&& tb@[r].0 + tb@[r].1 <= raw@.len()
                    &&& raw@.subrange(tb@[r].0 as int, tb@[r].0 + tb@[r].1) == toks[r]
                },
            id <= n_us,
            layout_ok(all@, tstart@, tlen@, toks.take(id as int)),
        decreases n_us - id,
    {
        let (o, l) = tb[id];
        let ghost before = all@;
        let ghost tok = raw@.subrange(o as int, o + l);
        proof {
            assert(tok == toks[id as int]);
            assert(toks.take(id + 1) =~= toks.take(id as int).push(tok));
            lemma_layout_push(all@, tstart@, tlen@, toks.take(id as int), tok);
        }
        append_bytes(&mut all, raw, o, l);
        tstart.push(all.len() as u32);
        tlen.push(l as u8);
        id = id + 1;
    }
    proof {
        assert(toks.take(n_us as int) =~= toks);
    }
    (all, tstart, tlen)
}

/// Insert every token into a fresh byte trie.
fn build_trie(all: &Vec<u8>, tstart: &Vec<u32>, Ghost(toks): Ghost<Seq<Seq<u8>>>) -> (trie: Trie)
    requires
        toks_wf(toks),
        exists|tl: Seq<u8>| layout_ok(all@, tstart@, tl, toks),
    ensures
        trie.inv(toks, toks.len() as int, Seq::empty()),
{
    let ghost tl = choose|tl: Seq<u8>| layout_ok(all@, tstart@, tl, toks);
    let n = (tstart.len() - 1) as u32;
    let mut trie = Trie::new(Ghost(toks));
    let mut k: u32 = 0;
    while k < n
        invariant
            toks_wf(toks),
            n == toks.len(),
            layout_ok(all@, tstart@, tl, toks),
            k <= n,
            trie.inv(toks, k as int, Seq::empty()),
            trie.nodes() <= 1 + tstart@[k as int],
        decreases n - k,
    {
        let a = tstart[k as usize] as usize;
        let b = tstart[k as usize + 1] as usize;
        proof {
            assert(slot_ok(all@, tstart@, tl, toks, k as int));
            assert(tstart@[k as int + 1] <= all@.len());
        }
        trie.insert(all, a, b, k, Ghost(toks));
        k = k + 1;
    }
    trie
}

/// Longest proper-prefix token of every token.
fn build_npm(all: &Vec<u8>, tstart: &Vec<u32>, trie: &Trie, Ghost(toks): Ghost<Seq<Seq<u8>>>) -> (npm: Vec<u32>)
    requires
        toks_wf(toks),
        exists|tl: Seq<u8>| layout_ok(all@, tstart@, tl, toks),
        trie.inv(toks, toks.len() as int, Seq::empty()),
    ensures
        npm@.len() == toks.len(),
        forall|i: int| 0 <= i < toks.len() ==> #[trigger] npm@[i] == next_prefix_spec(toks, i),
{
    let ghost tl = choose|tl: Seq<u8>| layout_ok(all@, tstart@, tl, toks);
    let n = (tstart.len() - 1) as u32;
    let mut npm: Vec<u32> = Vec::new();
    let mut id: u32 = 0;
    while id < n
        invariant
            toks_wf(toks),
            n == toks.len(),
            layout_ok(all@, tstart@, tl, toks),
            trie.inv(toks, n as int, Seq::empty()),
            id <= n,
            npm@.len() == id,
            forall|i: int| 0 <= i < id ==> #[trigger] npm@[i] == next_prefix_spec(toks, i),
        decreases n - id,
    {
        let a = tstart[id as usize] as usize;
        let b = tstart[id as usize + 1] as usize;
        let ghost t = toks[id as int];
        proof {
            assert(slot_ok(all@, tstart@, tl, toks, id as int));
            assert(tstart@[id as int + 1] <= all@.len());
            assert(t.len() >= 1);
        }
        let r = trie.longest(all, a, b - 1, Ghost(toks));
        proof {
            let s = all@.subrange(a as int, b - 1);
            assert(s =~= t.take(t.len() - 1));
            assert(s.take(t.len() - 1) =~= t.take(t.len() - 1));
            lemma_lpl_prefix(toks, s, t, t.len() - 1);
            let l = lpl(toks, t, t.len() - 1);
            lemma_lpl(toks, t, t.len() - 1);
            if l > 0 {
                assert(s.take(l) =~= t.take(l));
            }
        }
        npm.push(r);
        id = id + 1;
    }
    npm
}

/// The split entry of token `id`: walk its proper prefixes, longest first, for
/// the first `prefix + rest` pair of earlier, mutually compatible tokens.
fn find_split(
    all: &Vec<u8>,
    tstart: &Vec<u32>,
    tlen: &Vec<u8>,
    trie: &Trie,
    npm: &Vec<u32>,
    split: &Vec<(u32, u32)>,
    plk: &HashMap<u64, u32>,
    id: u32,
    Ghost(toks): Ghost<Seq<Seq<u8>>>,
) -> (found: Option<(u32, u32)>)
    requires
        toks_wf(toks),
        layout_ok(all@, tstart@, tlen@, toks),
        trie.inv(toks, toks.len() as int, Seq::empty()),
        npm@.len() == toks.len(),
        forall|i: int| 0 <= i < toks.len() ==> #[trigger] npm@[i] == next_prefix_spec(toks, i),
        (id as int) < toks.len(),
        split@ == build(toks, id as int).0,
        plk@ == build(toks, id as int).1,
    ensures
        found == split_search(toks, split@, plk@, id as int, toks[id as int].len() - 1),
{
    let ghost prev = build(toks, id as int);
    let ghost t = toks[id as int];
    let ghost full = split_search(toks, prev.0, prev.1, id as int, t.len() - 1);
    let ghost n = toks.len() as int;
    proof {
        lemma_build(toks, id as int);
        assert(slot_ok(all@, tstart@, tlen@, toks, id as int));
        assert(tstart@[id as int + 1] <= all@.len());
    }
    let a = tstart[id as usize] as usize;
    let b = tstart[id as usize + 1] as usize;
    let mut token1 = npm[id as usize];
    let mut found: Option<(u32, u32)> = None;
    let ghost mut j: int = t.len() - 1;
    loop
        invariant_except_break
            toks_wf(toks),
            n == toks.len(),
            (id as int) < n,
            t == toks[id as int],
            a + t.len() == b,
            b <= all@.len(),
            all@.subrange(a as int, b as int) == t,
            layout_ok(all@, tstart@, tlen@, toks),
            trie.inv(toks, n, Seq::empty()),
            npm@.len() == n,
            forall|i: int| 0 <= i < n ==> #[trigger] npm@[i] == next_prefix_spec(toks, i),
            split@ == prev.0,
            plk@ == prev.1,
            split_wf(prev.0),
            prev.0.len() == id,
            0 <= j < t.len(),
            token1 == longest_tok(toks, t, j),
            split_search(toks, prev.0, prev.1, id as int, j) == full,
            found is None,
        ensures
            found == full,
        decreases j,
    {
        proof {
            lemma_longest_tok(toks, t, j);
        }
        if token1 == RANK_MAX {
            break;
        }
        let ghost l = lpl(toks, t, j);
        proof {
            assert(slot_ok(all@, tstart@, tlen@, toks, token1 as int));
        }
        let l1 = tlen[token1 as usize] as usize;
        proof {
            assert(l1 == l);
            assert(all@.subrange((a + l1) as int, b as int) =~= t.skip(l));
        }
        let token2 = trie.lookup(all, a + l1, b, Ghost(toks));
        if token2 != RANK_MAX && token1 < id && token2 < id && valid_pair_in(split, plk, token1, token2) {
            found = Some((token1, token2));
            break;
        }
        proof {
            // the next candidate is the longest token shorter than this one
            let tk = toks[token1 as int];
            assert(tk == t.take(l));
            assert(tk.take(l - 1) =~= t.take(l - 1));
            lemma_lpl_prefix(toks, tk, t, l - 1);
            lemma_lpl(toks, t, l - 1);
            let l2 = lpl(toks, t, l - 1);
            if l2 > 0 {
                assert(tk.take(l2) =~= t.take(l2));
            }
        }
        token1 = npm[token1 as usize];
        proof {
            j = l - 1;
        }
    }
    found
}

impl Vocab {
    /// Build the vocabulary tables from a vocabulary file's bytes; `what` names
    /// the source in error messages.
    pub fn from_bytes(raw: &[u8], what: &str) -> (res: Result<Vocab, VocabError>)
        ensures
            res is Ok <==> vocab_file_ok(raw@) && 1 + token_prefixes(parse_vocab(raw@)).len() < TRIE_MAX_NODES,
            res matches Ok(v) ==> v@ == parse_vocab(raw@),
            vocab_file_ok(raw@) && total_bytes(parse_vocab(raw@), parse_vocab(raw@).len() as int) < TRIE_MAX_NODES - 1 ==> res is Ok,
    {
        proof {
            lemma_prefixes_bound(parse_vocab(raw@));
        }
        let tb = parse_records(raw, what)?;
        let ghost toks = parse_vocab(raw@);
        proof {
            assert(toks_wf(toks)) by {
                assert forall|i: int| 0 <= i < toks.len() implies 1 <= #[trigger] toks[i].len() <= 255 by {
                    assert(raw@.subrange(tb@[i].0 as int, tb@[i].0 + tb@[i].1) == toks[i]);
                }
            }
        }
        let (all, tstart, tlen) = layout_tokens(raw, &tb, Ghost(toks));
        let n = tb.len() as u32;
        let trie = build_trie(&all, &tstart, Ghost(toks));
        proof {
            trie.lemma_node_count(toks);
        }
        if trie.node_count() >= TRIE_MAX_NODES {
            return Err(trie_too_large(what));
        }
        let npm = build_npm(&all, &tstart, &trie, Ghost(toks));
        let mut split: Vec<(u32, u32)> = Vec::new();
        let mut plk: HashMap<u64, u32> = HashMap::new();
        let mut id: u32 = 0;
        while id < n
            invariant
                toks_wf(toks),
                n == toks.len(),
                layout_ok(all@, tstart@, tlen@, toks),
                trie.inv(toks, n as int, Seq::empty()),
                npm@.len() == n,
                forall|i: int| 0 <= i < n ==> #[trigger] npm@[i] == next_prefix_spec(toks, i),
                id <= n,
                split@ == build(toks, id as int).0,
                plk@ == build(toks, id as int).1,
            decreases n - id,
        {
            let found = find_split(&all, &tstart, &tlen, &trie, &npm, &split, &plk, id, Ghost(toks));
            match found {
                Some(pr) => {
                    let key: u64 = pr.0 as u64 * 262144 + pr.1 as u64;
                    plk.insert(key, id);
                    split.push(pr);
                },
                None => {
                    split.push((id, id));
                },
            }
            id = id + 1;
        }
        proof {
            lemma_build(toks, n as int);
        }
        let radix = Radix::build(&trie, Ghost(toks));
        proof {
            assert forall|i: int| 0 <= i < toks.len() implies #[trigger] tstart@[i] <= tstart@[i + 1] <= all@.len()
                && all@.subrange(tstart@[i] as int, tstart@[i + 1] as int) == toks[i] by {
                assert(slot_ok(all@, tstart@, tlen@, toks, i));
                assert(tstart@[i + 1] <= all@.len());
            }
        }
        let steps = Steps2::build(&trie, &all, &tstart, Ghost(toks));
        Ok(Vocab { all, tstart, tlen, n, trie, npm, split, plk, radix, steps, toks: Ghost(toks) })
    }
}


// ---- memory accounting -------------------------------------------------------

/// `x`, saturated at `usize::MAX`.
pub open spec fn sat(x: int) -> int {
    if x > usize::MAX {
        usize::MAX as int
    } else {
        x
    }
}

pub proof fn lemma_sat3(a: int, b: int, c: int)
    requires
        0 <= a,
        0 <= b,
        0 <= c,
    ensures
        sat(sat(sat(a) + sat(b)) + sat(c)) == sat(a + b + c),
{
}

pub proof fn lemma_sat_add(x: int, y: int)
    requires
        0 <= x,
        0 <= y,
    ensures
        sat(sat(x) + sat(y)) == sat(x + y),
{
}


pub fn sat_add(x: usize, y: usize) -> (r: usize)
    ensures
        r == sat(x + y),
{
    x.saturating_add(y)
}

pub fn sat_mul(x: usize, k: usize) -> (r: usize)
    ensures
        r == sat(x * k),
{
    match x.checked_mul(k) {
        Some(v) => v,
        None => usize::MAX,
    }
}

/// Sum of the sizes in `parts`.
pub open spec fn sum_sizes(parts: Seq<(&'static str, usize)>) -> int
    decreases parts.len(),
{
    if parts.len() == 0 {
        0
    } else {
        sum_sizes(parts.drop_last()) + parts.last().1
    }
}

/// Sizes in non-increasing order.
pub open spec fn sorted_desc(parts: Seq<(&'static str, usize)>) -> bool {
    forall|i: int, j: int| 0 <= i < j < parts.len() ==> #[trigger] parts[i].1 >= #[trigger] parts[j].1
}

proof fn lemma_sum_sizes_insert(s: Seq<(&'static str, usize)>, i: int, x: (&'static str, usize))
    requires
        0 <= i <= s.len(),
    ensures
        sum_sizes(s.insert(i, x)) == sum_sizes(s) + x.1,
    decreases s.len(),
{
    if i == s.len() {
        assert(s.insert(i, x).drop_last() =~= s);
    } else {
        lemma_sum_sizes_insert(s.drop_last(), i, x);
        assert(s.insert(i, x).drop_last() =~= s.drop_last().insert(i, x));
        assert(s.insert(i, x).last() == s.last());
    }
}

/// Insertion sort by size, largest first; equal sizes keep their order.
fn sort_desc(parts: Vec<(&'static str, usize)>) -> (r: Vec<(&'static str, usize)>)
    ensures
        sorted_desc(r@),
        r@.to_multiset() == parts@.to_multiset(),
        sum_sizes(r@) == sum_sizes(parts@),
{
    broadcast use {vstd::seq_lib::to_multiset_insert, vstd::seq_lib::to_multiset_build};

    let mut out: Vec<(&'static str, usize)> = Vec::new();
    let mut k: usize = 0;
    proof {
        assert(parts@.take(0) =~= Seq::<(&'static str, usize)>::empty());
        assert(out@ =~= Seq::<(&'static str, usize)>::empty());
    }
    while k < parts.len()
        invariant
            k <= parts@.len(),
            sorted_desc(out@),
            out@.to_multiset() == parts@.take(k as int).to_multiset(),
            sum_sizes(out@) == sum_sizes(parts@.take(k as int)),
        decreases parts@.len() - k,
    {
        let e = parts[k];
        let mut pos: usize = 0;
        while pos < out.len() && out[pos].1 >= e.1
            invariant
                pos <= out@.len(),
                forall|j: int| 0 <= j < pos ==> (#[trigger] out@[j]).1 >= e.1,
            decreases out@.len() - pos,
        {
            pos = pos + 1;
        }
        let ghost before = out@;
        out.insert(pos, e);
        proof {
            assert forall|i: int, j: int| 0 <= i < j < out@.len() implies #[trigger] out@[i].1 >= #[trigger] out@[j].1 by {
                if pos < before.len() {
                    assert(before[pos as int].1 < e.1);
                }
                if i < pos as int && j == pos as int {
                } else if i < pos as int && j > pos as int {
                    assert(out@[j] == before[j - 1]);
                } else if i == pos as int && j > pos as int {
                    assert(out@[j] == before[j - 1]);
                    assert(before[j - 1].1 <= before[pos as int].1);
                } else if i > pos as int {
                    assert(out@[i] == before[i - 1]);
                    assert(out@[j] == before[j - 1]);
                }
            }
            assert(parts@.take(k + 1) =~= parts@.take(k as int).push(e));
            vstd::seq_lib::to_multiset_insert(before, pos as int, e);
            vstd::seq_lib::to_multiset_build(parts@.take(k as int), e);
            lemma_sum_sizes_insert(before, pos as int, e);
            assert(parts@.take(k + 1).drop_last() =~= parts@.take(k as int));
        }
        k = k + 1;
    }
    proof {
        assert(parts@.take(parts@.len() as int) =~= parts@);
    }
    out
}

impl Vocab {
    /// Payload bytes of each table: token bytes (with offsets and lengths),
    /// trie edges, per-node token ids, the two-byte and three-byte start
    /// tables, the two-byte step table, the odd-byte table, prefix links,
    /// split table, pair table (8-byte key, 4-byte id).
    pub closed spec fn mem_parts(&self) -> Seq<int> {
        seq![
            (self.all@.len() + self.tstart@.len() * 4 + self.tlen@.len()) as int,
            self.trie.edge_bytes(),
            self.trie.tok_bytes(),
            self.radix.r2_bytes_len(),
            self.radix.r3_bytes_len(),
            self.steps.e2_bytes(),
            self.steps.otab_bytes(),
            (self.npm@.len() * 4) as int,
            (self.split@.len() * 8) as int,
            (self.plk@.len() * 12) as int,
        ]
    }

    /// Number of tables.
    pub open spec fn n_tables() -> int {
        10
    }

    pub open spec fn mem_total(&self) -> int {
        part_sum(self.mem_parts(), Self::n_tables())
    }

    /// Every table's size is at least zero.
    pub proof fn lemma_mem_nonneg(&self)
        ensures
            self.mem_parts().len() == Self::n_tables(),
            forall|i: int| 0 <= i < Self::n_tables() ==> self.mem_parts()[i] >= 0,
            self.mem_total() >= 0,
    {
        self.trie.lemma_mem_bytes();
        self.radix.lemma_bytes_len();
        self.steps.lemma_bytes();
        lemma_part_sum_nonneg(self.mem_parts(), Self::n_tables());
    }

    /// What each table takes, in terms of the token table: the token bytes
    /// with five bytes of offset and length per token and one more offset,
    /// the trie edges (at least the 256 root slots), four bytes per trie node
    /// (one per distinct nonempty token prefix, plus the root), the two start
    /// tables of 512 KiB each, the step tables (sized by the trie), four bytes
    /// of prefix link and eight of split per token, and twelve per merge pair.
    pub open spec fn mem_formulas(&self) -> bool {
        &&& self.mem_parts()[0] == total_bytes(self@, self@.len() as int) + 5 * self@.len() + 4
        &&& self.mem_parts()[1] >= 1024
        &&& self.mem_parts()[2] == 4 * (1 + token_prefixes(self@).len())
        &&& self.mem_parts()[3] == 524288
        &&& self.mem_parts()[4] == 524288
        &&& self.mem_parts()[5] >= 0
        &&& self.mem_parts()[6] >= 0
        &&& self.mem_parts()[7] == 4 * self@.len()
        &&& self.mem_parts()[8] == 8 * self@.len()
        &&& self.mem_parts()[9] == 12 * pairs_of(self@).len()
    }

    proof fn lemma_mem_parts(&self)
        requires
            self.inv(),
        ensures
            self.mem_formulas(),
    {
        let toks = self.toks@;
        lemma_tstart_total(self.all@, self.tstart@, self.tlen@, toks, toks.len() as int);
        self.trie.lemma_node_count(toks);
        self.trie.lemma_mem_bytes();
        self.trie.lemma_edge_bytes(toks);
        self.radix.lemma_built_bytes(&self.trie, toks);
        self.steps.lemma_bytes();
        lemma_build(toks, toks.len() as int);
    }

    /// The tables by name, with their (saturated) sizes, in a fixed order.
    pub closed spec fn mem_entries(&self) -> Seq<(&'static str, usize)> {
        Seq::new(10, |i: int| (Self::mem_names()[i], sat(self.mem_parts()[i]) as usize))
    }

    /// The table names, in the order of `mem_entries`.
    pub open spec fn mem_names() -> Seq<&'static str> {
        seq![
            "token bytes",
            "trie (edges)",
            "tnode_tok",
            "r2node/r2best",
            "r3node/r3best",
            "e2 (2-byte steps)",
            "otab (odd tokens)",
            "npm",
            "split",
            "plk (pair lookup)",
        ]
    }

    /// The entries carry the table names, in order, with each table's saturated size.
    pub proof fn lemma_mem_entries(&self)
        ensures
            self.mem_entries().len() == Self::n_tables(),
            forall|i: int| 0 <= i < Self::n_tables() ==> (#[trigger] self.mem_entries()[i]).0 == Self::mem_names()[i]
                && self.mem_entries()[i].1 == sat(self.mem_parts()[i]),
    {
        self.lemma_mem_nonneg();
    }

    /// Bytes of the built tables (saturated at `usize::MAX`).
    pub fn memory_bytes(&self) -> (r: usize)
        ensures
            r == sat(self.mem_total()),
            self.mem_formulas(),
    {
        proof {
            use_type_invariant(self);
            self.lemma_mem_parts();
        }
        let p = self.parts();
        let mut r: usize = 0;
        let mut i: usize = 0;
        proof {
            self.lemma_mem_nonneg();
            self.lemma_mem_entries();
        }
        while i < 10
            invariant
                i <= 10,
                p@ == self.mem_entries(),
                self.mem_entries().len() == 10,
                self.mem_parts().len() == 10,
                forall|k: int| 0 <= k < 10 ==> self.mem_parts()[k] >= 0,
                forall|k: int| 0 <= k < 10 ==> (#[trigger] self.mem_entries()[k]).1 == sat(self.mem_parts()[k]),
                r == sat(part_sum(self.mem_parts(), i as int)),
            decreases 10 - i,
        {
            proof {
                lemma_part_sum_nonneg(self.mem_parts(), i as int);
                lemma_sat_add(part_sum(self.mem_parts(), i as int), self.mem_parts()[i as int]);
                assert(p@[i as int] == self.mem_entries()[i as int]);
            }
            r = sat_add(r, p[i].1);
            i = i + 1;
        }
        r
    }

    fn parts(&self) -> (r: Vec<(&'static str, usize)>)
        ensures
            r@ == self.mem_entries(),
    {
        let a = sat_add(sat_add(self.all.len(), sat_mul(self.tstart.len(), 4)), self.tlen.len());
        proof {
            lemma_sat3(self.all@.len() as int, (self.tstart@.len() * 4) as int, self.tlen@.len() as int);
        }
        let mut r: Vec<(&'static str, usize)> = Vec::new();
        r.push(("token bytes", a));
        r.push(("trie (edges)", self.trie.edge_memory()));
        r.push(("tnode_tok", self.trie.tok_memory()));
        r.push(("r2node/r2best", self.radix.r2_memory()));
        r.push(("r3node/r3best", self.radix.r3_memory()));
        r.push(("e2 (2-byte steps)", self.steps.e2_memory()));
        r.push(("otab (odd tokens)", self.steps.otab_memory()));
        r.push(("npm", sat_mul(self.npm.len(), 4)));
        r.push(("split", sat_mul(self.split.len(), 8)));
        r.push(("plk (pair lookup)", sat_mul(self.plk.len(), 12)));
        proof {
            assert(r@ =~= self.mem_entries());
        }
        r
    }

    /// The tables and their sizes, largest first; the sizes add up to
    /// `memory_bytes` when nothing saturates.
    pub fn memory_breakdown(&self) -> (r: Vec<(&'static str, usize)>)
        ensures
            sorted_desc(r@),
            r@.to_multiset() == self.mem_entries().to_multiset(),
            self.mem_total() <= usize::MAX ==> sum_sizes(r@) == self.mem_total(),
            self.mem_formulas(),
    {
        proof {
            use_type_invariant(self);
            self.lemma_mem_parts();
        }
        let p = self.parts();
        let ghost pv = p@;
        let r = sort_desc(p);
        proof {
            self.lemma_mem_nonneg();
            self.lemma_mem_entries();
            if self.mem_total() <= usize::MAX {
                let m = self.mem_parts();
                assert forall|i: int| 0 <= i < 10 implies pv[i].1 == m[i] by {
                    lemma_part_sum_le(m, i, 10);
                    assert(pv[i] == self.mem_entries()[i]);
                }
                lemma_sum_sizes_parts(pv, m, 10);
                assert(pv.take(10) =~= pv);
            }
        }
        r
    }
}

/// The sizes of the first `k` entries add up as the parts do.
proof fn lemma_sum_sizes_parts(s: Seq<(&'static str, usize)>, m: Seq<int>, k: int)
    requires
        0 <= k <= s.len(),
        s.len() == m.len(),
        forall|i: int| 0 <= i < k ==> s[i].1 == m[i],
    ensures
        sum_sizes(s.take(k)) == part_sum(m, k),
    decreases k,
{
    if k > 0 {
        assert(s.take(k).drop_last() =~= s.take(k - 1));
        lemma_sum_sizes_parts(s, m, k - 1);
    }
}

/// One part is at most the sum, when all are nonnegative.
proof fn lemma_part_sum_le(m: Seq<int>, i: int, k: int)
    requires
        0 <= i < k <= m.len(),
        forall|j: int| 0 <= j < m.len() ==> m[j] >= 0,
    ensures
        m[i] <= part_sum(m, k),
    decreases k,
{
    lemma_part_sum_nonneg(m, k - 1);
    if i < k - 1 {
        lemma_part_sum_le(m, i, k - 1);
    }
}

/// The sum of the first `k` parts.
pub open spec fn part_sum(m: Seq<int>, k: int) -> int
    decreases k,
{
    if k <= 0 {
        0
    } else {
        part_sum(m, k - 1) + m[k - 1]
    }
}

proof fn lemma_part_sum_nonneg(m: Seq<int>, k: int)
    requires
        0 <= k <= m.len(),
        forall|i: int| 0 <= i < m.len() ==> m[i] >= 0,
    ensures
        part_sum(m, k) >= 0,
    decreases k,
{
    if k > 0 {
        lemma_part_sum_nonneg(m, k - 1);
    }
}


// ---- key mixing ----------------------------------------------------------------

/// The odd 36-bit multiplier of `mix36`.
pub const MIX_MUL: u64 = 0x9_7F4A_7C15u64;

/// Its inverse modulo 2^36.
pub const MIX_INV: u64 = 0x1_9937_733Du64;

/// 36-bit mask.
pub const MASK36: u64 = 0xF_FFFF_FFFFu64;

/// xorshift, multiply by an odd constant modulo 2^36, xorshift.
pub open spec fn mix36_spec(k: u64) -> u64 {
    let m = k ^ (k >> 18u64);
    let p = vstd::wrapping::u64_specs::wrapping_mul(m, MIX_MUL) & MASK36;
    p ^ (p >> 18u64)
}

/// A bijective mix of 36-bit keys (xorshift, odd multiply, xorshift).
pub fn mix36(k: u64) -> (r: u64)
    ensures
        r == mix36_spec(k),
{
    let m = k ^ (k >> 18u64);
    let m = m.wrapping_mul((0x9E37_79B9_7F4A_7C15u64 & 0xF_FFFF_FFFFu64) | 1) & 0xF_FFFF_FFFFu64;
    proof {
        assert((0x9E37_79B9_7F4A_7C15u64 & 0xF_FFFF_FFFFu64) | 1 == MIX_MUL) by (bit_vector);
    }
    m ^ (m >> 18u64)
}

/// The inverse of `mix36` on 36-bit keys.
pub open spec fn unmix36(y: u64) -> u64 {
    let p = y ^ (y >> 18u64);
    let m = vstd::wrapping::u64_specs::wrapping_mul(p, MIX_INV) & MASK36;
    m ^ (m >> 18u64)
}

/// `mix36` loses nothing on 36-bit keys: `unmix36` undoes it, so distinct keys
/// stay distinct.
pub proof fn law_mix36_inverse(k: u64)
    requires
        k <= MASK36,
    ensures
        unmix36(mix36_spec(k)) == k,
{
    let m = k ^ (k >> 18u64);
    let w = vstd::wrapping::u64_specs::wrapping_mul(m, MIX_MUL);
    assert(w == ((m as nat * MIX_MUL as nat) % 0x1_0000_0000_0000_0000nat) as u64);
    let p = w & MASK36;
    let y = p ^ (p >> 18u64);
    assert(m <= MASK36) by (bit_vector)
        requires
            k <= 0xF_FFFF_FFFFu64,
            m == k ^ (k >> 18u64),
    ;
    assert(y ^ (y >> 18u64) == p) by (bit_vector)
        requires
            p == w & 0xF_FFFF_FFFFu64,
            y == p ^ (p >> 18u64),
    ;
    let w2 = vstd::wrapping::u64_specs::wrapping_mul(p, MIX_INV);
    assert(w2 == ((p as nat * MIX_INV as nat) % 0x1_0000_0000_0000_0000nat) as u64);
    assert(w2 & MASK36 == m) by (bit_vector)
        requires
            m <= 0xF_FFFF_FFFFu64,
            w == ((m as nat * 0x9_7F4A_7C15nat) % 0x1_0000_0000_0000_0000nat) as u64,
            p == w & 0xF_FFFF_FFFFu64,
            w2 == ((p as nat * 0x1_9937_733Dnat) % 0x1_0000_0000_0000_0000nat) as u64,
    ;
    assert(m ^ (m >> 18u64) == k) by (bit_vector)
        requires
            k <= 0xF_FFFF_FFFFu64,
            m == k ^ (k >> 18u64),
    ;
}

} // verus!
