//! The encoding model: greedy longest-match tiling, checked pairwise, with the
//! backtracking search as the fallback.
use vstd::prelude::*;

use crate::trie::prefix_of;
use crate::vocab::Vocab;
use crate::vocab::{
    covers, find_tok, lemma_longest_tok, lemma_lpl, lpl, next_match_spec, next_prefix_spec, toks_wf,
    valid_pair, RANK_MAX, pair_lookup, pairs_of, split_of,
};

verus! {

/// The bytes of `ids`, concatenated.
pub open spec fn flat(toks: Seq<Seq<u8>>, ids: Seq<u32>) -> Seq<u8>
    decreases ids.len(),
{
    if ids.len() == 0 {
        Seq::empty()
    } else {
        flat(toks, ids.drop_last()) + toks[ids.last() as int]
    }
}

/// Every adjacent pair of `ids` is merge-compatible.
pub open spec fn pairs_valid(toks: Seq<Seq<u8>>, ids: Seq<u32>) -> bool {
    forall|i: int| 0 <= i < ids.len() - 1 ==> #[trigger] valid_pair(toks, ids[i], ids[i + 1])
}

/// All ids name tokens.
pub open spec fn ids_in(toks: Seq<Seq<u8>>, ids: Seq<u32>) -> bool {
    forall|i: int| 0 <= i < ids.len() ==> (#[trigger] ids[i] as int) < toks.len()
}

/// Greedy longest-match tiling of `text[pos..]`.
pub open spec fn greedy_from(toks: Seq<Seq<u8>>, text: Seq<u8>, pos: int) -> Seq<u32>
    decreases text.len() - pos,
{
    if pos < 0 || pos >= text.len() {
        Seq::empty()
    } else {
        let t = next_match_spec(toks, text.skip(pos));
        if t == RANK_MAX || t as int >= toks.len() || toks[t as int].len() == 0 || pos + toks[t as int].len() > text.len() {
            Seq::empty()
        } else {
            seq![t] + greedy_from(toks, text, pos + toks[t as int].len())
        }
    }
}

pub open spec fn greedy(toks: Seq<Seq<u8>>, text: Seq<u8>) -> Seq<u32> {
    greedy_from(toks, text, 0)
}

/// Number of set bits.
pub open spec fn count_true(bits: Seq<bool>) -> nat
    decreases bits.len(),
{
    if bits.len() == 0 {
        0
    } else {
        count_true(bits.drop_last()) + if bits.last() { 1nat } else { 0nat }
    }
}

pub proof fn lemma_count_true_clear(bits: Seq<bool>, p: int)
    requires
        0 <= p < bits.len(),
        bits[p],
    ensures
        count_true(bits.update(p, false)) + 1 == count_true(bits),
    decreases bits.len(),
{
    let b2 = bits.update(p, false);
    if p == bits.len() - 1 {
        assert(b2.drop_last() =~= bits.drop_last());
    } else {
        assert(b2.drop_last() =~= bits.drop_last().update(p, false));
        lemma_count_true_clear(bits.drop_last(), p);
    }
}

/// The backtracking search from state (`stack`, `bits`, `pos`, candidate `cand`).
///
/// `bits[p]` is cleared once no tiling of `text[p..]` was found after the
/// token ending at `p`. At each position the candidates are tried longest
/// first; a candidate is taken when the position after it is not ruled out
/// and it is compatible with the token before it. When every candidate fails,
/// the position is ruled out and the previous token is retried shorter. The
/// search ends with the tiling found, or with nothing once position 0 itself
/// is ruled out.
pub open spec fn bt_run(toks: Seq<Seq<u8>>, text: Seq<u8>, stack: Seq<u32>, bits: Seq<bool>, pos: int, cand: u32) -> Seq<u32>
    decreases count_true(bits), text.len() - pos, toks[cand as int].len(),
{
    if cand == RANK_MAX {
        stack
    } else if cand as int >= toks.len() || toks[cand as int].len() == 0 || pos < 0 || pos + toks[cand as int].len() > text.len()
        || bits.len() != text.len() + 1 {
        stack
    } else {
        let last = if stack.len() > 0 { stack.last() } else { RANK_MAX };
        let end = pos + toks[cand as int].len();
        if bits[end] && (last == RANK_MAX || valid_pair(toks, last, cand)) {
            let nc = if end < text.len() { next_match_spec(toks, text.skip(end)) } else { RANK_MAX };
            bt_run(toks, text, stack.push(cand), bits, end, nc)
        } else {
            let shorter = next_prefix_spec(toks, cand as int);
            if shorter != RANK_MAX {
                if (shorter as int) < toks.len() && toks[shorter as int].len() < toks[cand as int].len() {
                    bt_run(toks, text, stack, bits, pos, shorter)
                } else {
                    stack
                }
            } else if !bits[pos] {
                stack
            } else {
                proof {
                    lemma_count_true_clear(bits, pos);
                }
                let bits2 = bits.update(pos, false);
                if stack.len() > 0 && (last as int) < toks.len() {
                    bt_run(toks, text, stack.drop_last(), bits2, pos - toks[last as int].len(), last)
                } else {
                    bt_run(toks, text, stack, bits2, pos, RANK_MAX)
                }
            }
        }
    }
}

/// The search from its start on `text`.
pub open spec fn backtrack_spec(toks: Seq<Seq<u8>>, text: Seq<u8>) -> Seq<u32> {
    bt_run(toks, text, Seq::empty(), Seq::new((text.len() + 1) as nat, |i: int| true), 0, next_match_spec(toks, text))
}

/// The encoding of one pretoken: its greedy longest-match tiling when every
/// adjacent pair in it is compatible, the backtracking search otherwise.
pub open spec fn encode_piece(toks: Seq<Seq<u8>>, text: Seq<u8>) -> Seq<u32> {
    if text.len() == 0 {
        Seq::empty()
    } else if pairs_valid(toks, greedy(toks, text)) {
        greedy(toks, text)
    } else {
        backtrack_spec(toks, text)
    }
}


pub proof fn lemma_flat_push(toks: Seq<Seq<u8>>, ids: Seq<u32>, t: u32)
    ensures
        flat(toks, ids.push(t)) == flat(toks, ids) + toks[t as int],
{
    assert(ids.push(t).drop_last() =~= ids);
}

pub proof fn lemma_flat_single(toks: Seq<Seq<u8>>, t: u32)
    ensures
        flat(toks, seq![t]) == toks[t as int],
{
    assert(seq![t].drop_last() =~= Seq::<u32>::empty());
    assert(flat(toks, Seq::<u32>::empty()) == Seq::<u8>::empty());
    assert(Seq::<u8>::empty() + toks[t as int] =~= toks[t as int]);
}

pub proof fn lemma_flat_concat(toks: Seq<Seq<u8>>, a: Seq<u32>, b: Seq<u32>)
    ensures
        flat(toks, a + b) == flat(toks, a) + flat(toks, b),
    decreases b.len(),
{
    if b.len() == 0 {
        assert(a + b =~= a);
        assert(flat(toks, a) + flat(toks, b) =~= flat(toks, a));
    } else {
        assert((a + b).drop_last() =~= a + b.drop_last());
        lemma_flat_concat(toks, a, b.drop_last());
        assert(flat(toks, a) + flat(toks, b.drop_last()) + toks[b.last() as int] =~= flat(toks, a) + (flat(toks, b.drop_last()) + toks[b.last() as int]));
    }
}

pub proof fn lemma_flat_len_prefix(toks: Seq<Seq<u8>>, ids: Seq<u32>, i: int)
    requires
        0 <= i <= ids.len(),
    ensures
        flat(toks, ids.take(i)).len() <= flat(toks, ids).len(),
        flat(toks, ids) == flat(toks, ids.take(i)) + flat(toks, ids.skip(i)),
{
    assert(ids =~= ids.take(i) + ids.skip(i));
    lemma_flat_concat(toks, ids.take(i), ids.skip(i));
}

/// Under `covers`, the longest match at any position exists and fits.
pub proof fn lemma_next_match_covers(toks: Seq<Seq<u8>>, text: Seq<u8>, pos: int)
    requires
        toks_wf(toks),
        covers(toks, text),
        0 <= pos < text.len(),
    ensures
        ({
            let s = text.skip(pos);
            let t = next_match_spec(toks, s);
            &&& t != RANK_MAX
            &&& (t as int) < toks.len()
            &&& 1 <= toks[t as int].len()
            &&& pos + toks[t as int].len() <= text.len()
            &&& prefix_of(toks[t as int], s)
            &&& toks[t as int] == text.subrange(pos, pos + toks[t as int].len())
        }),
{
    let s = text.skip(pos);
    lemma_lpl(toks, s, s.len() as int);
    assert(s.take(1) =~= seq![text[pos]]);
    assert(find_tok(toks, s.take(1)) != RANK_MAX);
    lemma_longest_tok(toks, s, s.len() as int);
    let l = lpl(toks, s, s.len() as int);
    assert(s.take(l) =~= text.subrange(pos, pos + l));
}

/// Greedy tiling under `covers`: every id names a token and the bytes are the text.
pub proof fn lemma_greedy_tiles(toks: Seq<Seq<u8>>, text: Seq<u8>, pos: int)
    requires
        toks_wf(toks),
        covers(toks, text),
        0 <= pos <= text.len(),
    ensures
        flat(toks, greedy_from(toks, text, pos)) == text.skip(pos),
        ids_in(toks, greedy_from(toks, text, pos)),
    decreases text.len() - pos,
{
    if pos == text.len() {
        assert(text.skip(pos) =~= Seq::<u8>::empty());
    } else {
        lemma_next_match_covers(toks, text, pos);
        let t = next_match_spec(toks, text.skip(pos));
        let l = toks[t as int].len() as int;
        lemma_greedy_tiles(toks, text, pos + l);
        let rest = greedy_from(toks, text, pos + l);
        lemma_flat_concat(toks, seq![t], rest);
        lemma_flat_single(toks, t);
        assert(text.skip(pos) =~= text.subrange(pos, pos + l) + text.skip(pos + l));
        let g = greedy_from(toks, text, pos);
        assert(g == seq![t] + rest);
        assert forall|i: int| 0 <= i < g.len() implies (#[trigger] g[i] as int) < toks.len() by {
            if i > 0 {
                assert(g[i] == rest[i - 1]);
            }
        }
    }
}


/// Every position reached along `stack` is still open in `bits`.
pub open spec fn path_open(toks: Seq<Seq<u8>>, stack: Seq<u32>, bits: Seq<bool>) -> bool {
    forall|i: int| 0 <= i <= stack.len() ==> #[trigger] bits[flat(toks, stack.take(i)).len() as int]
}

/// The invariant of the search states reachable on `text`.
pub open spec fn bt_inv(toks: Seq<Seq<u8>>, text: Seq<u8>, stack: Seq<u32>, bits: Seq<bool>, pos: int, cand: u32) -> bool {
    &&& toks_wf(toks)
    &&& covers(toks, text)
    &&& bits.len() == text.len() + 1
    &&& 0 <= pos <= text.len()
    &&& ids_in(toks, stack)
    &&& flat(toks, stack) == text.take(pos)
    &&& pairs_valid(toks, stack)
    &&& cand != RANK_MAX ==> {
        &&& (cand as int) < toks.len()
        &&& pos + toks[cand as int].len() <= text.len()
        &&& toks[cand as int] == text.subrange(pos, pos + toks[cand as int].len())
        &&& bits[pos]
        &&& path_open(toks, stack, bits)
    }
    &&& cand == RANK_MAX ==> (pos == text.len() || stack.len() == 0)
}

/// Earlier positions along a stack lie strictly before its end.
pub proof fn lemma_flat_take_lt(toks: Seq<Seq<u8>>, stack: Seq<u32>, i: int)
    requires
        toks_wf(toks),
        ids_in(toks, stack),
        0 <= i < stack.len(),
    ensures
        flat(toks, stack.take(i)).len() < flat(toks, stack).len(),
    decreases stack.len(),
{
    let d = stack.drop_last();
    assert(ids_in(toks, d)) by {
        assert forall|k: int| 0 <= k < d.len() implies (#[trigger] d[k] as int) < toks.len() by {
            assert(d[k] == stack[k]);
        }
    }
    assert(stack.take(i) == d.take(i)) by {
        assert(stack.take(i) =~= d.take(i));
    }
    assert((stack.last() as int) < toks.len()) by {
        assert(stack.last() == stack[stack.len() - 1]);
    }
    if i < d.len() {
        lemma_flat_take_lt(toks, d, i);
    } else {
        assert(d.take(i) =~= d);
    }
}

pub proof fn lemma_pairs_valid_push(toks: Seq<Seq<u8>>, stack: Seq<u32>, t: u32)
    requires
        pairs_valid(toks, stack),
        stack.len() > 0 ==> valid_pair(toks, stack.last(), t),
    ensures
        pairs_valid(toks, stack.push(t)),
{
    let s2 = stack.push(t);
    assert forall|i: int| 0 <= i < s2.len() - 1 implies #[trigger] valid_pair(toks, s2[i], s2[i + 1]) by {
        if i < stack.len() - 1 {
            assert(s2[i] == stack[i] && s2[i + 1] == stack[i + 1]);
        } else {
            assert(s2[i] == stack.last());
        }
    }
}

pub proof fn lemma_pairs_valid_drop_last(toks: Seq<Seq<u8>>, stack: Seq<u32>)
    requires
        pairs_valid(toks, stack),
        stack.len() > 0,
    ensures
        pairs_valid(toks, stack.drop_last()),
{
    let d = stack.drop_last();
    assert forall|i: int| 0 <= i < d.len() - 1 implies #[trigger] valid_pair(toks, d[i], d[i + 1]) by {
        assert(d[i] == stack[i] && d[i + 1] == stack[i + 1]);
    }
}

/// One search step keeps the invariant.
pub proof fn lemma_bt_step_push(toks: Seq<Seq<u8>>, text: Seq<u8>, stack: Seq<u32>, bits: Seq<bool>, pos: int, cand: u32)
    requires
        bt_inv(toks, text, stack, bits, pos, cand),
        cand != RANK_MAX,
        bits[pos + toks[cand as int].len()],
        stack.len() > 0 ==> valid_pair(toks, stack.last(), cand),
    ensures
        ({
            let end = pos + toks[cand as int].len();
            let nc = if end < text.len() { next_match_spec(toks, text.skip(end)) } else { RANK_MAX };
            bt_inv(toks, text, stack.push(cand), bits, end, nc)
        }),
{
    let end = pos + toks[cand as int].len();
    let s2 = stack.push(cand);
    lemma_flat_push(toks, stack, cand);
    assert(text.take(end) =~= text.take(pos) + text.subrange(pos, end));
    lemma_pairs_valid_push(toks, stack, cand);
    assert(ids_in(toks, s2)) by {
        assert forall|k: int| 0 <= k < s2.len() implies (#[trigger] s2[k] as int) < toks.len() by {
            if k < stack.len() {
                assert(s2[k] == stack[k]);
            }
        }
    }
    if end < text.len() {
        lemma_next_match_covers(toks, text, end);
        assert forall|i: int| 0 <= i <= s2.len() implies #[trigger] bits[flat(toks, s2.take(i)).len() as int] by {
            if i <= stack.len() {
                assert(s2.take(i) =~= stack.take(i));
            } else {
                assert(s2.take(i) =~= s2);
            }
        }
    }
}

pub proof fn lemma_bt_step_shorter(toks: Seq<Seq<u8>>, text: Seq<u8>, stack: Seq<u32>, bits: Seq<bool>, pos: int, cand: u32)
    requires
        bt_inv(toks, text, stack, bits, pos, cand),
        cand != RANK_MAX,
        next_prefix_spec(toks, cand as int) != RANK_MAX,
    ensures
        ({
            let sh = next_prefix_spec(toks, cand as int);
            &&& (sh as int) < toks.len()
            &&& toks[sh as int].len() < toks[cand as int].len()
            &&& bt_inv(toks, text, stack, bits, pos, sh)
        }),
{
    let tc = toks[cand as int];
    lemma_longest_tok(toks, tc, tc.len() - 1);
    let sh = next_prefix_spec(toks, cand as int);
    let l = lpl(toks, tc, tc.len() - 1);
    assert(toks[sh as int] == tc.take(l));
    assert(text.subrange(pos, pos + l) =~= tc.take(l));
}

pub proof fn lemma_bt_step_clear(toks: Seq<Seq<u8>>, text: Seq<u8>, stack: Seq<u32>, bits: Seq<bool>, pos: int, cand: u32)
    requires
        bt_inv(toks, text, stack, bits, pos, cand),
        cand != RANK_MAX,
    ensures
        stack.len() > 0 ==> ({
            let last = stack.last();
            &&& (last as int) < toks.len()
            &&& bt_inv(toks, text, stack.drop_last(), bits.update(pos, false), pos - toks[last as int].len(), last)
        }),
        stack.len() == 0 ==> bt_inv(toks, text, stack, bits.update(pos, false), pos, RANK_MAX),
{
    let b2 = bits.update(pos, false);
    if stack.len() > 0 {
        let last = stack.last();
        let d = stack.drop_last();
        assert(last == stack[stack.len() - 1]);
        assert(stack =~= d.push(last));
        lemma_flat_push(toks, d, last);
        let p2 = pos - toks[last as int].len();
        assert(flat(toks, stack) == flat(toks, d.push(last)));
        assert(flat(toks, stack).len() == pos);
        assert(flat(toks, d).len() == p2);
        assert(text.take(pos) =~= text.take(p2) + text.subrange(p2, pos));
        assert(flat(toks, d) =~= text.take(p2)) by {
            assert(flat(toks, d) + toks[last as int] == text.take(p2) + text.subrange(p2, pos));
            assert(flat(toks, d) =~= (flat(toks, d) + toks[last as int]).subrange(0, p2));
            assert(text.take(p2) =~= (text.take(p2) + text.subrange(p2, pos)).subrange(0, p2));
        }
        assert(toks[last as int] =~= text.subrange(p2, pos)) by {
            assert(toks[last as int] =~= (flat(toks, d) + toks[last as int]).subrange(p2, pos));
            assert(text.subrange(p2, pos) =~= (text.take(p2) + text.subrange(p2, pos)).subrange(p2, pos));
        }
        lemma_pairs_valid_drop_last(toks, stack);
        assert(ids_in(toks, d)) by {
            assert forall|k: int| 0 <= k < d.len() implies (#[trigger] d[k] as int) < toks.len() by {
                assert(d[k] == stack[k]);
            }
        }
        // earlier positions along the path stay open
        assert forall|i: int| 0 <= i <= d.len() implies #[trigger] b2[flat(toks, d.take(i)).len() as int] by {
            assert(d.take(i) =~= stack.take(i));
            lemma_flat_take_lt(toks, stack, i);
            assert(flat(toks, stack).len() == pos);
            assert(bits[flat(toks, stack.take(i)).len() as int]);
        }
        assert(b2[p2]) by {
            assert(d.take(d.len() as int) =~= d);
        }
    }
}

/// The search ends with nothing, or with a compatible tiling of the text.
pub proof fn lemma_bt_result(toks: Seq<Seq<u8>>, text: Seq<u8>, stack: Seq<u32>, bits: Seq<bool>, pos: int, cand: u32)
    requires
        bt_inv(toks, text, stack, bits, pos, cand),
    ensures
        ({
            let r = bt_run(toks, text, stack, bits, pos, cand);
            r.len() == 0 || (flat(toks, r) == text && pairs_valid(toks, r) && ids_in(toks, r))
        }),
    decreases count_true(bits), text.len() - pos, toks[cand as int].len(),
{
    if cand == RANK_MAX {
        assert(text.take(text.len() as int) =~= text);
    } else {
        let last = if stack.len() > 0 { stack.last() } else { RANK_MAX };
        let end = pos + toks[cand as int].len();
        if bits[end] && (last == RANK_MAX || valid_pair(toks, last, cand)) {
            lemma_bt_step_push(toks, text, stack, bits, pos, cand);
            let nc = if end < text.len() { next_match_spec(toks, text.skip(end)) } else { RANK_MAX };
            lemma_bt_result(toks, text, stack.push(cand), bits, end, nc);
        } else {
            let shorter = next_prefix_spec(toks, cand as int);
            if shorter != RANK_MAX {
                lemma_bt_step_shorter(toks, text, stack, bits, pos, cand);
                lemma_bt_result(toks, text, stack, bits, pos, shorter);
            } else {
                lemma_count_true_clear(bits, pos);
                lemma_bt_step_clear(toks, text, stack, bits, pos, cand);
                let bits2 = bits.update(pos, false);
                if stack.len() > 0 {
                    lemma_bt_result(toks, text, stack.drop_last(), bits2, pos - toks[last as int].len(), last);
                } else {
                    lemma_bt_result(toks, text, stack, bits2, pos, RANK_MAX);
                }
            }
        }
    }
}


/// Append `ids` to `out`.
pub fn append_ids(out: &mut Vec<u32>, ids: &Vec<u32>)
    ensures
        final(out)@ == old(out)@ + ids@,
{
    let ghost start = out@;
    let mut i: usize = 0;
    while i < ids.len()
        invariant
            i <= ids@.len(),
            out@ == start + ids@.take(i as int),
        decreases ids@.len() - i,
    {
        out.push(ids[i]);
        i = i + 1;
        proof {
            assert(ids@.take(i as int) =~= ids@.take(i - 1).push(ids@[i - 1]));
        }
    }
    proof {
        assert(ids@.take(ids@.len() as int) =~= ids@);
    }
}

impl Vocab {
    /// Backtracking search for a compatible tiling of `text` (see `bt_run`).
    fn backtrack(&self, text: &[u8], first: u32) -> (r: Vec<u32>)
        requires
            covers(self@, text@),
            text@.len() > 0,
            first == next_match_spec(self@, text@),
        ensures
            r@ == backtrack_spec(self@, text@),
    {
        let ghost v = self@;
        let ghost tx = text@;
        self.well_formed();
        let len = text.len();
        let mut toks: Vec<u32> = Vec::new();
        let mut bf: Vec<bool> = Vec::new();
        bf.push(true);
        let mut z: usize = 0;
        while z < len
            invariant
                z <= len,
                len == tx.len(),
                bf@.len() == z + 1,
                forall|i: int| 0 <= i < z + 1 ==> #[trigger] bf@[i],
            decreases len - z,
        {
            bf.push(true);
            z = z + 1;
        }
        proof {
            assert(bf@ =~= Seq::new((tx.len() + 1) as nat, |i: int| true));
            lemma_next_match_covers(v, tx, 0);
            assert(tx.skip(0) =~= tx);
            assert(tx.take(0) =~= Seq::<u8>::empty());
            assert(flat(v, Seq::<u32>::empty()) == Seq::<u8>::empty());
            assert forall|i: int| 0 <= i <= 0 implies #[trigger] bf@[flat(v, Seq::<u32>::empty().take(i)).len() as int] by {
                assert(Seq::<u32>::empty().take(i) =~= Seq::<u32>::empty());
            }
        }
        let ghost target = backtrack_spec(v, tx);
        let mut pos: usize = 0;
        let mut next_token = first;
        while next_token != RANK_MAX
            invariant
                v == self@,
                tx == text@,
                len == tx.len(),
                bt_inv(v, tx, toks@, bf@, pos as int, next_token),
                bt_run(v, tx, toks@, bf@, pos as int, next_token) == target,
            decreases count_true(bf@), len - pos,
        {
            let ghost c0 = count_true(bf@);
            let ghost p0 = pos as int;
            let mut token = next_token;
            let last: u32 = if toks.len() > 0 { toks[toks.len() - 1] } else { RANK_MAX };
            proof {
                if toks@.len() > 0 {
                    assert(toks@.last() == toks@[toks@.len() - 1]);
                }
            }
            loop
                invariant_except_break
                    v == self@,
                    tx == text@,
                    len == tx.len(),
                    pos as int == p0,
                    count_true(bf@) == c0,
                    token != RANK_MAX,
                    last == (if toks@.len() > 0 { toks@.last() } else { RANK_MAX }),
                    bt_inv(v, tx, toks@, bf@, pos as int, token),
                    bt_run(v, tx, toks@, bf@, pos as int, token) == target,
                ensures
                    bt_inv(v, tx, toks@, bf@, pos as int, next_token),
                    bt_run(v, tx, toks@, bf@, pos as int, next_token) == target,
                    count_true(bf@) < c0 || (count_true(bf@) == c0 && pos > p0),
                decreases v[token as int].len(),
            {
                let end = pos + self.token_len(token) as usize;
                if bf[end] && (last == RANK_MAX || self.is_valid_token_pair(last, token)) {
                    proof {
                        lemma_bt_step_push(v, tx, toks@, bf@, pos as int, token);
                    }
                    toks.push(token);
                    pos = end;
                    next_token = if pos < len {
                        self.next_match_at(text, pos, len)
                    } else {
                        RANK_MAX
                    };
                    break;
                }
                let shorter = self.next_prefix(token);
                if shorter != RANK_MAX {
                    proof {
                        lemma_bt_step_shorter(v, tx, toks@, bf@, pos as int, token);
                    }
                    token = shorter;
                    continue;
                }
                proof {
                    lemma_bt_step_clear(v, tx, toks@, bf@, pos as int, token);
                    lemma_count_true_clear(bf@, pos as int);
                }
                bf.set(pos, false);
                if toks.len() > 0 {
                    toks.pop();
                    pos = pos - self.token_len(last) as usize;
                }
                next_token = last;
                break;
            }
        }
        toks
    }

    /// Append the encoding of one pretoken, given `first`, its longest
    /// leading token (lets a caller reuse a walk it already did).
    pub fn encode_with_first(&self, text: &[u8], first: u32, out: &mut Vec<u32>)
        requires
            covers(self@, text@),
            first == next_match_spec(self@, text@),
        ensures
            final(out)@ == old(out)@ + encode_piece(self@, text@),
    {
        let ghost v = self@;
        let ghost tx = text@;
        let len = text.len();
        if len == 0 {
            proof {
                assert(old(out)@ + encode_piece(v, tx) =~= old(out)@);
            }
            return;
        }
        self.well_formed();
        proof {
            assert(tx.skip(0) =~= tx);
        }
        let ghost start = out@;
        let ghost g = greedy(v, tx);
        let out_start = out.len();
        let mut pos: usize = 0;
        let mut last: u32 = RANK_MAX;
        let mut nt: u32 = first;
        let mut ok = true;
        let ghost mut emitted: Seq<u32> = Seq::empty();
        proof {
            assert(g =~= emitted + greedy_from(v, tx, 0));
        }
        while pos < len
            invariant_except_break
                v == self@,
                tx == text@,
                len == tx.len(),
                toks_wf(v),
                covers(v, tx),
                pos <= len,
                out@ == start + emitted,
                out_start == start.len(),
                g == emitted + greedy_from(v, tx, pos as int),
                last == (if emitted.len() > 0 { emitted.last() } else { RANK_MAX }),
                pairs_valid(v, emitted),
                ids_in(v, emitted),
                pos < len ==> nt == next_match_spec(v, tx.skip(pos as int)),
                ok,
            ensures
                out_start == start.len(),
                out@.len() >= out_start,
                out@.take(out_start as int) == start,
                ok ==> (out@ == start + g && pairs_valid(v, g)),
                !ok ==> !pairs_valid(v, g),
            decreases len - pos,
        {
            proof {
                lemma_next_match_covers(v, tx, pos as int);
            }
            let token = nt;
            let ghost rest = greedy_from(v, tx, pos as int);
            proof {
                assert(rest[0] == token);
                assert(out@.take(out_start as int) =~= start);
                if emitted.len() > 0 {
                    assert(emitted.last() == emitted[emitted.len() - 1]);
                }
            }
            if last != RANK_MAX && !self.is_valid_token_pair(last, token) {
                ok = false;
                proof {
                    let i = emitted.len() - 1;
                    assert(g[i] == emitted.last());
                    assert(g[i + 1] == token);
                    assert(!valid_pair(v, g[i], g[i + 1]));
                }
                break;
            }
            out.push(token);
            proof {
                lemma_pairs_valid_push(v, emitted, token);
                let old_em = emitted;
                emitted = emitted.push(token);
                assert(g =~= emitted + greedy_from(v, tx, pos + v[token as int].len()));
                assert forall|k: int| 0 <= k < emitted.len() implies (#[trigger] emitted[k] as int) < v.len() by {
                    if k < old_em.len() {
                        assert(emitted[k] == old_em[k]);
                    }
                }
            }
            last = token;
            pos = pos + self.token_len(token) as usize;
            nt = if pos < len {
                self.next_match_at(text, pos, len)
            } else {
                RANK_MAX
            };
        }
        if ok {
            proof {
                assert(greedy_from(v, tx, len as int) =~= Seq::<u32>::empty());
            }
            return;
        }
        out.truncate(out_start);
        assert(out@ == start);
        let toks = self.backtrack(text, first);
        append_ids(out, &toks);
    }

    /// Append the encoding of one pretoken: the greedy longest-match tiling
    /// when its adjacent pairs are all compatible, else the backtracking search.
    pub fn encode(&self, text: &[u8], out: &mut Vec<u32>)
        requires
            covers(self@, text@),
        ensures
            final(out)@ == old(out)@ + encode_piece(self@, text@),
    {
        if text.len() == 0 {
            proof {
                assert(old(out)@ + encode_piece(self@, text@) =~= old(out)@);
            }
            return;
        }
        let first = self.next_match(text);
        self.encode_with_first(text, first, out);
    }
}


/// What the encoding of one pretoken is: nothing, or a compatible tiling of
/// it; and the greedy longest-match tiling whenever that one is compatible.
pub proof fn lemma_encode_piece(toks: Seq<Seq<u8>>, text: Seq<u8>)
    requires
        toks_wf(toks),
        covers(toks, text),
    ensures
        ({
            let r = encode_piece(toks, text);
            &&& r.len() == 0 || (flat(toks, r) == text && pairs_valid(toks, r))
            &&& ids_in(toks, r)
            &&& text.len() == 0 ==> r.len() == 0
            &&& (text.len() > 0 && pairs_valid(toks, greedy(toks, text))) ==> r == greedy(toks, text)
        }),
{
    if text.len() > 0 {
        lemma_greedy_tiles(toks, text, 0);
        assert(text.skip(0) =~= text);
        if !pairs_valid(toks, greedy(toks, text)) {
            let bits = Seq::new((text.len() + 1) as nat, |i: int| true);
            lemma_next_match_covers(toks, text, 0);
            assert(text.take(0) =~= Seq::<u8>::empty());
            assert(flat(toks, Seq::<u32>::empty()) == Seq::<u8>::empty());
            assert forall|i: int| 0 <= i <= 0 implies #[trigger] bits[flat(toks, Seq::<u32>::empty().take(i)).len() as int] by {
                assert(Seq::<u32>::empty().take(i) =~= Seq::<u32>::empty());
            }
            lemma_bt_result(toks, text, Seq::empty(), bits, 0, next_match_spec(toks, text));
        }
    }
}

/// No two neighbours in an encoding merge into a token, and no merge across
/// their seam that ranks before a side is left unmade: the right part of a
/// larger left token never merges with its right neighbour into a token
/// ranked below it, nor a left token with the left part of a larger right
/// neighbour into a token ranked at most that neighbour.
pub proof fn law_encoding_respects_merges(toks: Seq<Seq<u8>>, text: Seq<u8>, i: int)
    requires
        toks_wf(toks),
        covers(toks, text),
        0 <= i < encode_piece(toks, text).len() - 1,
    ensures
        ({
            let r = encode_piece(toks, text);
            let t1 = r[i];
            let t2 = r[i + 1];
            let sp = split_of(toks);
            let pm = pairs_of(toks);
            &&& pair_lookup(pm, t1, t2) == RANK_MAX
            &&& !(t1 > t2 && (t1 as int) < sp.len() && sp[t1 as int].1 != t1 && pair_lookup(pm, sp[t1 as int].1, t2) != RANK_MAX
                && pair_lookup(pm, sp[t1 as int].1, t2) < t1)
            &&& !(t1 <= t2 && (t2 as int) < sp.len() && sp[t2 as int].0 != t2 && pair_lookup(pm, t1, sp[t2 as int].0) != RANK_MAX
                && pair_lookup(pm, t1, sp[t2 as int].0) <= t2)
        }),
{
    lemma_encode_piece(toks, text);
    let r = encode_piece(toks, text);
    assert(valid_pair(toks, r[i], r[i + 1]));
    if pair_lookup(pairs_of(toks), r[i], r[i + 1]) != RANK_MAX {
        crate::vocab::law_merged_pair_invalid(toks, r[i], r[i + 1]);
    }
    crate::vocab::law_seam_merge_blocks_pair(toks, r[i], r[i + 1]);
}

/// A token `l` bytes long at the start of `s` (with `l <= j`) makes the
/// longest match up to `j` at least that long.
proof fn lemma_lpl_ge(toks: Seq<Seq<u8>>, s: Seq<u8>, j: int, l: int)
    requires
        1 <= l <= j,
        l <= s.len(),
        find_tok(toks, s.take(l)) != RANK_MAX,
    ensures
        lpl(toks, s, j) >= l,
    decreases j,
{
    if j > l {
        if !(j <= s.len() && find_tok(toks, s.take(j)) != RANK_MAX) {
            lemma_lpl_ge(toks, s, j - 1, l);
        }
    }
}

/// The search states from which the two-token split `u v` of `text` (at `k`)
/// is still reachable: the positions `k` and the end are open, and either the
/// first token on the stack is longer than `u`, or the stack is empty and the
/// candidate is a token at least as long as `u`, or `u` is taken and `v` is
/// the candidate.
pub open spec fn split_reachable(
    toks: Seq<Seq<u8>>,
    text: Seq<u8>,
    stack: Seq<u32>,
    bits: Seq<bool>,
    pos: int,
    cand: u32,
    k: int,
) -> bool {
    let u = find_tok(toks, text.take(k));
    let v = find_tok(toks, text.skip(k));
    &&& bt_inv(toks, text, stack, bits, pos, cand)
    &&& 0 < k < text.len()
    &&& u != RANK_MAX
    &&& v != RANK_MAX
    &&& valid_pair(toks, u, v)
    &&& bits[k]
    &&& bits[text.len() as int]
    &&& {
        ||| (stack.len() > 0 && toks[stack[0] as int].len() > k && stack[0] == find_tok(toks, toks[stack[0] as int]))
        ||| (stack.len() == 0 && cand != RANK_MAX && toks[cand as int].len() >= k && cand == find_tok(toks, toks[cand as int]))
        ||| (stack == seq![u] && pos == k && cand == v)
    }
}

/// From such a state the search ends with a tiling.
proof fn lemma_bt_split(toks: Seq<Seq<u8>>, text: Seq<u8>, stack: Seq<u32>, bits: Seq<bool>, pos: int, cand: u32, k: int)
    requires
        split_reachable(toks, text, stack, bits, pos, cand, k),
    ensures
        bt_run(toks, text, stack, bits, pos, cand).len() > 0,
    decreases count_true(bits), text.len() - pos, toks[cand as int].len(),
{
    let u = find_tok(toks, text.take(k));
    let v = find_tok(toks, text.skip(k));
    crate::vocab::lemma_find_tok(toks, text.take(k));
    crate::vocab::lemma_find_tok(toks, text.skip(k));
    if stack.len() > 0 {
        // the stack spells text[..pos], so pos is past its first token
        lemma_flat_len_prefix(toks, stack, 1);
        assert(stack.take(1) =~= seq![stack[0]]);
        lemma_flat_single(toks, stack[0]);
    }
    if cand == RANK_MAX {
        return;
    }
    let last = if stack.len() > 0 { stack.last() } else { RANK_MAX };
    let end = pos + toks[cand as int].len();
    if bits[end] && (last == RANK_MAX || valid_pair(toks, last, cand)) {
        lemma_bt_step_push(toks, text, stack, bits, pos, cand);
        let nc = if end < text.len() { next_match_spec(toks, text.skip(end)) } else { RANK_MAX };
        if stack == seq![u] && pos == k && cand == v {
            // u v is the whole text: the search stops with it
            assert(end == text.len());
            assert(bt_run(toks, text, stack.push(cand), bits, end, nc) == stack.push(cand));
        } else if stack.len() > 0 {
            assert(stack.push(cand)[0] == stack[0]);
            lemma_bt_split(toks, text, stack.push(cand), bits, end, nc, k);
        } else if toks[cand as int].len() > k {
            assert(stack.push(cand) =~= seq![cand]);
            lemma_bt_split(toks, text, stack.push(cand), bits, end, nc, k);
        } else {
            // cand spells text[..k]: it is u, and v comes next
            assert(toks[cand as int] =~= text.take(k));
            assert(stack.push(cand) =~= seq![u]);
            let s2 = text.skip(end);
            assert(s2 =~= text.skip(k));
            assert(s2.take(s2.len() as int) =~= s2);
            lemma_lpl_ge(toks, s2, s2.len() as int, s2.len() as int);
            crate::vocab::lemma_lpl(toks, s2, s2.len() as int);
            assert(nc == v);
            lemma_bt_split(toks, text, stack.push(cand), bits, end, nc, k);
        }
    } else {
        let shorter = next_prefix_spec(toks, cand as int);
        if stack.len() == 0 {
            // cand is longer than u, so u is a shorter prefix token of it
            assert(toks[cand as int].len() > k);
            let tc = toks[cand as int];
            assert(tc.take(k) =~= text.take(k));
            lemma_lpl_ge(toks, tc, tc.len() - 1, k);
            lemma_longest_tok(toks, tc, tc.len() - 1);
        }
        if shorter != RANK_MAX {
            lemma_bt_step_shorter(toks, text, stack, bits, pos, cand);
            if stack.len() == 0 {
                let tc = toks[cand as int];
                let l = lpl(toks, tc, tc.len() - 1);
                crate::vocab::lemma_find_tok(toks, toks[shorter as int]);
                crate::vocab::lemma_find_tok(toks, tc.take(l));
            }
            lemma_bt_split(toks, text, stack, bits, pos, shorter, k);
        } else if !bits[pos] {
        } else {
            lemma_count_true_clear(bits, pos);
            lemma_bt_step_clear(toks, text, stack, bits, pos, cand);
            let bits2 = bits.update(pos, false);
            if stack.len() > 0 {
                let d = stack.drop_last();
                if d.len() > 0 {
                    assert(d[0] == stack[0]);
                } else {
                    assert(last == stack[0]);
                }
                lemma_bt_split(toks, text, d, bits2, pos - toks[last as int].len(), last, k);
            }
        }
    }
}

/// A piece that is one token, or that splits into two tokens that may stand
/// side by side, always gets an encoding, and its tokens spell the piece.
pub proof fn law_two_token_piece_encodes(toks: Seq<Seq<u8>>, text: Seq<u8>, k: int)
    requires
        toks_wf(toks),
        covers(toks, text),
        0 < k <= text.len(),
        find_tok(toks, text.take(k)) != RANK_MAX,
        k < text.len() ==> find_tok(toks, text.skip(k)) != RANK_MAX && valid_pair(
            toks,
            find_tok(toks, text.take(k)),
            find_tok(toks, text.skip(k)),
        ),
    ensures
        encode_piece(toks, text).len() > 0,
        flat(toks, encode_piece(toks, text)) == text,
{
    lemma_encode_piece(toks, text);
    lemma_greedy_tiles(toks, text, 0);
    assert(text.skip(0) =~= text);
    let first = next_match_spec(toks, text);
    lemma_lpl_ge(toks, text, text.len() as int, k);
    lemma_longest_tok(toks, text, text.len() as int);
    if k == text.len() {
        assert(text.take(k) =~= text);
    }
    if !pairs_valid(toks, greedy(toks, text)) {
        // the greedy tiling of a single token is always compatible
        assert(k < text.len()) by {
            if k == text.len() {
                assert(greedy(toks, text) =~= seq![first] + greedy_from(toks, text, text.len() as int));
                assert(greedy(toks, text) =~= seq![first]);
            }
        }
        let bits = Seq::new((text.len() + 1) as nat, |i: int| true);
        lemma_next_match_covers(toks, text, 0);
        assert(text.take(0) =~= Seq::<u8>::empty());
        assert(flat(toks, Seq::<u32>::empty()) == Seq::<u8>::empty());
        assert forall|i: int| 0 <= i <= 0 implies #[trigger] bits[flat(toks, Seq::<u32>::empty().take(i)).len() as int] by {
            assert(Seq::<u32>::empty().take(i) =~= Seq::<u32>::empty());
        }
        let l = lpl(toks, text, text.len() as int);
        crate::vocab::lemma_find_tok(toks, text.take(l));
        crate::vocab::lemma_find_tok(toks, toks[first as int]);
        lemma_bt_split(toks, text, Seq::empty(), bits, 0, first, k);
    } else {
        assert(greedy(toks, text).len() > 0);
    }
}

} // verus!
