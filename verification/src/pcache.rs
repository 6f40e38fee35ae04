//! Bounded memoization of short pretokens: a fixed table of packed entries,
//! each a pretoken's bytes (packed into a `u128` key) and its encoding (up to
//! four ids packed into two `u64`s). A hit appends exactly what encoding the
//! pretoken would; a miss encodes and, when the result packs, installs it,
//! evicting when the probe window is full. The cache never changes an answer.
use vstd::prelude::*;

use crate::bpe::encode_piece;
use crate::vocab::{covers, Vocab};

verus! {

/// Longest pretoken that fits a packed key (16 bytes minus the length tag).
pub const KEY_MAX: usize = 15;

/// Largest table: 2^19 slots.
pub const MAX_BITS: u32 = 19;

/// Smallest table worth keeping: 2^15 slots.
pub const MIN_BITS: u32 = 15;

/// Bytes of one slot: a 16-byte key and two 8-byte values.
pub const ENTRY_BYTES: usize = 32;

/// Total cache bytes a process hands out.
pub const BUDGET_BYTES: usize = 33554432;

/// Pairs of slots probed before evicting.
pub const PAIRS: usize = 3;

/// `val` bit 7: the ids did not fit inline (never stored).
pub const VAL_SPILL: u64 = 0x80;

/// `val` low bits: the id count.
pub const COUNT_MASK: u64 = 0x7F;

/// The length tag's unit in a key: 2^120.
pub const LEN_TAG: u128 = 0x1000000000000000000000000000000u128;

/// Little-endian value of `b`.
pub open spec fn le_val(b: Seq<u8>) -> int
    decreases b.len(),
{
    if b.len() == 0 {
        0
    } else {
        b[0] + 256 * le_val(b.drop_first())
    }
}

pub open spec fn pow256(k: nat) -> int
    decreases k,
{
    if k == 0 {
        1
    } else {
        256 * pow256((k - 1) as nat)
    }
}

/// The key of a pretoken of 1..=15 bytes: its bytes little-endian, the length in
/// the top byte.
pub open spec fn key_spec(b: Seq<u8>) -> Option<u128> {
    if b.len() == 0 || b.len() > KEY_MAX {
        None
    } else {
        Some((le_val(b) + b.len() * LEN_TAG) as u128)
    }
}

proof fn lemma_le_val_bound(b: Seq<u8>)
    ensures
        0 <= le_val(b) < pow256(b.len()),
    decreases b.len(),
{
    if b.len() > 0 {
        lemma_le_val_bound(b.drop_first());
        let x = le_val(b.drop_first());
        let p = pow256(b.drop_first().len());
        assert(b[0] + 256 * x < 256 * p) by (nonlinear_arith)
            requires
                0 <= b[0] < 256,
                0 <= x < p,
        ;
    }
}

proof fn lemma_pow256_mono(k: nat)
    requires
        k <= 15,
    ensures
        1 <= pow256(k) <= pow256(15),
        pow256(15) == LEN_TAG,
    decreases 15 - k,
{
    reveal_with_fuel(pow256, 16);
    if k < 15 {
        lemma_pow256_mono(k + 1);
    }
}

proof fn lemma_le_val_injective(a: Seq<u8>, b: Seq<u8>)
    requires
        a.len() == b.len(),
        le_val(a) == le_val(b),
    ensures
        a == b,
    decreases a.len(),
{
    if a.len() > 0 {
        lemma_le_val_bound(a.drop_first());
        lemma_le_val_bound(b.drop_first());
        let x = le_val(a.drop_first());
        let y = le_val(b.drop_first());
        let a0 = a[0] as int;
        let b0 = b[0] as int;
        assert(a0 == b0 && x == y) by (nonlinear_arith)
            requires
                a0 + 256 * x == b0 + 256 * y,
                0 <= a0 < 256,
                0 <= b0 < 256,
                0 <= x,
                0 <= y,
        ;
        lemma_le_val_injective(a.drop_first(), b.drop_first());
        assert(a =~= seq![a[0]] + a.drop_first());
        assert(b =~= seq![b[0]] + b.drop_first());
    } else {
        assert(a =~= b);
    }
}

/// Keys are never zero (zero marks an empty slot), and two pretokens share a
/// key only if they are the same bytes; "a" and "a\0" differ by the length tag.
pub proof fn law_key_injective(a: Seq<u8>, b: Seq<u8>)
    requires
        key_spec(a) is Some,
        key_spec(a) == key_spec(b),
    ensures
        a == b,
        key_spec(a).unwrap() != 0,
{
    lemma_le_val_bound(a);
    lemma_le_val_bound(b);
    lemma_pow256_mono(a.len());
    lemma_pow256_mono(b.len());
    let va = le_val(a);
    let vb = le_val(b);
    let na = a.len() as int;
    let nb = b.len() as int;
    assert(va + na * LEN_TAG < 0x1_0000_0000_0000_0000_0000_0000_0000_0000) by (nonlinear_arith)
        requires
            0 <= va < LEN_TAG,
            1 <= na <= 15,
            LEN_TAG == 0x1000000000000000000000000000000,
    ;
    assert(vb + nb * LEN_TAG < 0x1_0000_0000_0000_0000_0000_0000_0000_0000) by (nonlinear_arith)
        requires
            0 <= vb < LEN_TAG,
            1 <= nb <= 15,
            LEN_TAG == 0x1000000000000000000000000000000,
    ;
    assert(na == nb && va == vb) by (nonlinear_arith)
        requires
            va + na * LEN_TAG == vb + nb * LEN_TAG,
            0 <= va < LEN_TAG,
            0 <= vb < LEN_TAG,
            1 <= na,
            1 <= nb,
            LEN_TAG > 0,
    ;
    lemma_le_val_injective(a, b);
}

/// Pack a pretoken's bytes into its key; `None` when it is empty or longer than
/// `KEY_MAX`.
pub fn pack_key(bytes: &[u8]) -> (r: Option<u128>)
    ensures
        r == key_spec(bytes@),
{
    let n = bytes.len();
    if n == 0 || n > KEY_MAX {
        return None;
    }
    let mut raw: u128 = 0;
    let mut j = n;
    proof {
        assert(bytes@.skip(n as int) =~= Seq::<u8>::empty());
        lemma_pow256_mono(n as nat);
    }
    while j > 0
        invariant
            j <= n,
            n == bytes@.len(),
            1 <= n <= 15,
            raw as int == le_val(bytes@.skip(j as int)),
            0 <= raw < pow256((n - j) as nat),
            pow256(n as nat) <= LEN_TAG,
        decreases j,
    {
        proof {
            lemma_pow256_mono((n - j + 1) as nat);
            assert(bytes@.skip(j - 1).drop_first() =~= bytes@.skip(j as int));
            assert(bytes@.skip(j - 1)[0] == bytes@[j - 1]);
            let p = pow256((n - j) as nat);
            assert(raw * 256 + bytes@[j - 1] < 256 * p) by (nonlinear_arith)
                requires
                    0 <= raw < p,
                    0 <= bytes@[j - 1] < 256,
            ;
        }
        j = j - 1;
        raw = raw * 256 + bytes[j] as u128;
    }
    let r = raw | ((n as u128) << 120u128);
    proof {
        assert(bytes@.skip(0) =~= bytes@);
        let nn = n as u128;
        assert((raw | (nn << 120u128)) == raw + nn * 0x1000000000000000000000000000000u128) by (bit_vector)
            requires
                raw < 0x1000000000000000000000000000000u128,
                nn <= 15,
        ;
    }
    Some(r)
}

/// The ids packed into `(val, ext)`: count in `val`'s low byte, the first id
/// (below 2^24) in bits 8..32, the second in bits 32..64, the third and fourth
/// in `ext`'s halves. `None` for other counts or a first id of 2^24 or more.
pub open spec fn val_spec(ids: Seq<u32>) -> Option<(u64, u64)> {
    if 1 <= ids.len() <= 4 && ids[0] < 0x100_0000 {
        let n = ids.len() as u64;
        let a = ids[0] as u64;
        let b = if ids.len() >= 2 {
            ids[1] as u64
        } else {
            0u64
        };
        let c = if ids.len() >= 3 {
            ids[2] as u64
        } else {
            0u64
        };
        let d = if ids.len() >= 4 {
            ids[3] as u64
        } else {
            0u64
        };
        Some((n | (a << 8u64) | (b << 32u64), c | (d << 32u64)))
    } else {
        None
    }
}

/// The four id lanes of a packed value.
pub open spec fn lanes(val: u64, ext: u64) -> Seq<u32> {
    seq![((val >> 8u64) & 0xFF_FFFFu64) as u32, (val >> 32u64) as u32, (ext & 0xFFFF_FFFFu64) as u32, (ext >> 32u64) as u32]
}

/// The ids a packed value holds: the first `count` lanes.
pub open spec fn unpack_val(val: u64, ext: u64) -> Seq<u32> {
    lanes(val, ext).take((val & COUNT_MASK) as int)
}

/// Unpacking gives back the packed ids, and a packed value has no spill bit and
/// a count of 1..=4.
pub proof fn law_val_round_trip(ids: Seq<u32>)
    requires
        val_spec(ids) is Some,
    ensures
        unpack_val(val_spec(ids).unwrap().0, val_spec(ids).unwrap().1) == ids,
        val_spec(ids).unwrap().0 & VAL_SPILL == 0,
        1 <= (val_spec(ids).unwrap().0 & COUNT_MASK) <= 4,
{
    let n = ids.len() as u64;
    let a = ids[0] as u64;
    let b = if ids.len() >= 2 {
        ids[1] as u64
    } else {
        0u64
    };
    let c = if ids.len() >= 3 {
        ids[2] as u64
    } else {
        0u64
    };
    let d = if ids.len() >= 4 {
        ids[3] as u64
    } else {
        0u64
    };
    let v = n | (a << 8u64) | (b << 32u64);
    let e = c | (d << 32u64);
    assert(v & 0x7Fu64 == n && v & 0x80u64 == 0 && ((v >> 8u64) & 0xFF_FFFFu64) == a && (v >> 32u64) == b) by (bit_vector)
        requires
            1 <= n <= 4,
            a < 0x100_0000,
            b < 0x1_0000_0000,
            v == n | (a << 8u64) | (b << 32u64),
    ;
    assert((e & 0xFFFF_FFFFu64) == c && (e >> 32u64) == d) by (bit_vector)
        requires
            c < 0x1_0000_0000,
            d < 0x1_0000_0000,
            e == c | (d << 32u64),
    ;
    let l = lanes(v, e);
    assert(l[0] == ids[0]);
    assert(ids.len() >= 2 ==> l[1] == ids[1]);
    assert(ids.len() >= 3 ==> l[2] == ids[2]);
    assert(ids.len() >= 4 ==> l[3] == ids[3]);
    assert(unpack_val(v, e) =~= ids);
}

/// Pack up to four ids (see `val_spec`).
pub fn pack_val(ids: &[u32]) -> (r: Option<(u64, u64)>)
    ensures
        r == val_spec(ids@),
{
    let n = ids.len();
    if n == 0 || n > 4 || ids[0] >= 0x100_0000 {
        return None;
    }
    let a = ids[0] as u64;
    let b = if n >= 2 {
        ids[1] as u64
    } else {
        0u64
    };
    let c = if n >= 3 {
        ids[2] as u64
    } else {
        0u64
    };
    let d = if n >= 4 {
        ids[3] as u64
    } else {
        0u64
    };
    Some(((n as u64) | (a << 8u64) | (b << 32u64), c | (d << 32u64)))
}

/// One slot: a packed key (0 = empty) and its packed ids.
#[derive(Clone, Copy)]
pub struct Entry {
    pub key: u128,
    pub val: u64,
    pub ext: u64,
}

/// A slot's entry is the encoding, under `toks`, of the pretoken its key packs.
pub open spec fn entry_ok(toks: Seq<Seq<u8>>, e: Entry) -> bool {
    e.key == 0 || exists|b: Seq<u8>| key_spec(b) == Some(e.key) && #[trigger] val_spec(encode_piece(toks, b)) == Some((e.val, e.ext))
}

/// One thread's cache for one tokenizer.
pub struct PretokenCache {
    slots: Vec<Entry>,
    /// `64 - log2(slots.len())`; 64 marks a cache that always misses.
    shift: u32,
    /// Which tokenizer's ids the entries hold.
    owner: u64,
    /// The token table of that tokenizer.
    toks: Ghost<Seq<Seq<u8>>>,
}

/// Right shift of a 64-bit hash by `shift` lands below `2^(64 - shift)`; its even
/// part, and the next slot, too.
proof fn lemma_index(h: u64, bits: u64)
    requires
        1 <= bits <= 63,
    ensures
        (h >> ((64 - bits) as u64)) < (1u64 << bits),
        ((h >> ((64 - bits) as u64)) & !1u64) + 1 < (1u64 << bits),
        ((h >> ((64 - bits) as u64)) & !1u64) & 1u64 == 0,
{
    assert((h >> ((64 - bits) as u64)) < (1u64 << bits)) by (bit_vector)
        requires
            1 <= bits <= 63,
    ;
    assert(((h >> ((64 - bits) as u64)) & !1u64) + 1 < (1u64 << bits)) by (bit_vector)
        requires
            1 <= bits <= 63,
    ;
    assert(((h >> ((64 - bits) as u64)) & !1u64) & 1u64 == 0) by (bit_vector);
}

proof fn lemma_wrap(x: u64, bits: u64)
    requires
        1 <= bits <= 63,
        x & 1u64 == 0,
    ensures
        (x & (((1u64 << bits) - 1) as u64)) + 1 < (1u64 << bits),
{
    assert((x & (((1u64 << bits) - 1) as u64)) + 1 < (1u64 << bits)) by (bit_vector)
        requires
            1 <= bits <= 63,
            x & 1u64 == 0,
    ;
}

impl PretokenCache {
    /// Table shape and entries consistent with the token table.
    pub closed spec fn wf(&self) -> bool {
        &&& (self.shift == 64 ==> self.slots@.len() == 0)
        &&& (self.shift != 64 ==> 64 - MAX_BITS <= self.shift <= 64 - MIN_BITS && self.slots@.len() == (1u64 << (64 - self.shift)) as int)
        &&& forall|i: int| 0 <= i < self.slots@.len() ==> #[trigger] entry_ok(self.toks@, self.slots@[i])
    }

    /// The token table whose encodings the entries hold.
    pub closed spec fn vocab_view(&self) -> Seq<Seq<u8>> {
        self.toks@
    }

    pub closed spec fn owner_view(&self) -> u64 {
        self.owner
    }

    pub closed spec fn slot_count(&self) -> int {
        self.slots@.len() as int
    }

    /// An empty table of `2^bits` slots for tokenizer `owner`, whose vocabulary is `v`.
    pub fn new(owner: u64, bits: u32, v: &Vocab) -> (c: PretokenCache)
        requires
            MIN_BITS <= bits <= MAX_BITS,
        ensures
            c.wf(),
            c.vocab_view() == v@,
            c.owner_view() == owner,
            c.slot_count() == (1u64 << bits) as int,
    {
        let n: usize = (1u64 << (bits as u64)) as usize;
        proof {
            assert((1u64 << (bits as u64)) <= 0x80000u64) by (bit_vector)
                requires
                    bits <= 19,
            ;
        }
        let mut slots: Vec<Entry> = Vec::new();
        let mut i: usize = 0;
        while i < n
            invariant
                i <= n,
                slots@.len() == i,
                forall|k: int| 0 <= k < i ==> (#[trigger] slots@[k]).key == 0,
            decreases n - i,
        {
            slots.push(Entry { key: 0, val: 0, ext: 0 });
            i = i + 1;
        }
        let c = PretokenCache { slots, shift: 64 - bits, owner, toks: Ghost(v@) };
        proof {
            assert((64 - (64 - bits)) as u64 == bits as u64);
        }
        c
    }

    /// A cache that always misses; holds nothing.
    pub fn disabled(owner: u64, v: &Vocab) -> (c: PretokenCache)
        ensures
            c.wf(),
            c.vocab_view() == v@,
            c.owner_view() == owner,
            c.slot_count() == 0,
    {
        PretokenCache { slots: Vec::new(), shift: 64, owner, toks: Ghost(v@) }
    }

    /// Which tokenizer this cache serves.
    pub fn owner(&self) -> (r: u64)
        ensures
            r == self.owner_view(),
    {
        self.owner
    }

    /// Bytes of the table.
    pub fn bytes(&self) -> (r: usize)
        requires
            self.wf(),
        ensures
            r == self.slot_count() * ENTRY_BYTES,
    {
        proof {
            if self.shift != 64 {
                let bits = (64 - self.shift) as u64;
                assert((1u64 << bits) <= 0x80000u64) by (bit_vector)
                    requires
                        bits <= 19,
                ;
            }
        }
        self.slots.len() * ENTRY_BYTES
    }

    /// Append `piece`'s encoding to `out`, from the table on a hit; on a miss
    /// encode it and keep it when it packs.
    pub fn emit(&mut self, v: &Vocab, piece: &[u8], out: &mut Vec<u32>)
        requires
            old(self).wf(),
            v@ == old(self).vocab_view(),
            covers(v@, piece@),
        ensures
            final(self).wf(),
            final(self).vocab_view() == old(self).vocab_view(),
            final(self).owner_view() == old(self).owner_view(),
            final(self).slot_count() == old(self).slot_count(),
            final(out)@ == old(out)@ + encode_piece(v@, piece@),
    {
        let key = match pack_key(piece) {
            Some(k) => k,
            None => {
                v.encode(piece, out);
                return;
            },
        };
        if self.shift == 64 {
            v.encode(piece, out);
            return;
        }
        let h = hash(key);
        self.probe_emit(v, piece, out, key, h);
    }

    /// Probe the home pair for `key` and append its ids, else go on to `probe_cold`.
    fn probe_emit(&mut self, v: &Vocab, piece: &[u8], out: &mut Vec<u32>, key: u128, h: u64)
        requires
            old(self).wf(),
            old(self).shift != 64,
            v@ == old(self).vocab_view(),
            covers(v@, piece@),
            key_spec(piece@) == Some(key),
        ensures
            final(self).wf(),
            final(self).vocab_view() == old(self).vocab_view(),
            final(self).owner_view() == old(self).owner_view(),
            final(self).slot_count() == old(self).slot_count(),
            final(out)@ == old(out)@ + encode_piece(v@, piece@),
    {
        let bits = (64 - self.shift) as u64;
        proof {
            lemma_index(h, bits);
            assert((64 - bits) as u64 == self.shift as u64);
            assert((1u64 << bits) <= 0x80000u64) by (bit_vector)
                requires
                    bits <= 19,
            ;
        }
        let base = ((h >> (self.shift as u64)) & !1u64) as usize;
        let e0 = self.slots[base];
        let e1 = self.slots[base + 1];
        let hit = if e0.key == key {
            Some(e0)
        } else if e1.key == key {
            Some(e1)
        } else {
            None
        };
        match hit {
            Some(e) => {
                proof {
                    self.lemma_hit(e, piece@, key);
                }
                if e.val & VAL_SPILL != 0 {
                    self.probe_cold(v, piece, out, key, h);
                    return;
                }
                emit_packed(out, e.val, e.ext);
            },
            None => {
                self.probe_cold(v, piece, out, key, h);
            },
        }
    }

    /// A stored entry whose key is `piece`'s holds `piece`'s encoding.
    proof fn lemma_hit(&self, e: Entry, piece: Seq<u8>, key: u128)
        requires
            entry_ok(self.toks@, e),
            e.key == key,
            key_spec(piece) == Some(key),
        ensures
            val_spec(encode_piece(self.toks@, piece)) == Some((e.val, e.ext)),
            unpack_val(e.val, e.ext) == encode_piece(self.toks@, piece),
            e.val & VAL_SPILL == 0,
            (e.val & COUNT_MASK) <= 4,
    {
        law_key_injective(piece, piece);
        let b = choose|b: Seq<u8>| key_spec(b) == Some(e.key) && #[trigger] val_spec(encode_piece(self.toks@, b)) == Some((e.val, e.ext));
        law_key_injective(piece, b);
        law_val_round_trip(encode_piece(self.toks@, piece));
    }

    /// The rest of the probe window, then encode, and keep the result when it
    /// packs: in an empty slot of the window, else in the home slot.
    fn probe_cold(&mut self, v: &Vocab, piece: &[u8], out: &mut Vec<u32>, key: u128, h: u64)
        requires
            old(self).wf(),
            old(self).shift != 64,
            v@ == old(self).vocab_view(),
            covers(v@, piece@),
            key_spec(piece@) == Some(key),
        ensures
            final(self).wf(),
            final(self).vocab_view() == old(self).vocab_view(),
            final(self).owner_view() == old(self).owner_view(),
            final(self).slot_count() == old(self).slot_count(),
            final(out)@ == old(out)@ + encode_piece(v@, piece@),
    {
        let bits = (64 - self.shift) as u64;
        proof {
            lemma_index(h, bits);
            assert((64 - bits) as u64 == self.shift as u64);
            assert((1u64 << bits) <= 0x80000u64) by (bit_vector)
                requires
                    bits <= 19,
            ;
        }
        let len = self.slots.len();
        let wrap = len - 1;
        let base = ((h >> (self.shift as u64)) & !1u64) as usize;
        let mut pair: usize = 1;
        while pair < PAIRS
            invariant
                self.wf(),
                self.shift != 64,
                bits == (64 - self.shift) as u64,
                len == self.slots@.len(),
                len as int == (1u64 << bits) as int,
                len <= 0x80000,
                wrap == len - 1,
                base < len,
                base & 1 == 0,
                pair <= PAIRS,
                v@ == self.vocab_view(),
                key_spec(piece@) == Some(key),
                out@ == old(out)@,
                *self == *old(self),
            decreases PAIRS - pair,
        {
            let x = (base + pair * 2) as u64;
            proof {
                assert(x & 1u64 == 0) by (bit_vector)
                    requires
                        x == (base as u64) + (pair as u64) * 2,
                        (base as u64) & 1u64 == 0,
                ;
                lemma_wrap(x, bits);
                assert((x & (((1u64 << bits) - 1) as u64)) <= (((1u64 << bits) - 1) as u64)) by (bit_vector);
            }
            let idx = (x & (wrap as u64)) as usize;
            let mut k: usize = 0;
            while k < 2
                invariant
                    self.wf(),
                    idx + 1 < len,
                    len == self.slots@.len(),
                    v@ == self.vocab_view(),
                    key_spec(piece@) == Some(key),
                    out@ == old(out)@,
                    *self == *old(self),
                    k <= 2,
                decreases 2 - k,
            {
                let e = self.slots[idx + k];
                if e.key == key && e.val & VAL_SPILL == 0 {
                    proof {
                        assert(entry_ok(self.toks@, self.slots@[idx + k]));
                        self.lemma_hit(e, piece@, key);
                    }
                    emit_packed(out, e.val, e.ext);
                    return;
                }
                k = k + 1;
            }
            pair = pair + 1;
        }
        let start = out.len();
        let first = v.next_match(piece);
        v.encode_with_first(piece, first, out);
        let got = vstd::slice::slice_subrange(out.as_slice(), start, out.len());
        proof {
            assert(got@ =~= encode_piece(v@, piece@));
        }
        let (val, ext) = match pack_val(got) {
            Some(p) => p,
            None => {
                return;
            },
        };
        let ne = Entry { key, val, ext };
        proof {
            assert(val_spec(encode_piece(self.toks@, piece@)) == Some((ne.val, ne.ext)));
            assert(entry_ok(self.toks@, ne));
        }
        let mut p2: usize = 0;
        while p2 < PAIRS
            invariant
                self.wf(),
                self.shift != 64,
                bits == (64 - self.shift) as u64,
                len == self.slots@.len(),
                len as int == (1u64 << bits) as int,
                len <= 0x80000,
                wrap == len - 1,
                base < len,
                base & 1 == 0,
                self.slots@.len() == old(self).slots@.len(),
                out@ == old(out)@ + encode_piece(v@, piece@),
                p2 <= PAIRS,
                entry_ok(self.toks@, ne),
                self.toks == old(self).toks,
                self.owner == old(self).owner,
                self.shift == old(self).shift,
            decreases PAIRS - p2,
        {
            let x = (base + p2 * 2) as u64;
            proof {
                assert(x & 1u64 == 0) by (bit_vector)
                    requires
                        x == (base as u64) + (p2 as u64) * 2,
                        (base as u64) & 1u64 == 0,
                ;
                lemma_wrap(x, bits);
            }
            let idx = (x & (wrap as u64)) as usize;
            let mut k: usize = 0;
            while k < 2
                invariant
                    self.wf(),
                    self.shift != 64,
                    idx + 1 < len,
                    len == self.slots@.len(),
                    entry_ok(self.toks@, ne),
                    self.toks == old(self).toks,
                    self.owner == old(self).owner,
                    self.shift == old(self).shift,
                    self.slots@.len() == old(self).slots@.len(),
                    out@ == old(out)@ + encode_piece(v@, piece@),
                    k <= 2,
                decreases 2 - k,
            {
                if self.slots[idx + k].key == 0 {
                    self.store(idx + k, ne);
                    return;
                }
                k = k + 1;
            }
            p2 = p2 + 1;
        }
        self.store(base, ne);
    }

    /// Put `e` into slot `i`.
    fn store(&mut self, i: usize, e: Entry)
        requires
            old(self).wf(),
            i < old(self).slots@.len(),
            entry_ok(old(self).toks@, e),
        ensures
            final(self).wf(),
            final(self).toks == old(self).toks,
            final(self).owner == old(self).owner,
            final(self).shift == old(self).shift,
            final(self).slots@.len() == old(self).slots@.len(),
            final(self).slots@ == old(self).slots@.update(i as int, e),
    {
        self.slots.set(i, e);
        proof {
            assert forall|k: int| 0 <= k < self.slots@.len() implies #[trigger] entry_ok(self.toks@, self.slots@[k]) by {
                if k != i {
                    assert(self.slots@[k] == old(self).slots@[k]);
                }
            }
        }
    }
}

/// The table index hash: the low and the high 64 bits of the key, each
/// multiplied (mod 2^64) by its own odd constant, then xored; the high bits
/// carry the mix.
pub open spec fn hash_spec(key: u128) -> u64 {
    (key as u64).wrapping_mul(0x9E37_79B9_7F4A_7C15u64) ^ ((key >> 64u128) as u64).wrapping_mul(0xC2B2_AE3D_27D4_EB4Fu64)
}

/// The table index hash: two multiplies and an xor (the high bits carry the mix).
fn hash(key: u128) -> (r: u64)
    ensures
        r == hash_spec(key),
{
    let lo = key as u64;
    let hi = (key >> 64u128) as u64;
    lo.wrapping_mul(0x9E37_79B9_7F4A_7C15u64) ^ hi.wrapping_mul(0xC2B2_AE3D_27D4_EB4Fu64)
}

/// Append the ids of a packed value.
fn emit_packed(out: &mut Vec<u32>, val: u64, ext: u64)
    requires
        (val & COUNT_MASK) <= 4,
    ensures
        final(out)@ == old(out)@ + unpack_val(val, ext),
{
    let n = (val & COUNT_MASK) as usize;
    let l0 = ((val >> 8u64) & 0xFF_FFFFu64) as u32;
    let l1 = (val >> 32u64) as u32;
    let l2 = (ext & 0xFFFF_FFFFu64) as u32;
    let l3 = (ext >> 32u64) as u32;
    let ghost lv = lanes(val, ext);
    let ghost start = out@;
    if n >= 1 {
        out.push(l0);
    }
    if n >= 2 {
        out.push(l1);
    }
    if n >= 3 {
        out.push(l2);
    }
    if n >= 4 {
        out.push(l3);
    }
    proof {
        assert(out@ =~= start + lv.take(n as int));
    }
}

/// The size of one cache, in bits, for a caller running `workers` threads at
/// once: the largest table within `BUDGET_BYTES / workers`, between `MIN_BITS`
/// and `MAX_BITS`.
pub fn share_bits(workers: usize) -> (r: u32)
    ensures
        MIN_BITS <= r <= MAX_BITS,
        r == MIN_BITS || (1u64 << (r as u64)) * ENTRY_BYTES <= BUDGET_BYTES / (if workers == 0 {
            1usize
        } else {
            workers
        }),
        r == MAX_BITS || (1u64 << ((r + 1) as u64)) * ENTRY_BYTES > BUDGET_BYTES / (if workers == 0 {
            1usize
        } else {
            workers
        }),
{
    let w = if workers == 0 {
        1
    } else {
        workers
    };
    let share = BUDGET_BYTES / w;
    let mut b: u32 = MAX_BITS;
    loop
        invariant
            MIN_BITS <= b <= MAX_BITS,
            share == BUDGET_BYTES / w,
            w == (if workers == 0 {
                1usize
            } else {
                workers
            }),
            b == MAX_BITS || (1u64 << ((b + 1) as u64)) * ENTRY_BYTES > share,
        decreases b,
    {
        proof {
            assert((1u64 << (b as u64)) <= 0x80000u64) by (bit_vector)
                requires
                    b <= 19,
            ;
        }
        let size = ((1u64 << (b as u64)) as usize) * ENTRY_BYTES;
        if b > MIN_BITS && size > share {
            b = b - 1;
        } else {
            return b;
        }
    }
}

/// Bytes of a table of `2^bits` entries.
pub open spec fn table_bytes(bits: u32) -> int {
    (1u64 << (bits as u64)) * ENTRY_BYTES
}

/// What the process budget leaves when `live` bytes are already taken.
pub open spec fn budget_left(live: usize) -> int {
    if live >= BUDGET_BYTES {
        0
    } else {
        BUDGET_BYTES - live
    }
}

/// The size, in bits, of a new cache when `live` bytes of the budget are taken
/// and `cap` (from `share_bits`) is the most one caller may have: the largest
/// size from `cap` down to `MIN_BITS` whose table fits in what is left, or
/// `None` when not even the smallest fits.
pub fn fit_bits(cap: u32, live: usize) -> (r: Option<u32>)
    requires
        MIN_BITS <= cap <= MAX_BITS,
    ensures
        r is Some <==> table_bytes(MIN_BITS) <= budget_left(live),
        r matches Some(b) ==> {
            &&& MIN_BITS <= b <= cap
            &&& table_bytes(b) <= budget_left(live)
            &&& (b == cap || table_bytes((b + 1) as u32) > budget_left(live))
        },
{
    let left = BUDGET_BYTES.saturating_sub(live);
    let mut b: u32 = cap;
    loop
        invariant
            MIN_BITS <= b <= cap <= MAX_BITS,
            left == budget_left(live),
            b == cap || table_bytes((b + 1) as u32) > left,
        decreases b,
    {
        proof {
            assert((1u64 << (b as u64)) <= 0x80000u64) by (bit_vector)
                requires
                    b <= 19,
            ;
        }
        let size = ((1u64 << (b as u64)) as usize) * ENTRY_BYTES;
        if size <= left {
            proof {
                assert((1u64 << 15u64) <= (1u64 << (b as u64))) by (bit_vector)
                    requires
                        15 <= b <= 19,
                ;
            }
            return Some(b);
        }
        if b == MIN_BITS {
            return None;
        }
        b = b - 1;
    }
}


/// The first position of `owner` in `owners`, or `None`.
pub fn find_owner(owners: &[u64], owner: u64) -> (r: Option<usize>)
    ensures
        r matches Some(i) ==> i < owners@.len() && owners@[i as int] == owner
            && forall|j: int| 0 <= j < i ==> owners@[j] != owner,
        r is None ==> forall|j: int| 0 <= j < owners@.len() ==> owners@[j] != owner,
{
    let mut i: usize = 0;
    while i < owners.len()
        invariant
            i <= owners@.len(),
            forall|j: int| 0 <= j < i ==> owners@[j] != owner,
        decreases owners@.len() - i,
    {
        if owners[i] == owner {
            return Some(i);
        }
        i = i + 1;
    }
    None
}

/// Which of a thread's caches serves tokenizer `owner`.
pub enum CachePick {
    /// The cache at this position (oldest first) already belongs to `owner`.
    Held(usize),
    /// None does: make a fresh one, after handing the oldest back to the pool
    /// when the thread already holds `max` caches.
    Fresh { evict_oldest: bool },
}

/// The choice among the caches a thread holds, given their owners oldest
/// first: the first one that belongs to `owner`, else a fresh cache, evicting
/// the oldest when `max` are already held.
pub fn pick_cache(owners: &[u64], owner: u64, max: usize) -> (r: CachePick)
    ensures
        r matches CachePick::Held(i) ==> i < owners@.len() && owners@[i as int] == owner
            && forall|j: int| 0 <= j < i ==> owners@[j] != owner,
        r matches CachePick::Fresh { evict_oldest } ==> (forall|j: int| 0 <= j < owners@.len() ==> owners@[j] != owner)
            && evict_oldest == (owners@.len() == max),
{
    match find_owner(owners, owner) {
        Some(i) => CachePick::Held(i),
        None => CachePick::Fresh { evict_oldest: owners.len() == max },
    }
}

} // verus!
