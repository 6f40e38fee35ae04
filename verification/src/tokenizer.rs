//! The public tokenizer: encodings, the fused pretokenize-and-merge machines,
//! special tokens, decoding and truncation.
use vstd::prelude::*;
use vstd::utf8::{encode_utf8, encode_utf8_decode_utf8, valid_utf8};

use crate::bpe::{encode_piece, flat, ids_in, lemma_encode_piece, lemma_flat_concat};
use crate::fastpath::{
    ascii_consistent_o, lemma_o_fast_agrees, cl_fast, cl_fast_len, lemma_cl_fast_agrees, lemma_cl_fast_len, lemma_cl_next_len_pos, lemma_o_fast_len, lemma_word_fast_agrees, o_fast,
    o_fast_len,
};
use crate::pretok::{
    tables_from, ascii_consistent, pretok_piece_len, pretok_pieces, class_file_ok, cl_next_len, lemma_cl_next_len, pretok_next, tiles, ClassTable,
    UClass,
};
use crate::pretok_o200k::{lemma_o_next_len, o_next_len, o_pieces, pretok_next_o200k, UClassO};
use crate::trie::token_prefixes;
use crate::vocab::{covers, find_tok, lemma_sat_add, sat, sat_add, TRIE_MAX_NODES, le16, le32, parse_vocab, rd16, rd32, vocab_file_ok, Vocab, VocabError, RANK_MAX};

verus! {

/// What `Tokenizer::truncate` found: where to cut, and what it cost.
#[derive(Clone, Copy, PartialEq, Eq, Debug, Structural)]
pub struct Truncation {
    /// Byte offset to cut the input at; the input length when nothing was cut.
    pub bytes: usize,
    /// Tokens in the whole input.
    pub total_tokens: usize,
    /// Tokens wholly inside the kept prefix.
    pub kept_tokens: usize,
}

/// The pretokenizer grammar of an encoding.
#[derive(Clone, Copy, PartialEq, Eq, Debug, Structural)]
pub enum Scanner {
    /// cl100k_base (GPT-3.5 / GPT-4)
    Cl100k,
    /// o200k_base (GPT-4o, GPT-OSS harmony)
    O200k,
}

/// Every single byte is a token.
pub open spec fn byte_complete(toks: Seq<Seq<u8>>) -> bool {
    forall|b: u8| #[trigger] find_tok(toks, seq![b]) != RANK_MAX
}

pub proof fn lemma_byte_complete_covers(toks: Seq<Seq<u8>>, s: Seq<u8>)
    requires
        byte_complete(toks),
    ensures
        covers(toks, s),
{
    assert forall|i: int| 0 <= i < s.len() implies find_tok(toks, seq![s[i]]) != RANK_MAX by {
        let b = s[i];
        assert(find_tok(toks, seq![b]) != RANK_MAX);
    }
}

// ---- pieces and the encoding --------------------------------------------------

/// Length of the piece the encoder takes at `p`: the ASCII fast path where it
/// decides, else the Unicode scanner (a zero-length answer counts as one byte).
pub open spec fn piece_len(sc: Scanner, cl: ClassTable, o: ClassTable, t: Seq<u8>, p: int, l: int) -> int {
    match sc {
        Scanner::Cl100k => {
            let f = cl_fast_len(t, p, l);
            if f > 0 {
                f
            } else {
                let n = cl_next_len(cl, t, p, l, false, false);
                if n == 0 {
                    1
                } else {
                    n
                }
            }
        },
        Scanner::O200k => {
            let f = o_fast_len(t, p, l);
            if f > 0 {
                f
            } else {
                o_next_len(o, t, p, l, true, false)
            }
        },
    }
}

pub proof fn lemma_piece_len(sc: Scanner, cl: ClassTable, o: ClassTable, t: Seq<u8>, p: int, l: int)
    requires
        0 <= p < l <= t.len(),
    ensures
        1 <= piece_len(sc, cl, o, t, p, l) <= l - p,
{
    lemma_cl_fast_len(t, p, l);
    lemma_o_fast_len(t, p, l);
    lemma_cl_next_len(cl, t, p, l, false, false);
    lemma_o_next_len(o, t, p, l, true, false);
}

/// The pieces `(offset, length)` the encoder splits `t[p..l)` into.
pub open spec fn pieces_from(sc: Scanner, cl: ClassTable, o: ClassTable, t: Seq<u8>, p: int, l: int) -> Seq<(usize, usize)>
    decreases l - p,
{
    if p < l && 0 < piece_len(sc, cl, o, t, p, l) <= l - p {
        seq![(p as usize, piece_len(sc, cl, o, t, p, l) as usize)] + pieces_from(
            sc,
            cl,
            o,
            t,
            p + piece_len(sc, cl, o, t, p, l),
            l,
        )
    } else {
        seq![]
    }
}

/// The bytes of piece `pc` of `t`.
pub open spec fn piece_bytes(t: Seq<u8>, pc: (usize, usize)) -> Seq<u8> {
    t.subrange(pc.0 as int, pc.0 + pc.1)
}

/// The encodings of the pieces, concatenated.
pub open spec fn enc_pieces(toks: Seq<Seq<u8>>, t: Seq<u8>, ps: Seq<(usize, usize)>) -> Seq<u32>
    decreases ps.len(),
{
    if ps.len() == 0 {
        seq![]
    } else {
        encode_piece(toks, piece_bytes(t, ps[0])) + enc_pieces(toks, t, ps.drop_first())
    }
}

/// Every piece has a nonempty encoding (the merge search never came back empty).
pub open spec fn pieces_encodable(toks: Seq<Seq<u8>>, t: Seq<u8>, ps: Seq<(usize, usize)>) -> bool {
    forall|i: int| 0 <= i < ps.len() ==> #[trigger] encode_piece(toks, piece_bytes(t, ps[i])).len() > 0
}

/// The pieces from `p` tile the rest of the input.
pub proof fn lemma_pieces_tile(sc: Scanner, cl: ClassTable, o: ClassTable, t: Seq<u8>, p: int, l: int)
    requires
        0 <= p <= l <= t.len(),
        l <= usize::MAX,
    ensures
        tiles(pieces_from(sc, cl, o, t, p, l), p, l),
    decreases l - p,
{
    if p < l {
        lemma_piece_len(sc, cl, o, t, p, l);
        let n = piece_len(sc, cl, o, t, p, l);
        lemma_pieces_tile(sc, cl, o, t, p + n, l);
        let ps = pieces_from(sc, cl, o, t, p, l);
        assert(ps.drop_first() =~= pieces_from(sc, cl, o, t, p + n, l));
    }
}

/// The bytes of a concatenation of tilings.
proof fn lemma_enc_flat(toks: Seq<Seq<u8>>, t: Seq<u8>, ps: Seq<(usize, usize)>, from: int, to: int)
    requires
        crate::vocab::toks_wf(toks),
        covers(toks, t),
        tiles(ps, from, to),
        0 <= from,
        to <= t.len(),
        pieces_encodable(toks, t, ps),
    ensures
        flat(toks, enc_pieces(toks, t, ps)) == t.subrange(from, to),
        ids_in(toks, enc_pieces(toks, t, ps)),
    decreases ps.len(),
{
    if ps.len() == 0 {
        assert(t.subrange(from, to) =~= Seq::<u8>::empty());
    } else {
        let pc = ps[0];
        let mid = from + pc.1;
        lemma_tiles_bound(ps.drop_first(), mid, to);
        assert forall|i: int| 0 <= i < ps.drop_first().len() implies #[trigger] encode_piece(
            toks,
            piece_bytes(t, ps.drop_first()[i]),
        ).len() > 0 by {
            assert(ps.drop_first()[i] == ps[i + 1]);
        }
        lemma_enc_flat(toks, t, ps.drop_first(), mid, to);
        let pb = piece_bytes(t, pc);
        assert forall|i: int| 0 <= i < pb.len() implies find_tok(toks, seq![pb[i]]) != RANK_MAX by {
            assert(pb[i] == t[from + i]);
        }
        lemma_encode_piece(toks, pb);
        assert(encode_piece(toks, piece_bytes(t, ps[0])).len() > 0);
        let a = encode_piece(toks, pb);
        let b = enc_pieces(toks, t, ps.drop_first());
        lemma_flat_concat(toks, a, b);
        assert(t.subrange(from, to) =~= t.subrange(from, mid) + t.subrange(mid, to));
        assert forall|i: int| 0 <= i < (a + b).len() implies ((#[trigger] (a + b)[i]) as int) < toks.len() by {
            if i < a.len() {
                assert((a + b)[i] == a[i]);
            } else {
                assert((a + b)[i] == b[i - a.len()]);
            }
        }
    }
}

proof fn lemma_tiles_bound(ps: Seq<(usize, usize)>, from: int, to: int)
    requires
        tiles(ps, from, to),
    ensures
        from <= to,
    decreases ps.len(),
{
    if ps.len() > 0 {
        lemma_tiles_bound(ps.drop_first(), from + ps[0].1, to);
    }
}

/// The encoded pieces, concatenated, give back the input whenever every piece
/// had a nonempty encoding; and every id they hold names a token.
pub proof fn lemma_encoded_bytes(toks: Seq<Seq<u8>>, t: Seq<u8>, sc: Scanner, cl: ClassTable, o: ClassTable)
    requires
        crate::vocab::toks_wf(toks),
        byte_complete(toks),
        t.len() <= usize::MAX,
        pieces_encodable(toks, t, pieces_from(sc, cl, o, t, 0, t.len() as int)),
    ensures
        flat(toks, enc_pieces(toks, t, pieces_from(sc, cl, o, t, 0, t.len() as int))) == t,
{
    lemma_pieces_tile(sc, cl, o, t, 0, t.len() as int);
    lemma_byte_complete_covers(toks, t);
    lemma_enc_flat(toks, t, pieces_from(sc, cl, o, t, 0, t.len() as int), 0, t.len() as int);
    assert(t.subrange(0, t.len() as int) =~= t);
}


// ---- the tokenizer -------------------------------------------------------------

pub struct Tokenizer {
    v: Vocab,
    name: String,
    scanner: Scanner,
    /// cl100k-pattern classes (loaded for `Scanner::Cl100k`)
    u: UClass,
    /// o200k-pattern classes (loaded for `Scanner::O200k`)
    uo: UClassO,
    /// special tokens: text and id
    specials: Vec<(String, u32)>,
}

/// The bytes of the special tokens, with their ids.
pub open spec fn specials_bytes(sp: Seq<(String, u32)>) -> Seq<(Seq<u8>, u32)> {
    sp.map_values(|e: (String, u32)| (encode_utf8(e.0@), e.1))
}

/// Special-token texts are 1..=64 bytes.
pub open spec fn specials_wf(sp: Seq<(Seq<u8>, u32)>) -> bool {
    forall|i: int| 0 <= i < sp.len() ==> 1 <= (#[trigger] sp[i]).0.len() <= 64
}

impl Tokenizer {
    #[verifier::type_invariant]
    closed spec fn inv(&self) -> bool {
        &&& crate::vocab::toks_wf(self.v@)
        &&& byte_complete(self.v@)
        &&& (self.scanner == Scanner::Cl100k ==> self.u.loaded())
        &&& (self.scanner == Scanner::O200k ==> self.uo.loaded())
        &&& specials_wf(specials_bytes(self.specials@))
    }

    /// A tokenizer as its constructors build it.
    pub closed spec fn valid(&self) -> bool {
        self.inv()
    }

    pub closed spec fn vocab_ref(&self) -> Vocab {
        self.v
    }

    /// The token table (bytes by id).
    pub closed spec fn toks(&self) -> Seq<Seq<u8>> {
        self.v@
    }

    pub closed spec fn scanner_kind(&self) -> Scanner {
        self.scanner
    }

    pub closed spec fn cl_table(&self) -> ClassTable {
        self.u.table()
    }

    pub closed spec fn o_table(&self) -> ClassTable {
        self.uo.table()
    }

    /// The special tokens: their bytes and ids, in order.
    pub closed spec fn specials_view(&self) -> Seq<(Seq<u8>, u32)> {
        specials_bytes(self.specials@)
    }

    /// Every tokenizer is valid: its token table is well formed and holds
    /// every single byte, and each special token's text is 1..=64 bytes.
    /// (It does nothing at run time; a caller calls it for its `ensures`.)
    pub fn lemma_valid(&self)
        ensures
            self.valid(),
            crate::vocab::toks_wf(self.toks()),
            byte_complete(self.toks()),
            specials_wf(self.specials_view()),
    {
        proof {
            use_type_invariant(self);
        }
    }

    pub closed spec fn name_view(&self) -> Seq<char> {
        self.name@
    }

    /// The pieces the encoder splits `t` into.
    pub open spec fn pieces(&self, t: Seq<u8>) -> Seq<(usize, usize)> {
        pieces_from(self.scanner_kind(), self.cl_table(), self.o_table(), t, 0, t.len() as int)
    }

    /// The ordinary encoding of `t`.
    pub open spec fn encoded(&self, t: Seq<u8>) -> Seq<u32> {
        enc_pieces(self.toks(), t, self.pieces(t))
    }

    /// Append the encoding of piece `t[off..off + plen)`, from its longest
    /// leading token.
    fn emit(&self, t: &[u8], off: usize, plen: usize, out: &mut Vec<u32>)
        requires
            off + plen <= t@.len(),
            byte_complete(self.toks()),
        ensures
            final(out)@ == old(out)@ + encode_piece(self.toks(), t@.subrange(off as int, off + plen)),
    {
        let _l = t.len();
        let piece = vstd::slice::slice_subrange(t, off, off + plen);
        proof {
            lemma_byte_complete_covers(self.v@, piece@);
        }
        let first = self.v.next_match(piece);
        self.v.encode_with_first(piece, first, out);
    }

    /// Append the encoding of a piece the Unicode scanner found.
    fn merge_piece(&self, piece: &[u8], out: &mut Vec<u32>)
        requires
            byte_complete(self.toks()),
        ensures
            final(out)@ == old(out)@ + encode_piece(self.toks(), piece@),
    {
        proof {
            lemma_byte_complete_covers(self.v@, piece@);
        }
        if piece.len() >= 3 && piece[0] >= 0xE0 && piece[0] < 0xF0 && (piece[1] & 0xC0u8) == 0x80 && (piece[2] & 0xC0u8) == 0x80 {
            crate::mb::encode_mb(&self.v, piece, out);
        } else {
            self.v.encode(piece, out);
        }
    }

    /// The encoder's loop: fast path or Unicode scanner at each position.
    fn encode_core(&self, t: &[u8], out: &mut Vec<u32>)
        ensures
            final(out)@ == old(out)@ + self.encoded(t@),
    {
        proof {
            use_type_invariant(self);
        }
        let l = t.len();
        let ghost sc = self.scanner;
        let ghost cl = self.u.table();
        let ghost o = self.uo.table();
        let ghost start = out@;
        let mut p: usize = 0;
        while p < l
            invariant
                self.inv(),
                l == t@.len(),
                p <= l,
                sc == self.scanner_kind(),
                cl == self.cl_table(),
                o == self.o_table(),
                out@ + enc_pieces(self.toks(), t@, pieces_from(sc, cl, o, t@, p as int, l as int)) == start + self.encoded(t@),
            decreases l - p,
        {
            let f = match self.scanner {
                Scanner::Cl100k => cl_fast(t, p, l),
                Scanner::O200k => o_fast(t, p, l),
            };
            let n = if f > 0 {
                f
            } else {
                let m = match self.scanner {
                    Scanner::Cl100k => pretok_next(&self.u, t, p, l),
                    Scanner::O200k => pretok_next_o200k(&self.uo, t, p, l),
                };
                if m == 0 {
                    1
                } else {
                    m
                }
            };
            proof {
                assert(n as int == piece_len(sc, cl, o, t@, p as int, l as int));
                lemma_piece_len(sc, cl, o, t@, p as int, l as int);
            }
            let ghost rest = pieces_from(sc, cl, o, t@, p + n, l as int);
            let ghost here = pieces_from(sc, cl, o, t@, p as int, l as int);
            proof {
                assert(here == seq![(p, n)] + rest);
                assert(here.drop_first() =~= rest);
                assert(here[0] == (p, n));
            }
            let ghost before = out@;
            if f > 0 {
                self.emit(t, p, n, out);
            } else {
                let piece = vstd::slice::slice_subrange(t, p, p + n);
                self.merge_piece(piece, out);
            }
            proof {
                assert(enc_pieces(self.toks(), t@, here) == encode_piece(self.toks(), piece_bytes(t@, (p, n))) + enc_pieces(self.toks(), t@, rest));
                assert(out@ + enc_pieces(self.toks(), t@, rest) =~= before + enc_pieces(self.toks(), t@, here));
            }
            p = p + n;
        }
        proof {
            assert(out@ + enc_pieces(self.toks(), t@, pieces_from(sc, cl, o, t@, p as int, l as int)) =~= out@);
        }
    }

    /// cl100k's fused machine (the loop of `encode_core` for that scanner).
    fn encode_core_cl100k(&self, t: &[u8], out: &mut Vec<u32>)
        requires
            self.scanner_kind() == Scanner::Cl100k,
        ensures
            final(out)@ == old(out)@ + self.encoded(t@),
    {
        self.encode_core(t, out)
    }

    /// o200k's fused machine (the loop of `encode_core` for that scanner).
    fn encode_core_o200k(&self, t: &[u8], out: &mut Vec<u32>)
        requires
            self.scanner_kind() == Scanner::O200k,
        ensures
            final(out)@ == old(out)@ + self.encoded(t@),
    {
        self.encode_core(t, out)
    }

    /// Append the ordinary encoding of `text` (no special-token handling).
    pub fn encode_into(&self, text: &[u8], out: &mut Vec<u32>)
        ensures
            final(out)@ == old(out)@ + self.encoded(text@),
    {
        match self.scanner {
            Scanner::Cl100k => self.encode_core_cl100k(text, out),
            Scanner::O200k => self.encode_core_o200k(text, out),
        }
    }

    /// Ordinary encode: no special-token handling, every special's text is split as plain text.
    pub fn encode(&self, text: &[u8]) -> (r: Vec<u32>)
        ensures
            r@ == self.encoded(text@),
            tiles(self.pieces(text@), 0, text@.len() as int),
            ids_in(self.toks(), r@),
    {
        let mut out: Vec<u32> = Vec::new();
        self.encode_into(text, &mut out);
        self.v.well_formed();
        let _l = text.len();
        proof {
            assert(out@ =~= self.encoded(text@));
            lemma_pieces_tile(self.scanner_kind(), self.cl_table(), self.o_table(), text@, 0, text@.len() as int);
            use_type_invariant(self);
            lemma_enc_ids(self.toks(), text@, self.pieces(text@));
        }
        out
    }

    /// Number of tokens in the ordinary encoding of `text`.
    pub fn count(&self, text: &[u8]) -> (r: usize)
        ensures
            r == self.encoded(text@).len(),
    {
        let mut out: Vec<u32> = Vec::new();
        self.encode_into(text, &mut out);
        out.len()
    }
}

/// Every id of an encoding names a token.
proof fn lemma_enc_ids(toks: Seq<Seq<u8>>, t: Seq<u8>, ps: Seq<(usize, usize)>)
    requires
        crate::vocab::toks_wf(toks),
        byte_complete(toks),
    ensures
        ids_in(toks, enc_pieces(toks, t, ps)),
    decreases ps.len(),
{
    if ps.len() > 0 {
        lemma_enc_ids(toks, t, ps.drop_first());
        let pb = piece_bytes(t, ps[0]);
        lemma_byte_complete_covers(toks, pb);
        lemma_encode_piece(toks, pb);
        let a = encode_piece(toks, pb);
        let b = enc_pieces(toks, t, ps.drop_first());
        assert forall|i: int| 0 <= i < (a + b).len() implies ((#[trigger] (a + b)[i]) as int) < toks.len() by {
            if i < a.len() {
                assert((a + b)[i] == a[i]);
            } else {
                assert((a + b)[i] == b[i - a.len()]);
            }
        }
    }
}


// ---- decoding ------------------------------------------------------------------

/// The bytes of the first special token with id `id`, searching from `k`.
pub open spec fn special_find(sp: Seq<(Seq<u8>, u32)>, id: u32, k: int) -> Option<Seq<u8>>
    decreases sp.len() - k,
{
    if k < 0 || k >= sp.len() {
        None
    } else if sp[k].1 == id {
        Some(sp[k].0)
    } else {
        special_find(sp, id, k + 1)
    }
}

/// The bytes id `id` decodes to: its token, else the first special token with
/// that id, else nothing.
pub open spec fn decode_one(toks: Seq<Seq<u8>>, sp: Seq<(Seq<u8>, u32)>, id: u32) -> Seq<u8> {
    if (id as int) < toks.len() {
        toks[id as int]
    } else {
        match special_find(sp, id, 0) {
            Some(b) => b,
            None => seq![],
        }
    }
}

/// The bytes `ids` decode to.
pub open spec fn decoded(toks: Seq<Seq<u8>>, sp: Seq<(Seq<u8>, u32)>, ids: Seq<u32>) -> Seq<u8>
    decreases ids.len(),
{
    if ids.len() == 0 {
        seq![]
    } else {
        decoded(toks, sp, ids.drop_last()) + decode_one(toks, sp, ids.last())
    }
}

/// On token ids, decoding is concatenating the token bytes.
pub proof fn lemma_decoded_flat(toks: Seq<Seq<u8>>, sp: Seq<(Seq<u8>, u32)>, ids: Seq<u32>)
    requires
        ids_in(toks, ids),
    ensures
        decoded(toks, sp, ids) == flat(toks, ids),
    decreases ids.len(),
{
    if ids.len() > 0 {
        assert forall|i: int| 0 <= i < ids.drop_last().len() implies ((#[trigger] ids.drop_last()[i]) as int) < toks.len() by {
            assert(ids.drop_last()[i] == ids[i]);
        }
        lemma_decoded_flat(toks, sp, ids.drop_last());
        assert(ids.last() == ids[ids.len() - 1]);
    }
}

/// Decoding the encoding of `t` never gives more bytes than `t`, and gives `t`
/// back exactly when the merge search found an encoding for every piece.
pub proof fn law_decode_encode_iff(tk: &Tokenizer, t: Seq<u8>)
    requires
        tk.valid(),
        t.len() <= usize::MAX,
    ensures
        decoded(tk.toks(), tk.specials_view(), tk.encoded(t)).len() <= t.len(),
        decoded(tk.toks(), tk.specials_view(), tk.encoded(t)) == t <==> pieces_encodable(tk.toks(), t, tk.pieces(t)),
{
    let toks = tk.toks();
    let ps = tk.pieces(t);
    lemma_pieces_tile(tk.scanner_kind(), tk.cl_table(), tk.o_table(), t, 0, t.len() as int);
    lemma_byte_complete_covers(toks, t);
    lemma_enc_ids(toks, t, ps);
    lemma_decoded_flat(toks, tk.specials_view(), tk.encoded(t));
    lemma_enc_flat_le(toks, t, ps, 0, t.len() as int);
    if pieces_encodable(toks, t, ps) {
        law_decode_encode(tk, t);
    } else {
        lemma_enc_flat_lt(toks, t, ps, 0, t.len() as int);
    }
}

/// Looking up the bytes of token `id` gives `id` back, whenever no other id
/// has the same bytes (otherwise the largest such id).
pub proof fn law_token_id_of_bytes(tk: &Tokenizer, id: int)
    requires
        tk.valid(),
        0 <= id < tk.toks().len(),
    ensures
        find_tok(tk.toks(), tk.toks()[id]) as int >= id,
        tk.toks()[find_tok(tk.toks(), tk.toks()[id]) as int] == tk.toks()[id],
        (forall|j: int| 0 <= j < tk.toks().len() && j != id ==> tk.toks()[j] != tk.toks()[id]) ==> find_tok(
            tk.toks(),
            tk.toks()[id],
        ) == id,
{
    crate::vocab::lemma_find_tok(tk.toks(), tk.toks()[id]);
}

/// Decoding the encoding of `t` gives `t` back, whenever the merge search found
/// an encoding for every piece.
pub proof fn law_decode_encode(tk: &Tokenizer, t: Seq<u8>)
    requires
        tk.valid(),
        t.len() <= usize::MAX,
        pieces_encodable(tk.toks(), t, tk.pieces(t)),
    ensures
        decoded(tk.toks(), tk.specials_view(), tk.encoded(t)) == t,
{
    lemma_encoded_bytes(tk.toks(), t, tk.scanner_kind(), tk.cl_table(), tk.o_table());
    lemma_enc_ids(tk.toks(), t, tk.pieces(t));
    lemma_decoded_flat(tk.toks(), tk.specials_view(), tk.encoded(t));
}

impl Tokenizer {
    /// Append the bytes of `ids`: token bytes, special-token text, and nothing
    /// for an id that is neither.
    pub fn decode_into(&self, ids: &[u32], out: &mut Vec<u8>)
        ensures
            final(out)@ == old(out)@ + decoded(self.toks(), self.specials_view(), ids@),
    {
        let ghost start = out@;
        let ghost sp = self.specials_view();
        let mut i: usize = 0;
        while i < ids.len()
            invariant
                i <= ids@.len(),
                sp == self.specials_view(),
                out@ == start + decoded(self.toks(), sp, ids@.take(i as int)),
            decreases ids@.len() - i,
        {
            let id = ids[i];
            let ghost before = out@;
            self.decode_id(id, out);
            proof {
                let tk = ids@.take(i + 1);
                assert(tk.drop_last() =~= ids@.take(i as int));
                assert(tk.last() == id);
                assert(out@ =~= start + decoded(self.toks(), sp, tk));
            }
            i = i + 1;
        }
        proof {
            assert(ids@.take(ids@.len() as int) =~= ids@);
        }
    }

    fn decode_id(&self, id: u32, out: &mut Vec<u8>)
        ensures
            final(out)@ == old(out)@ + decode_one(self.toks(), self.specials_view(), id),
    {
        if (id as usize) < self.v.size() {
            let b = self.v.token_bytes(id);
            extend_bytes(out, b);
            return;
        }
        let ghost sp = self.specials_view();
        let mut k: usize = 0;
        while k < self.specials.len()
            invariant
                k <= self.specials@.len(),
                sp == self.specials_view(),
                sp.len() == self.specials@.len(),
                special_find(sp, id, k as int) == special_find(sp, id, 0),
                out@ == old(out)@,
                (id as int) >= self.toks().len(),
            decreases self.specials@.len() - k,
        {
            if self.specials[k].1 == id {
                let st = self.specials[k].0.as_str();
                let b = st.as_bytes();
                proof {
                    assert(sp[k as int] == (encode_utf8(self.specials@[k as int].0@), self.specials@[k as int].1));
                    assert(st@ == self.specials@[k as int].0@);
                    assert(b@ == encode_utf8(st@));
                    assert(special_find(sp, id, k as int) == Some(sp[k as int].0));
                }
                extend_bytes(out, b);
                return;
            }
            proof {
                assert(sp[k as int].1 == self.specials@[k as int].1);
            }
            k = k + 1;
        }
        proof {
            assert(out@ =~= old(out)@ + Seq::<u8>::empty());
        }
    }

    /// The bytes of `ids` (see `decode_into`).
    pub fn decode(&self, ids: &[u32]) -> (r: Vec<u8>)
        ensures
            r@ == decoded(self.toks(), self.specials_view(), ids@),
    {
        let mut out: Vec<u8> = Vec::new();
        self.decode_into(ids, &mut out);
        proof {
            assert(out@ =~= decoded(self.toks(), self.specials_view(), ids@));
        }
        out
    }
}

/// Append the bytes `b` to `out`.
pub fn extend_bytes(out: &mut Vec<u8>, b: &[u8])
    ensures
        final(out)@ == old(out)@ + b@,
{
    let ghost start = out@;
    let mut i: usize = 0;
    while i < b.len()
        invariant
            i <= b@.len(),
            out@ == start + b@.take(i as int),
        decreases b@.len() - i,
    {
        out.push(b[i]);
        i = i + 1;
        proof {
            assert(b@.take(i as int) =~= b@.take(i - 1).push(b@[i - 1]));
        }
    }
    proof {
        assert(b@.take(b@.len() as int) =~= b@);
    }
}


// ---- offsets and truncation -------------------------------------------------------

/// An encoding never holds more bytes than the input.
proof fn lemma_enc_flat_le(toks: Seq<Seq<u8>>, t: Seq<u8>, ps: Seq<(usize, usize)>, from: int, to: int)
    requires
        crate::vocab::toks_wf(toks),
        covers(toks, t),
        tiles(ps, from, to),
        0 <= from,
        to <= t.len(),
    ensures
        flat(toks, enc_pieces(toks, t, ps)).len() <= to - from,
    decreases ps.len(),
{
    if ps.len() > 0 {
        let pc = ps[0];
        let mid = from + pc.1;
        lemma_tiles_bound(ps.drop_first(), mid, to);
        lemma_enc_flat_le(toks, t, ps.drop_first(), mid, to);
        let pb = piece_bytes(t, pc);
        assert forall|i: int| 0 <= i < pb.len() implies find_tok(toks, seq![pb[i]]) != RANK_MAX by {
            assert(pb[i] == t[from + i]);
        }
        lemma_encode_piece(toks, pb);
        let a = encode_piece(toks, pb);
        let b = enc_pieces(toks, t, ps.drop_first());
        lemma_flat_concat(toks, a, b);
        if a.len() == 0 {
            assert(flat(toks, a) =~= Seq::<u8>::empty());
        }
    }
}

/// When some piece found no encoding, the encoding holds fewer bytes than the input.
proof fn lemma_enc_flat_lt(toks: Seq<Seq<u8>>, t: Seq<u8>, ps: Seq<(usize, usize)>, from: int, to: int)
    requires
        crate::vocab::toks_wf(toks),
        covers(toks, t),
        tiles(ps, from, to),
        0 <= from,
        to <= t.len(),
        !pieces_encodable(toks, t, ps),
    ensures
        flat(toks, enc_pieces(toks, t, ps)).len() < to - from,
    decreases ps.len(),
{
    let pc = ps[0];
    let mid = from + pc.1;
    lemma_tiles_bound(ps.drop_first(), mid, to);
    let pb = piece_bytes(t, pc);
    assert forall|i: int| 0 <= i < pb.len() implies find_tok(toks, seq![pb[i]]) != RANK_MAX by {
        assert(pb[i] == t[from + i]);
    }
    lemma_encode_piece(toks, pb);
    let a = encode_piece(toks, pb);
    let b = enc_pieces(toks, t, ps.drop_first());
    lemma_flat_concat(toks, a, b);
    if a.len() == 0 {
        assert(flat(toks, a) =~= Seq::<u8>::empty());
        lemma_enc_flat_le(toks, t, ps.drop_first(), mid, to);
    } else {
        assert(!pieces_encodable(toks, t, ps.drop_first())) by {
            let i = choose|i: int| 0 <= i < ps.len() && !(#[trigger] encode_piece(toks, piece_bytes(t, ps[i])).len() > 0);
            assert(i != 0);
            assert(ps.drop_first()[i - 1] == ps[i]);
        }
        lemma_enc_flat_lt(toks, t, ps.drop_first(), mid, to);
        assert(flat(toks, a) == pb);
    }
}

/// Bytes in the first `k` tokens of `ids`.
pub open spec fn prefix_len(toks: Seq<Seq<u8>>, ids: Seq<u32>, k: int) -> int {
    flat(toks, ids.take(k)).len() as int
}

proof fn lemma_prefix_step(toks: Seq<Seq<u8>>, ids: Seq<u32>, k: int)
    requires
        0 <= k < ids.len(),
    ensures
        flat(toks, ids.take(k + 1)) == flat(toks, ids.take(k)) + toks[ids[k] as int],
{
    assert(ids.take(k + 1).drop_last() =~= ids.take(k));
    assert(ids.take(k + 1).last() == ids[k]);
}

/// Back `b` off to the start of the UTF-8 sequence it falls in.
pub open spec fn back_off(t: Seq<u8>, b: int) -> int
    decreases b,
{
    if b > 0 && b < t.len() && (t[b] & 0xC0u8) == 0x80u8 {
        back_off(t, b - 1)
    } else {
        b
    }
}

/// Number of leading tokens (at most `max`, counting from `k`) wholly inside `bytes`.
pub open spec fn kept_from(toks: Seq<Seq<u8>>, ids: Seq<u32>, max: int, bytes: int, k: int) -> int
    decreases max - k,
{
    if k < max && prefix_len(toks, ids, k + 1) <= bytes {
        kept_from(toks, ids, max, bytes, k + 1)
    } else {
        k
    }
}

/// What truncating `t`, encoded as `ids`, to `max` tokens gives.
pub open spec fn truncation(toks: Seq<Seq<u8>>, t: Seq<u8>, ids: Seq<u32>, max: int) -> Truncation {
    if ids.len() <= max {
        Truncation { bytes: t.len() as usize, total_tokens: ids.len() as usize, kept_tokens: ids.len() as usize }
    } else {
        let b = back_off(t, prefix_len(toks, ids, max));
        Truncation {
            bytes: b as usize,
            total_tokens: ids.len() as usize,
            kept_tokens: kept_from(toks, ids, max, b, 0) as usize,
        }
    }
}

proof fn lemma_back_off(t: Seq<u8>, b: int)
    requires
        0 <= b,
    ensures
        0 <= back_off(t, b) <= b,
        back_off(t, b) == 0 || back_off(t, b) >= t.len() || (t[back_off(t, b)] & 0xC0u8) != 0x80u8,
    decreases b,
{
    if b > 0 && b < t.len() && (t[b] & 0xC0u8) == 0x80u8 {
        lemma_back_off(t, b - 1);
    }
}

/// Backing off steps back over continuation bytes only.
proof fn lemma_back_off_max(t: Seq<u8>, b: int)
    requires
        0 <= b,
    ensures
        forall|j: int| back_off(t, b) < j <= b && j < t.len() ==> (#[trigger] t[j] & 0xC0u8) == 0x80u8,
    decreases b,
{
    lemma_back_off(t, b);
    if b > 0 && b < t.len() && (t[b] & 0xC0u8) == 0x80u8 {
        lemma_back_off_max(t, b - 1);
    }
}

/// Truncation cuts at the character boundary at or before the end of the
/// first `max` tokens, and no further back: the byte at the cut starts a
/// character (or the cut is 0), every byte between the cut and the token
/// boundary continues a character, so a cut that already falls on a
/// character start stays where it is.
pub proof fn law_truncation_cut(toks: Seq<Seq<u8>>, t: Seq<u8>, ids: Seq<u32>, max: int)
    requires
        0 <= max < ids.len(),
        ids.len() <= usize::MAX,
        t.len() <= usize::MAX,
        prefix_len(toks, ids, max) <= t.len(),
    ensures
        ({
            let r = truncation(toks, t, ids, max);
            let p = prefix_len(toks, ids, max);
            &&& r.bytes as int <= p
            &&& r.bytes == 0 || r.bytes >= t.len() || (t[r.bytes as int] & 0xC0u8) != 0x80u8
            &&& forall|j: int| r.bytes < j <= p && j < t.len() ==> (#[trigger] t[j] & 0xC0u8) == 0x80u8
            &&& (p < t.len() && (t[p] & 0xC0u8) != 0x80u8) ==> r.bytes == p
            &&& r.total_tokens == ids.len()
        }),
{
    let p = prefix_len(toks, ids, max);
    lemma_back_off(t, p);
    lemma_back_off_max(t, p);
}

/// `Tokenizer::truncate` cuts at the last character start at or before the
/// end of the first `max` tokens (see `law_truncation_cut`).
pub proof fn law_truncate_cut(tk: &Tokenizer, t: Seq<u8>, max: int)
    requires
        tk.valid(),
        t.len() <= usize::MAX,
        0 <= max < tk.encoded(t).len(),
    ensures
        ({
            let ids = tk.encoded(t);
            let r = truncation(tk.toks(), t, ids, max);
            let p = prefix_len(tk.toks(), ids, max);
            &&& p <= t.len()
            &&& r.bytes as int <= p
            &&& r.bytes == 0 || r.bytes >= t.len() || (t[r.bytes as int] & 0xC0u8) != 0x80u8
            &&& forall|j: int| r.bytes < j <= p && j < t.len() ==> (#[trigger] t[j] & 0xC0u8) == 0x80u8
            &&& (p < t.len() && (t[p] & 0xC0u8) != 0x80u8) ==> r.bytes == p
        }),
{
    let toks = tk.toks();
    let ids = tk.encoded(t);
    lemma_pieces_tile(tk.scanner_kind(), tk.cl_table(), tk.o_table(), t, 0, t.len() as int);
    lemma_byte_complete_covers(toks, t);
    lemma_enc_flat_le(toks, t, tk.pieces(t), 0, t.len() as int);
    crate::bpe::lemma_flat_len_prefix(toks, ids, max);
    assert(ids.len() <= usize::MAX) by {
        lemma_enc_ids(toks, t, tk.pieces(t));
        lemma_ids_len_le(toks, ids);
    }
    law_truncation_cut(toks, t, ids, max);
}

/// Each token holds at least one byte, so there are no more ids than bytes.
proof fn lemma_ids_len_le(toks: Seq<Seq<u8>>, ids: Seq<u32>)
    requires
        crate::vocab::toks_wf(toks),
        ids_in(toks, ids),
    ensures
        ids.len() <= flat(toks, ids).len(),
    decreases ids.len(),
{
    if ids.len() > 0 {
        assert(ids_in(toks, ids.drop_last())) by {
            assert forall|i: int| 0 <= i < ids.drop_last().len() implies ((#[trigger] ids.drop_last()[i]) as int) < toks.len() by {
                assert(ids.drop_last()[i] == ids[i]);
            }
        }
        lemma_ids_len_le(toks, ids.drop_last());
        assert(toks[ids.last() as int].len() >= 1);
    }
}

proof fn lemma_kept_from(toks: Seq<Seq<u8>>, ids: Seq<u32>, max: int, bytes: int, k: int)
    requires
        0 <= k <= max,
        prefix_len(toks, ids, k) <= bytes,
    ensures
        k <= kept_from(toks, ids, max, bytes, k) <= max,
        prefix_len(toks, ids, kept_from(toks, ids, max, bytes, k)) <= bytes,
    decreases max - k,
{
    if k < max && prefix_len(toks, ids, k + 1) <= bytes {
        lemma_kept_from(toks, ids, max, bytes, k + 1);
    }
}

impl Tokenizer {
    /// Ordinary ids, and the byte offset where each token starts, with the
    /// end of the last one appended.
    pub fn encode_with_offsets(&self, text: &[u8]) -> (r: (Vec<u32>, Vec<u32>))
        requires
            text@.len() <= u32::MAX,
        ensures
            r.0@ == self.encoded(text@),
            r.1@.len() == r.0@.len() + 1,
            forall|i: int| 0 <= i <= r.0@.len() ==> (#[trigger] r.1@[i]) as int == prefix_len(self.toks(), r.0@, i),
            pieces_encodable(self.toks(), text@, self.pieces(text@)) ==> {
                &&& r.1@[r.0@.len() as int] == text@.len()
                &&& forall|i: int| 0 <= i < r.0@.len() ==> text@.subrange(#[trigger] r.1@[i] as int, r.1@[i + 1] as int) == self.toks()[r.0@[i] as int]
            },
    {
        let ids = self.encode(text);
        self.v.well_formed();
        let _l = text.len();
        proof {
            use_type_invariant(self);
            lemma_pieces_tile(self.scanner_kind(), self.cl_table(), self.o_table(), text@, 0, text@.len() as int);
            lemma_byte_complete_covers(self.toks(), text@);
            lemma_enc_flat_le(self.toks(), text@, self.pieces(text@), 0, text@.len() as int);
            assert(ids@.take(0) =~= Seq::<u32>::empty());
        }
        let mut bounds: Vec<u32> = Vec::new();
        bounds.push(0u32);
        let mut off: u32 = 0;
        let mut i: usize = 0;
        while i < ids.len()
            invariant
                ids@ == self.encoded(text@),
                ids_in(self.toks(), ids@),
                flat(self.toks(), ids@).len() <= text@.len() <= u32::MAX,
                i <= ids@.len(),
                bounds@.len() == i + 1,
                off as int == prefix_len(self.toks(), ids@, i as int),
                forall|k: int| 0 <= k <= i ==> (#[trigger] bounds@[k]) as int == prefix_len(self.toks(), ids@, k),
            decreases ids@.len() - i,
        {
            proof {
                lemma_prefix_step(self.toks(), ids@, i as int);
                crate::bpe::lemma_flat_len_prefix(self.toks(), ids@, i + 1);
            }
            off = off + self.v.token_len(ids[i]);
            bounds.push(off);
            i = i + 1;
        }
        proof {
            if pieces_encodable(self.toks(), text@, self.pieces(text@)) {
                lemma_encoded_bytes(self.toks(), text@, self.scanner_kind(), self.cl_table(), self.o_table());
                assert(ids@.take(ids@.len() as int) =~= ids@);
                assert forall|k: int| 0 <= k < ids@.len() implies text@.subrange(#[trigger] bounds@[k] as int, bounds@[k + 1] as int)
                    == self.toks()[ids@[k] as int] by {
                    lemma_prefix_step(self.toks(), ids@, k);
                    crate::bpe::lemma_flat_len_prefix(self.toks(), ids@, k + 1);
                    let a = flat(self.toks(), ids@.take(k));
                    let tk = self.toks()[ids@[k] as int];
                    assert(text@ == a + tk + flat(self.toks(), ids@.skip(k + 1)));
                    assert(text@.subrange(a.len() as int, (a.len() + tk.len()) as int) =~= tk);
                }
            }
        }
        (ids, bounds)
    }

    /// Where to cut `text` so that it fits in `max_tokens`: the byte offset after
    /// the first `max_tokens` tokens, backed off to the start of a UTF-8
    /// sequence; the total token count; and the tokens wholly kept.
    pub fn truncate(&self, text: &[u8], max_tokens: usize) -> (r: Truncation)
        ensures
            r == truncation(self.toks(), text@, self.encoded(text@), max_tokens as int),
            r.total_tokens == self.encoded(text@).len(),
            r.kept_tokens <= max_tokens,
            r.kept_tokens <= r.total_tokens,
            r.bytes <= text@.len(),
            r.total_tokens <= max_tokens ==> r.bytes == text@.len() && r.kept_tokens == r.total_tokens,
            r.total_tokens > max_tokens ==> {
                &&& r.bytes < text@.len()
                &&& (r.bytes == 0 || (text@[r.bytes as int] & 0xC0u8) != 0x80u8)
                &&& prefix_len(self.toks(), self.encoded(text@), r.kept_tokens as int) <= r.bytes
            },
    {
        let ids = self.encode(text);
        let total_tokens = ids.len();
        if total_tokens <= max_tokens {
            return Truncation { bytes: text.len(), total_tokens, kept_tokens: total_tokens };
        }
        self.v.well_formed();
        let _l = text.len();
        proof {
            use_type_invariant(self);
            lemma_pieces_tile(self.scanner_kind(), self.cl_table(), self.o_table(), text@, 0, text@.len() as int);
            lemma_byte_complete_covers(self.toks(), text@);
            lemma_enc_flat_le(self.toks(), text@, self.pieces(text@), 0, text@.len() as int);
            assert(ids@.take(0) =~= Seq::<u32>::empty());
        }
        let mut bytes: usize = 0;
        let mut i: usize = 0;
        while i < max_tokens
            invariant
                ids@ == self.encoded(text@),
                ids_in(self.toks(), ids@),
                crate::vocab::toks_wf(self.toks()),
                flat(self.toks(), ids@).len() <= text@.len(),
                max_tokens < ids@.len(),
                i <= max_tokens,
                text@.len() <= usize::MAX,
                bytes as int == prefix_len(self.toks(), ids@, i as int),
            decreases max_tokens - i,
        {
            proof {
                lemma_prefix_step(self.toks(), ids@, i as int);
                crate::bpe::lemma_flat_len_prefix(self.toks(), ids@, i + 1);
            }
            bytes = bytes + self.v.token_len(ids[i]) as usize;
            i = i + 1;
        }
        proof {
            lemma_prefix_step(self.toks(), ids@, max_tokens as int);
            crate::bpe::lemma_flat_len_prefix(self.toks(), ids@, max_tokens + 1);
            assert(self.toks()[ids@[max_tokens as int] as int].len() >= 1);
        }
        let ghost b0 = bytes;
        while bytes > 0 && (text[bytes] & 0xC0u8) == 0x80u8
            invariant
                bytes <= b0 < text@.len(),
                back_off(text@, bytes as int) == back_off(text@, b0 as int),
            decreases bytes,
        {
            bytes = bytes - 1;
        }
        proof {
            lemma_back_off(text@, b0 as int);
            assert(ids@.take(0) =~= Seq::<u32>::empty());
        }
        let mut off: usize = 0;
        let mut kept_tokens: usize = 0;
        while kept_tokens < max_tokens
            invariant
                ids@ == self.encoded(text@),
                ids_in(self.toks(), ids@),
                flat(self.toks(), ids@).len() <= text@.len(),
                max_tokens < ids@.len(),
                kept_tokens <= max_tokens,
                off as int == prefix_len(self.toks(), ids@, kept_tokens as int),
                off <= bytes,
                bytes < text@.len(),
                text@.len() <= usize::MAX,
                kept_from(self.toks(), ids@, max_tokens as int, bytes as int, kept_tokens as int) == kept_from(
                    self.toks(),
                    ids@,
                    max_tokens as int,
                    bytes as int,
                    0,
                ),
            ensures
                kept_tokens as int == kept_from(self.toks(), ids@, max_tokens as int, bytes as int, 0),
            decreases max_tokens - kept_tokens,
        {
            proof {
                lemma_prefix_step(self.toks(), ids@, kept_tokens as int);
                crate::bpe::lemma_flat_len_prefix(self.toks(), ids@, kept_tokens + 1);
            }
            let end = off + self.v.token_len(ids[kept_tokens]) as usize;
            if end > bytes {
                break;
            }
            off = end;
            kept_tokens = kept_tokens + 1;
        }
        proof {
            lemma_kept_from(self.toks(), ids@, max_tokens as int, bytes as int, 0);
        }
        Truncation { bytes, total_tokens, kept_tokens }
    }
}


// ---- lookups ---------------------------------------------------------------------

/// The id of the first special token whose bytes are `b`, searching from `k`.
pub open spec fn special_id_of(sp: Seq<(Seq<u8>, u32)>, b: Seq<u8>, k: int) -> Option<u32>
    decreases sp.len() - k,
{
    if k < 0 || k >= sp.len() {
        None
    } else if sp[k].0 == b {
        Some(sp[k].1)
    } else {
        special_id_of(sp, b, k + 1)
    }
}

/// Vocabulary size: the largest id, specials included, plus one;
/// over the specials before `k`.
pub open spec fn n_vocab_upto(n: int, sp: Seq<(Seq<u8>, u32)>, k: int) -> int
    decreases k,
{
    if k <= 0 {
        n
    } else {
        let hi = n_vocab_upto(n, sp, k - 1);
        if sp[k - 1].1 as int + 1 > hi {
            sp[k - 1].1 as int + 1
        } else {
            hi
        }
    }
}

/// Whether `a` and `b` hold the same bytes.
pub fn bytes_eq(a: &[u8], b: &[u8]) -> (r: bool)
    ensures
        r == (a@ == b@),
{
    if a.len() != b.len() {
        return false;
    }
    let mut i: usize = 0;
    while i < a.len()
        invariant
            a@.len() == b@.len(),
            i <= a@.len(),
            forall|k: int| 0 <= k < i ==> a@[k] == b@[k],
        decreases a@.len() - i,
    {
        if a[i] != b[i] {
            return false;
        }
        i = i + 1;
    }
    proof {
        assert(a@ =~= b@);
    }
    true
}

impl Tokenizer {
    /// The underlying vocabulary.
    pub fn vocab(&self) -> (r: &Vocab)
        ensures
            r@ == self.toks(),
            *r == self.vocab_ref(),
    {
        &self.v
    }

    /// The encoding's name.
    pub fn encoding(&self) -> (r: &str)
        ensures
            r@ == self.name_view(),
    {
        self.name.as_str()
    }

    /// Number of ordinary tokens.
    pub fn vocab_size(&self) -> (r: usize)
        ensures
            r == self.toks().len(),
    {
        self.v.size()
    }

    /// The special tokens: text and id.
    pub fn special_tokens(&self) -> (r: &[(String, u32)])
        ensures
            specials_bytes(r@) == self.specials_view(),
    {
        self.specials.as_slice()
    }

    /// Vocabulary size: the largest id, specials included, plus one.
    pub fn n_vocab(&self) -> (r: usize)
        ensures
            r == n_vocab_upto(self.toks().len() as int, self.specials_view(), self.specials_view().len() as int) as usize,
    {
        let ghost sp = self.specials_view();
        let mut hi = self.v.size() as u64;
        proof {
            use_type_invariant(self);
        }
        let mut k: usize = 0;
        while k < self.specials.len()
            invariant
                sp == self.specials_view(),
                sp.len() == self.specials@.len(),
                k <= sp.len(),
                hi as int == n_vocab_upto(self.toks().len() as int, sp, k as int),
                hi <= 0x1_0000_0000,
            decreases sp.len() - k,
        {
            let sid = self.specials[k].1;
            proof {
                assert(sp[k as int].1 == sid);
            }
            if sid as u64 + 1 > hi {
                hi = sid as u64 + 1;
            }
            k = k + 1;
        }
        hi as usize
    }

    /// Whether `id` is an ordinary token or a special token.
    pub fn known_id(&self, id: u32) -> (r: bool)
        ensures
            r == ((id as int) < self.toks().len() || exists|i: int| 0 <= i < self.specials_view().len() && #[trigger] self.specials_view()[i].1 == id),
    {
        if (id as usize) < self.v.size() {
            return true;
        }
        let ghost sp = self.specials_view();
        let mut k: usize = 0;
        while k < self.specials.len()
            invariant
                sp == self.specials_view(),
                sp.len() == self.specials@.len(),
                k <= sp.len(),
                forall|i: int| 0 <= i < k ==> sp[i].1 != id,
            decreases sp.len() - k,
        {
            proof {
                assert(sp[k as int].1 == self.specials@[k as int].1);
            }
            if self.specials[k].1 == id {
                return true;
            }
            k = k + 1;
        }
        false
    }

    /// The id of the token with exactly the bytes `b`: the ordinary token first,
    /// then the first special token; -1 if neither.
    pub fn token_id(&self, b: &[u8]) -> (r: i64)
        ensures
            r == (if find_tok(self.toks(), b@) != RANK_MAX {
                find_tok(self.toks(), b@) as i64
            } else {
                match special_id_of(self.specials_view(), b@, 0) {
                    Some(id) => id as i64,
                    None => -1i64,
                }
            }),
    {
        let r = self.v.find_id(b);
        if r != RANK_MAX {
            return r as i64;
        }
        let ghost sp = self.specials_view();
        let mut k: usize = 0;
        while k < self.specials.len()
            invariant
                sp == self.specials_view(),
                sp.len() == self.specials@.len(),
                k <= sp.len(),
                special_id_of(sp, b@, k as int) == special_id_of(sp, b@, 0),
                find_tok(self.toks(), b@) == RANK_MAX,
            decreases sp.len() - k,
        {
            let st = self.specials[k].0.as_str();
            let sb = st.as_bytes();
            proof {
                assert(sp[k as int] == (encode_utf8(self.specials@[k as int].0@), self.specials@[k as int].1));
                assert(st@ == self.specials@[k as int].0@);
            }
            if bytes_eq(sb, b) {
                proof {
                    assert(sb@ == sp[k as int].0);
                    assert(special_id_of(sp, b@, k as int) == Some(sp[k as int].1));
                }
                return self.specials[k].1 as i64;
            }
            k = k + 1;
        }
        -1
    }

    /// The bytes of ordinary token `id`, if there is one.
    pub fn token_bytes(&self, id: u32) -> (r: Option<&[u8]>)
        ensures
            (id as int) < self.toks().len() ==> (r matches Some(b) && b@ == self.toks()[id as int]),
            (id as int) >= self.toks().len() ==> r is None,
    {
        if (id as usize) < self.v.size() {
            Some(self.v.token_bytes(id))
        } else {
            None
        }
    }
}


// ---- construction ------------------------------------------------------------------

/// Offset of special-token record `i`: u32 id, u16 length, then the text.
pub open spec fn sp_start(raw: Seq<u8>, i: int) -> int
    decreases i,
{
    if i <= 0 {
        4
    } else {
        let p = sp_start(raw, i - 1);
        p + 6 + le16(raw, p + 4)
    }
}

proof fn lemma_sp_start(raw: Seq<u8>, i: int)
    ensures
        sp_start(raw, i) >= 4,
    decreases i,
{
    if i > 0 {
        lemma_sp_start(raw, i - 1);
    }
}

pub open spec fn sp_len(raw: Seq<u8>, i: int) -> int {
    le16(raw, sp_start(raw, i) + 4)
}

pub open spec fn sp_text(raw: Seq<u8>, i: int) -> Seq<u8> {
    raw.subrange(sp_start(raw, i) + 6, sp_start(raw, i) + 6 + sp_len(raw, i))
}

pub open spec fn sp_id(raw: Seq<u8>, i: int) -> u32 {
    le32(raw, sp_start(raw, i)) as u32
}

/// Record `i` of a special-token file is well formed.
pub open spec fn sp_rec_ok(raw: Seq<u8>, i: int) -> bool {
    &&& sp_start(raw, i) + 6 <= raw.len()
    &&& 1 <= sp_len(raw, i) <= 64
    &&& sp_start(raw, i) + 6 + sp_len(raw, i) <= raw.len()
    &&& valid_utf8(sp_text(raw, i))
}

/// `raw` is a well-formed special-token file: u32 count (at most 4096), then
/// the records.
pub open spec fn specials_file_ok(raw: Seq<u8>) -> bool {
    &&& raw.len() >= 4
    &&& le32(raw, 0) <= 4096
    &&& forall|i: int| 0 <= i < le32(raw, 0) ==> #[trigger] sp_rec_ok(raw, i)
}

/// The special tokens a well-formed file lists: text bytes and id.
pub open spec fn parse_specials(raw: Seq<u8>) -> Seq<(Seq<u8>, u32)> {
    Seq::new(le32(raw, 0) as nat, |i: int| (sp_text(raw, i), sp_id(raw, i)))
}

/// Calls `String::from_utf8` (std). Claimed: it succeeds exactly when the bytes
/// are valid UTF-8, and the string it returns encodes to those bytes.
#[verifier::external_body]
fn string_from_utf8(b: Vec<u8>) -> (r: Option<String>)
    ensures
        r is Some <==> valid_utf8(b@),
        r matches Some(s) ==> encode_utf8(s@) == b@,
{
    String::from_utf8(b).ok()
}

/// The error for a malformed special-token file, its message built by
/// `format!` (std); nothing is claimed of the message.
#[verifier::external_body]
fn bad_specials(what: &str) -> VocabError {
    VocabError(format!("toktok: bad special-tokens file: {what}"))
}

/// The error for an encoding name that is not built in, its message built by
/// `format!` (std); nothing is claimed of the message.
#[verifier::external_body]
fn unknown_encoding(encoding: &str, known: &str) -> VocabError {
    VocabError(format!("toktok: unknown encoding: {encoding} (built-in: {known})"))
}

/// The error for a vocabulary that lacks a single-byte token, its message built
/// by `format!` (std); nothing is claimed of the message.
#[verifier::external_body]
fn incomplete_vocab(what: &str) -> VocabError {
    VocabError(format!("toktok: vocab lacks a single-byte token: {what}"))
}

/// Parse a special-token file; `what` names it in errors.
pub fn specials_from_bytes(raw: &[u8], what: &str) -> (res: Result<Vec<(String, u32)>, VocabError>)
    ensures
        res is Ok <==> specials_file_ok(raw@),
        res matches Ok(v) ==> specials_bytes(v@) == parse_specials(raw@),
{
    if raw.len() < 4 {
        return Err(bad_specials(what));
    }
    let n = rd32(raw, 0) as usize;
    if n > 4096 {
        return Err(bad_specials(what));
    }
    let mut p: usize = 4;
    let mut out: Vec<(String, u32)> = Vec::new();
    let mut i: usize = 0;
    while i < n
        invariant
            raw@.len() >= 4,
            n == le32(raw@, 0),
            n <= 4096,
            i <= n,
            p as int == sp_start(raw@, i as int),
            p <= raw@.len(),
            out@.len() == i,
            forall|k: int| 0 <= k < i ==> #[trigger] sp_rec_ok(raw@, k),
            specials_bytes(out@) == parse_specials(raw@).take(i as int),
        decreases n - i,
    {
        if raw.len() - p < 6 {
            proof {
                assert(!sp_rec_ok(raw@, i as int));
            }
            return Err(bad_specials(what));
        }
        let id = rd32(raw, p);
        let len = rd16(raw, p + 4);
        let q = p + 6;
        if len == 0 || len > 64 || len > raw.len() - q {
            proof {
                assert(!sp_rec_ok(raw@, i as int));
            }
            return Err(bad_specials(what));
        }
        let mut bytes: Vec<u8> = Vec::new();
        let mut j: usize = 0;
        while j < len
            invariant
                q + len <= raw@.len(),
                raw@.len() <= usize::MAX,
                j <= len,
                bytes@ == raw@.subrange(q as int, q + j),
            decreases len - j,
        {
            bytes.push(raw[q + j]);
            j = j + 1;
            proof {
                assert(raw@.subrange(q as int, q + j) =~= raw@.subrange(q as int, q + j - 1).push(raw@[q + j - 1]));
            }
        }
        let ghost bv = bytes@;
        let s = match string_from_utf8(bytes) {
            Some(s) => s,
            None => {
                proof {
                    assert(bv =~= sp_text(raw@, i as int));
                    assert(!sp_rec_ok(raw@, i as int));
                }
                return Err(bad_specials(what));
            },
        };
        proof {
            assert(sp_rec_ok(raw@, i as int));
            let ps = parse_specials(raw@);
            assert(specials_bytes(out@.push((s, id))) =~= ps.take(i + 1));
        }
        out.push((s, id));
        p = q + len;
        i = i + 1;
    }
    proof {
        assert(parse_specials(raw@).take(n as int) =~= parse_specials(raw@));
    }
    Ok(out)
}

/// Whether two strings are equal.
pub fn str_eq(a: &str, b: &str) -> (r: bool)
    ensures
        r == (a@ == b@),
{
    let r = bytes_eq(a.as_bytes(), b.as_bytes());
    proof {
        encode_utf8_decode_utf8(a@);
        encode_utf8_decode_utf8(b@);
    }
    r
}

/// The bundled encodings.
pub open spec fn is_builtin(e: Seq<char>) -> bool {
    e == "cl100k_base"@ || e == "o200k_base"@ || e == "o200k_harmony"@
}

/// The scanner of a bundled encoding (o200k_harmony shares o200k's pattern and ranks).
pub open spec fn scanner_of_name(e: Seq<char>) -> Scanner {
    if e == "cl100k_base"@ {
        Scanner::Cl100k
    } else {
        Scanner::O200k
    }
}

/// The data files of a bundled encoding: vocabulary, class table, special
/// tokens; and its scanner.
pub fn encoding_files(encoding: &str) -> (r: Result<(&'static str, &'static str, &'static str, Scanner), VocabError>)
    ensures
        r is Ok <==> is_builtin(encoding@),
        r matches Ok(f) ==> {
            &&& f.3 == scanner_of_name(encoding@)
            &&& encoding@ == "cl100k_base"@ ==> f.0@ == "cl100k.vocab"@ && f.1@ == "uniclass.bin"@ && f.2@ == "cl100k.special"@
            &&& encoding@ == "o200k_base"@ ==> f.0@ == "o200k.vocab"@ && f.1@ == "uniclass_o200k.bin"@ && f.2@ == "o200k.special"@
            &&& encoding@ == "o200k_harmony"@ ==> f.0@ == "o200k.vocab"@ && f.1@ == "uniclass_o200k.bin"@ && f.2@
                == "o200k_harmony.special"@
        },
{
    proof {
        reveal_strlit("cl100k_base");
        reveal_strlit("o200k_base");
        reveal_strlit("o200k_harmony");
        assert("cl100k_base"@.len() == 11);
        assert("o200k_base"@.len() == 10);
        assert("o200k_harmony"@.len() == 13);
    }
    if str_eq(encoding, "cl100k_base") {
        Ok(("cl100k.vocab", "uniclass.bin", "cl100k.special", Scanner::Cl100k))
    } else if str_eq(encoding, "o200k_base") {
        Ok(("o200k.vocab", "uniclass_o200k.bin", "o200k.special", Scanner::O200k))
    } else if str_eq(encoding, "o200k_harmony") {
        Ok(("o200k.vocab", "uniclass_o200k.bin", "o200k_harmony.special", Scanner::O200k))
    } else {
        Err(unknown_encoding(encoding, "cl100k_base, o200k_base, o200k_harmony"))
    }
}


/// Whether every single byte is a token of `v`.
fn check_byte_complete(v: &Vocab) -> (r: bool)
    ensures
        r == byte_complete(v@),
{
    let mut b: u32 = 0;
    while b < 256
        invariant
            b <= 256,
            forall|x: u8| (x as u32) < b ==> #[trigger] find_tok(v@, seq![x]) != RANK_MAX,
        decreases 256 - b,
    {
        let mut one: Vec<u8> = Vec::new();
        one.push(b as u8);
        proof {
            assert(one@ =~= seq![b as u8]);
        }
        if v.find_id(one.as_slice()) == RANK_MAX {
            return false;
        }
        b = b + 1;
    }
    true
}

/// Number of classes the scanner's class file holds.
pub open spec fn classes_for(sc: Scanner) -> int {
    match sc {
        Scanner::Cl100k => 3,
        Scanner::O200k => 5,
    }
}

impl Tokenizer {
    /// Build a bundled encoding from its data: the vocabulary file, the class
    /// file of its scanner, and the special-token file if there is one.
    pub fn from_parts(encoding: &str, vocab: &[u8], uniclass: &[u8], specials: Option<&[u8]>) -> (res: Result<
        Tokenizer,
        VocabError,
    >)
        ensures
            res is Ok <==> {
                &&& is_builtin(encoding@)
                &&& vocab_file_ok(vocab@)
                &&& 1 + token_prefixes(parse_vocab(vocab@)).len() < TRIE_MAX_NODES
                &&& class_file_ok(uniclass@, classes_for(scanner_of_name(encoding@)))
                &&& (specials matches Some(r) ==> specials_file_ok(r@))
                &&& byte_complete(parse_vocab(vocab@))
            },
            res matches Ok(tk) ==> tk.valid(),
            res matches Ok(tk) ==> is_builtin(encoding@),
            res matches Ok(tk) ==> tk.name_view() == encoding@,
            res matches Ok(tk) ==> tk.scanner_kind() == scanner_of_name(encoding@),
            res matches Ok(tk) ==> tk.toks() == parse_vocab(vocab@),
            res matches Ok(tk) ==> tk.specials_view() == (match specials {
                Some(r) => parse_specials(r@),
                None => seq![],
            }),
            res matches Ok(tk) ==> (tk.scanner_kind() == Scanner::Cl100k ==> tables_from(tk.cl_table(), uniclass@, 3)),
            res matches Ok(tk) ==> (tk.scanner_kind() == Scanner::O200k ==> tables_from(tk.o_table(), uniclass@, 5)),
    {
        let files = encoding_files(encoding);
        let scanner = match files {
            Ok(f) => f.3,
            Err(e) => {
                return Err(e);
            },
        };
        let v = match Vocab::from_bytes(vocab, encoding) {
            Ok(v) => v,
            Err(e) => {
                return Err(e);
            },
        };
        let (u, uo) = match scanner {
            Scanner::Cl100k => match UClass::from_bytes(uniclass, encoding) {
                Ok(u) => {
                    assert(tables_from(u.table(), uniclass@, 3));
                    (u, UClassO::empty())
                },
                Err(e) => {
                    return Err(e);
                },
            },
            Scanner::O200k => match UClassO::from_bytes(uniclass, encoding) {
                Ok(uo) => (UClass::empty(), uo),
                Err(e) => {
                    return Err(e);
                },
            },
        };
        let sp: Vec<(String, u32)> = match specials {
            Some(r) => match specials_from_bytes(r, encoding) {
                Ok(sp) => sp,
                Err(e) => {
                    return Err(e);
                },
            },
            None => Vec::new(),
        };
        if !check_byte_complete(&v) {
            return Err(incomplete_vocab(encoding));
        }
        v.well_formed();
        proof {
            if specials is None {
                assert(specials_bytes(sp@) =~= Seq::<(Seq<u8>, u32)>::empty());
            }
            assert forall|i: int| 0 <= i < specials_bytes(sp@).len() implies 1 <= (#[trigger] specials_bytes(sp@)[i]).0.len()
                <= 64 by {
                match specials {
                    Some(r) => {
                        assert(sp_rec_ok(r@, i));
                        lemma_sp_start(r@, i);
                        assert(specials_bytes(sp@)[i] == parse_specials(r@)[i]);
                    },
                    None => {},
                }
            }
        }
        let name = encoding.to_owned();
        let tk = Tokenizer { v, name, scanner, u, uo, specials: sp };
        Ok(tk)
    }
}


// ---- special tokens in the text --------------------------------------------------

/// The first position at or after `from` where `needle` occurs in `hay`; none
/// for an empty needle.
pub open spec fn find_first(hay: Seq<u8>, needle: Seq<u8>, from: int) -> Option<int>
    decreases hay.len() - from,
{
    if needle.len() == 0 || from < 0 || from + needle.len() > hay.len() {
        None
    } else if hay.subrange(from, from + needle.len()) == needle {
        Some(from)
    } else {
        find_first(hay, needle, from + 1)
    }
}

proof fn lemma_find_first(hay: Seq<u8>, needle: Seq<u8>, from: int)
    ensures
        find_first(hay, needle, from) matches Some(q) ==> 0 <= from <= q && q + needle.len() <= hay.len() && needle.len() >= 1,
    decreases hay.len() - from,
{
    if !(needle.len() == 0 || from < 0 || from + needle.len() > hay.len()) && hay.subrange(from, from + needle.len()) != needle {
        lemma_find_first(hay, needle, from + 1);
    }
}

/// The leftmost occurrence of `needle` in `hay` at or after `from`.
pub fn find_from(hay: &[u8], needle: &[u8], from: usize) -> (r: Option<usize>)
    ensures
        r matches Some(q) ==> find_first(hay@, needle@, from as int) == Some(q as int),
        r is None ==> find_first(hay@, needle@, from as int) is None,
{
    let n = needle.len();
    let len = hay.len();
    if n == 0 || n > len || from > len - n {
        return None;
    }
    let first = needle[0];
    let mut i = from;
    while i <= len - n
        invariant
            n == needle@.len(),
            len == hay@.len(),
            1 <= n <= len,
            first == needle@[0],
            from <= i,
            find_first(hay@, needle@, i as int) == find_first(hay@, needle@, from as int),
        decreases len - i,
    {
        if hay[i] == first {
            let w = vstd::slice::slice_subrange(hay, i, i + n);
            if bytes_eq(w, needle) {
                return Some(i);
            }
            assert(find_first(hay@, needle@, i as int) == find_first(hay@, needle@, i + 1));
        } else {
            proof {
                if hay@.subrange(i as int, i + n) == needle@ {
                    assert(hay@.subrange(i as int, i + n)[0] == hay@[i as int]);
                }
                assert(hay@.subrange(i as int, i + n) != needle@);
                assert(find_first(hay@, needle@, i as int) == find_first(hay@, needle@, i + 1));
            }
        }
        i = i + 1;
    }
    None
}

/// The special tokens that `mask` selects, in order.
pub open spec fn allowed_of(sp: Seq<(Seq<u8>, u32)>, mask: Seq<bool>) -> Seq<(Seq<u8>, u32)>
    decreases sp.len(),
{
    if sp.len() == 0 {
        seq![]
    } else if mask[sp.len() - 1] {
        allowed_of(sp.drop_last(), mask).push(sp.last())
    } else {
        allowed_of(sp.drop_last(), mask)
    }
}

/// The leftmost occurrence at or after `p` among the first `k` allowed specials:
/// (position, index), position -1 when none occurs. Ties go to the earlier one.
pub open spec fn best_special(a: Seq<(Seq<u8>, u32)>, t: Seq<u8>, p: int, k: int) -> (int, int)
    decreases k,
{
    if k <= 0 {
        (-1, 0)
    } else {
        let prev = best_special(a, t, p, k - 1);
        match find_first(t, a[k - 1].0, p) {
            Some(q) => if prev.0 < 0 || q < prev.0 {
                (q, k - 1)
            } else {
                prev
            },
            None => prev,
        }
    }
}

proof fn lemma_best_special(a: Seq<(Seq<u8>, u32)>, t: Seq<u8>, p: int, k: int)
    requires
        0 <= k <= a.len(),
    ensures
        best_special(a, t, p, k).0 >= 0 ==> {
            let b = best_special(a, t, p, k);
            &&& 0 <= b.1 < k
            &&& find_first(t, a[b.1].0, p) == Some(b.0)
        },
        best_special(a, t, p, k).0 < 0 ==> best_special(a, t, p, k).0 == -1,
    decreases k,
{
    if k > 0 {
        lemma_best_special(a, t, p, k - 1);
        lemma_find_first(t, a[k - 1].0, p);
    }
}

/// Searching from `from` in `hay` is searching from `from - p` in `hay` after its first `p` bytes.
proof fn lemma_find_first_shift(hay: Seq<u8>, needle: Seq<u8>, p: int, from: int)
    requires
        0 <= p <= from,
        p <= hay.len(),
    ensures
        find_first(hay, needle, from) == (match find_first(hay.skip(p), needle, from - p) {
            Some(q) => Some(q + p),
            None => None,
        }),
    decreases hay.len() - from,
{
    let h2 = hay.skip(p);
    if needle.len() == 0 || from + needle.len() > hay.len() {
    } else {
        assert(hay.subrange(from, from + needle.len()) =~= h2.subrange(from - p, from - p + needle.len()));
        if hay.subrange(from, from + needle.len()) != needle {
            lemma_find_first_shift(hay, needle, p, from + 1);
        }
    }
}

proof fn lemma_best_special_shift(a: Seq<(Seq<u8>, u32)>, t: Seq<u8>, p: int, q: int, k: int)
    requires
        0 <= p <= q,
        p <= t.len(),
        0 <= k <= a.len(),
    ensures
        best_special(a, t, q, k).1 == best_special(a, t.skip(p), q - p, k).1,
        best_special(a, t, q, k).0 < 0 <==> best_special(a, t.skip(p), q - p, k).0 < 0,
        best_special(a, t, q, k).0 >= 0 ==> best_special(a, t, q, k).0 == best_special(a, t.skip(p), q - p, k).0 + p,
    decreases k,
{
    lemma_best_special(a, t, q, k);
    lemma_best_special(a, t.skip(p), q - p, k);
    if k > 0 {
        lemma_best_special_shift(a, t, p, q, k - 1);
        lemma_find_first_shift(t, a[k - 1].0, p, q);
        lemma_best_special(a, t, q, k - 1);
        lemma_best_special(a, t.skip(p), q - p, k - 1);
        lemma_find_first(t, a[k - 1].0, q);
        lemma_find_first(t.skip(p), a[k - 1].0, q - p);
    }
}

/// Encoding from offset `q` is encoding the text after its first `p` bytes from `q - p`.
proof fn lemma_encoded_with_shift(tk: &Tokenizer, a: Seq<(Seq<u8>, u32)>, t: Seq<u8>, p: int, q: int)
    requires
        0 <= p <= q,
        p <= t.len(),
    ensures
        tk.encoded_with(a, t, q) == tk.encoded_with(a, t.skip(p), q - p),
    decreases t.len() - q,
{
    let t2 = t.skip(p);
    if q < t.len() {
        lemma_best_special(a, t, q, a.len() as int);
        lemma_best_special_shift(a, t, p, q, a.len() as int);
        let b = best_special(a, t, q, a.len() as int);
        let b2 = best_special(a, t2, q - p, a.len() as int);
        assert(t.subrange(q, t.len() as int) =~= t2.subrange(q - p, t2.len() as int));
        if b.0 >= 0 {
            lemma_find_first(t, a[b.1].0, q);
            assert(t.subrange(q, b.0) =~= t2.subrange(q - p, b2.0));
            if p <= b.0 && 0 <= b.1 < a.len() && 1 <= a[b.1].0.len() && b.0 + a[b.1].0.len() <= t.len() {
                lemma_encoded_with_shift(tk, a, t, p, b.0 + a[b.1].0.len());
            }
        }
    }
}

/// The special-token split: the leftmost occurrence of an allowed special
/// (the earlier special on a tie) becomes its id, the text before it is
/// encoded as ordinary text, and the rest is split the same way; with no
/// occurrence, all of it is ordinary text.
pub proof fn law_encoded_with_split(tk: &Tokenizer, a: Seq<(Seq<u8>, u32)>, t: Seq<u8>)
    requires
        t.len() > 0,
    ensures
        ({
            let b = best_special(a, t, 0, a.len() as int);
            &&& b.0 < 0 ==> tk.encoded_with(a, t, 0) == tk.encoded(t)
            &&& b.0 >= 0 ==> {
                &&& 0 <= b.1 < a.len()
                &&& find_first(t, a[b.1].0, 0) == Some(b.0)
                &&& forall|i: int| 0 <= i < a.len() && (#[trigger] find_first(t, a[i].0, 0)) is Some ==> b.0 <= find_first(t, a[i].0, 0).unwrap()
                    && (find_first(t, a[i].0, 0).unwrap() == b.0 ==> b.1 <= i)
                &&& tk.encoded_with(a, t, 0) == (if b.0 > 0 {
                    tk.encoded(t.take(b.0))
                } else {
                    seq![]
                }) + seq![a[b.1].1] + tk.encoded_with(a, t.skip(b.0 + a[b.1].0.len()), 0)
            }
        }),
{
    let b = best_special(a, t, 0, a.len() as int);
    lemma_best_special(a, t, 0, a.len() as int);
    lemma_best_special_min(a, t, 0, a.len() as int);
    assert(t.subrange(0, t.len() as int) =~= t);
    if b.0 >= 0 {
        lemma_find_first(t, a[b.1].0, 0);
        assert(t.subrange(0, b.0) =~= t.take(b.0));
        lemma_encoded_with_shift(tk, a, t, b.0 + a[b.1].0.len(), b.0 + a[b.1].0.len());
    }
}

/// The best special is the leftmost occurrence, the earlier special on a tie.
proof fn lemma_best_special_min(a: Seq<(Seq<u8>, u32)>, t: Seq<u8>, p: int, k: int)
    requires
        0 <= k <= a.len(),
    ensures
        forall|i: int| 0 <= i < k && (#[trigger] find_first(t, a[i].0, p)) is Some ==> {
            let b = best_special(a, t, p, k);
            let q = find_first(t, a[i].0, p).unwrap();
            &&& b.0 >= 0
            &&& b.0 <= q
            &&& (q == b.0 ==> b.1 <= i)
        },
    decreases k,
{
    if k > 0 {
        lemma_best_special_min(a, t, p, k - 1);
        lemma_best_special(a, t, p, k - 1);
        lemma_find_first(t, a[k - 1].0, p);
    }
}

proof fn lemma_allowed_of(sp: Seq<(Seq<u8>, u32)>, mask: Seq<bool>)
    requires
        specials_wf(sp),
    ensures
        specials_wf(allowed_of(sp, mask)),
    decreases sp.len(),
{
    if sp.len() > 0 {
        assert(specials_wf(sp.drop_last())) by {
            assert forall|i: int| 0 <= i < sp.drop_last().len() implies 1 <= (#[trigger] sp.drop_last()[i]).0.len() <= 64 by {
                assert(sp.drop_last()[i] == sp[i]);
            }
        }
        lemma_allowed_of(sp.drop_last(), mask);
        let r = allowed_of(sp.drop_last(), mask);
        if mask[sp.len() - 1] {
            assert forall|i: int| 0 <= i < r.push(sp.last()).len() implies 1 <= (#[trigger] r.push(sp.last())[i]).0.len() <= 64 by {
                if i < r.len() {
                    assert(r.push(sp.last())[i] == r[i]);
                } else {
                    assert(sp.last() == sp[sp.len() - 1]);
                }
            }
        }
    }
}

/// The leftmost occurrence at or after `p` of any of `allowed`, as
/// `best_special` (position `usize::MAX` when none occurs).
fn find_best(allowed: &Vec<(&[u8], u32)>, bytes: &[u8], p: usize) -> (r: (usize, usize))
    requires
        p < bytes@.len(),
    ensures
        ({
            let a = allowed@.map_values(|x: (&[u8], u32)| (x.0@, x.1));
            let b = best_special(a, bytes@, p as int, a.len() as int);
            &&& b.0 < 0 ==> r.0 == usize::MAX
            &&& b.0 >= 0 ==> r.0 == b.0 && r.1 == b.1
        }),
{
    let ghost a = allowed@.map_values(|x: (&[u8], u32)| (x.0@, x.1));
    let ghost t = bytes@;
    let len = bytes.len();
    let mut best_pos: usize = usize::MAX;
    let mut best_i: usize = 0;
    let mut j: usize = 0;
    while j < allowed.len()
        invariant
            t == bytes@,
            len == t.len(),
            p < len,
            a == allowed@.map_values(|x: (&[u8], u32)| (x.0@, x.1)),
            j <= a.len(),
            best_special(a, t, p as int, j as int).0 < 0 ==> best_pos == usize::MAX,
            best_special(a, t, p as int, j as int).0 >= 0 ==> best_pos == best_special(a, t, p as int, j as int).0 && best_i
                == best_special(a, t, p as int, j as int).1,
            best_pos == usize::MAX || best_pos < len,
        decreases a.len() - j,
    {
        proof {
            lemma_best_special(a, t, p as int, j as int);
            lemma_find_first(t, a[j as int].0, p as int);
        }
        match find_from(bytes, allowed[j].0, p) {
            Some(q) => {
                if q < best_pos {
                    best_pos = q;
                    best_i = j;
                }
            },
            None => {},
        }
        j = j + 1;
    }
    (best_pos, best_i)
}

impl Tokenizer {
    /// The encoding of `t[p..]` with the specials of `a` turned into their ids:
    /// the leftmost special occurrence is cut out, the text before it encoded
    /// ordinarily, and the rest handled the same way.
    pub open spec fn encoded_with(&self, a: Seq<(Seq<u8>, u32)>, t: Seq<u8>, p: int) -> Seq<u32>
        decreases t.len() - p,
    {
        if p < 0 || p >= t.len() {
            seq![]
        } else {
            let b = best_special(a, t, p, a.len() as int);
            if b.0 < 0 {
                self.encoded(t.subrange(p, t.len() as int))
            } else if p <= b.0 && 0 <= b.1 < a.len() && 1 <= a[b.1].0.len() && b.0 + a[b.1].0.len() <= t.len() {
                (if b.0 > p {
                    self.encoded(t.subrange(p, b.0))
                } else {
                    seq![]
                }) + seq![a[b.1].1] + self.encoded_with(a, t, b.0 + a[b.1].0.len())
            } else {
                seq![]
            }
        }
    }

    /// Text of special token `i`.
    pub closed spec fn special_text(&self, i: int) -> Seq<char> {
        self.specials@[i].0@
    }

    /// Encode `text` with the special tokens that `mask` selects turned into
    /// their ids.
    pub fn encode_allowed_mask(&self, text: &str, mask: &[bool]) -> (r: Vec<u32>)
        requires
            mask@.len() == self.specials_view().len(),
        ensures
            r@ == self.encoded_with(allowed_of(self.specials_view(), mask@), encode_utf8(text@), 0),
    {
        proof {
            use_type_invariant(self);
        }
        let bytes = text.as_bytes();
        let ghost t = bytes@;
        let ghost sp = self.specials_view();
        let mut allowed: Vec<(&[u8], u32)> = Vec::new();
        let mut i: usize = 0;
        while i < self.specials.len()
            invariant
                sp == self.specials_view(),
                specials_wf(sp),
                sp.len() == self.specials@.len(),
                mask@.len() == sp.len(),
                i <= sp.len(),
                allowed@.map_values(|x: (&[u8], u32)| (x.0@, x.1)) == allowed_of(sp.take(i as int), mask@),
            decreases sp.len() - i,
        {
            let ghost before = allowed@;
            if mask[i] {
                let st = self.specials[i].0.as_str();
                let sb = st.as_bytes();
                proof {
                    assert(sp[i as int] == (encode_utf8(self.specials@[i as int].0@), self.specials@[i as int].1));
                    assert(st@ == self.specials@[i as int].0@);
                }
                allowed.push((sb, self.specials[i].1));
            }
            proof {
                let s2 = sp.take(i + 1);
                assert(s2.drop_last() =~= sp.take(i as int));
                assert(s2.last() == sp[i as int]);
                assert(allowed@.map_values(|x: (&[u8], u32)| (x.0@, x.1)) =~= allowed_of(s2, mask@));
            }
            i = i + 1;
        }
        proof {
            assert(sp.take(sp.len() as int) =~= sp);
            lemma_allowed_of(sp, mask@);
        }
        let ghost a = allowed_of(sp, mask@);
        let mut out: Vec<u32> = Vec::new();
        let len = bytes.len();
        let mut p: usize = 0;
        while p < len
            invariant
                t == bytes@,
                t == encode_utf8(text@),
                a == allowed_of(self.specials_view(), mask@),
                len == t.len(),
                p <= len,
                a == allowed@.map_values(|x: (&[u8], u32)| (x.0@, x.1)),
                forall|j: int| 0 <= j < a.len() ==> 1 <= (#[trigger] a[j]).0.len() <= 64,
                out@ + self.encoded_with(a, t, p as int) == self.encoded_with(a, t, 0),
            decreases len - p,
        {
            let (best_pos, best_i) = find_best(&allowed, bytes, p);
            proof {
                lemma_best_special(a, t, p as int, a.len() as int);
                let bs = best_special(a, t, p as int, a.len() as int);
                if bs.0 >= 0 {
                    lemma_find_first(t, a[bs.1].0, p as int);
                }
            }
            if best_pos == usize::MAX {
                let rest = vstd::slice::slice_subrange(bytes, p, len);
                self.encode_into(rest, &mut out);
                proof {
                    assert(self.encoded_with(a, t, len as int) =~= Seq::<u32>::empty());
                    assert(out@ =~= self.encoded_with(a, t, 0));
                }
                return out;
            }
            let ghost before = out@;
            proof {
                lemma_find_first(t, a[best_i as int].0, p as int);
            }
            if best_pos > p {
                let mid = vstd::slice::slice_subrange(bytes, p, best_pos);
                self.encode_into(mid, &mut out);
            }
            out.push(allowed[best_i].1);
            let np = best_pos + allowed[best_i].0.len();
            proof {
                let e = (if best_pos > p {
                    self.encoded(t.subrange(p as int, best_pos as int))
                } else {
                    seq![]
                });
                assert(self.encoded_with(a, t, p as int) == e + seq![a[best_i as int].1] + self.encoded_with(a, t, np as int));
                assert(out@ =~= before + e + seq![a[best_i as int].1]);
                assert(out@ + self.encoded_with(a, t, np as int) =~= before + self.encoded_with(a, t, p as int));
            }
            p = np;
        }
        proof {
            assert(self.encoded_with(a, t, p as int) =~= Seq::<u32>::empty());
            assert(out@ =~= self.encoded_with(a, t, 0));
        }
        out
    }
}


proof fn lemma_allowed_all(sp: Seq<(Seq<u8>, u32)>, mask: Seq<bool>)
    requires
        mask.len() >= sp.len(),
        forall|i: int| 0 <= i < mask.len() ==> #[trigger] mask[i],
    ensures
        allowed_of(sp, mask) == sp,
    decreases sp.len(),
{
    if sp.len() > 0 {
        lemma_allowed_all(sp.drop_last(), mask);
        assert(sp.drop_last().push(sp.last()) =~= sp);
    }
}

/// Calls `std::str::from_utf8`. Claimed: it succeeds exactly when the bytes are
/// valid UTF-8, and the string it returns encodes to those bytes.
#[verifier::external_body]
fn str_from_utf8(b: &[u8]) -> (r: Option<&str>)
    ensures
        r is Some <==> valid_utf8(b@),
        r matches Some(s) ==> encode_utf8(s@) == b@,
{
    std::str::from_utf8(b).ok()
}

impl Tokenizer {
    /// `mask[k]` is an answer `allow` may give for special token `k`'s text.
    pub open spec fn answered<F: Fn(&str) -> bool>(&self, allow: F, mask: Seq<bool>, k: int) -> bool {
        exists|s: &str| s@ == self.special_text(k) && #[trigger] call_ensures(allow, (s,), mask[k])
    }

    /// Encode `text` with the special tokens for which `allow` says yes turned
    /// into their ids (`allow` is asked once per special token, in order).
    pub fn encode_allowed<F: Fn(&str) -> bool>(&self, text: &str, allow: F) -> (r: Vec<u32>)
        requires
            forall|s: &str| #[trigger] call_requires(allow, (s,)),
        ensures
            exists|mask: Seq<bool>|
                {
                    &&& mask.len() == self.specials_view().len()
                    &&& forall|i: int| 0 <= i < mask.len() ==> #[trigger] self.answered(allow, mask, i)
                    &&& r@ == self.encoded_with(allowed_of(self.specials_view(), mask), encode_utf8(text@), 0)
                },
    {
        let mut mask: Vec<bool> = Vec::new();
        let mut i: usize = 0;
        while i < self.specials.len()
            invariant
                forall|s: &str| #[trigger] call_requires(allow, (s,)),
                i <= self.specials@.len(),
                mask@.len() == i,
                self.specials_view().len() == self.specials@.len(),
                forall|k: int| 0 <= k < i ==> #[trigger] self.answered(allow, mask@, k),
            decreases self.specials@.len() - i,
        {
            let st = self.specials[i].0.as_str();
            let yes = allow(st);
            let ghost m0 = mask@;
            mask.push(yes);
            proof {
                assert forall|k: int| 0 <= k < i + 1 implies #[trigger] self.answered(allow, mask@, k) by {
                    if k < i {
                        assert(mask@[k] == m0[k]);
                        assert(self.answered(allow, m0, k));
                    } else {
                        assert(st@ == self.special_text(k));
                        assert(call_ensures(allow, (st,), mask@[k]));
                    }
                }
            }
            i = i + 1;
        }
        self.encode_allowed_mask(text, mask.as_slice())
    }

    /// Encode `text`, turning every occurrence of a special token's text into
    /// its id.
    pub fn encode_with_special(&self, text: &str) -> (r: Vec<u32>)
        ensures
            r@ == self.encoded_with(self.specials_view(), encode_utf8(text@), 0),
    {
        let mut mask: Vec<bool> = Vec::new();
        let mut i: usize = 0;
        while i < self.specials.len()
            invariant
                i <= self.specials@.len(),
                mask@.len() == i,
                forall|k: int| 0 <= k < i ==> #[trigger] mask@[k],
            decreases self.specials@.len() - i,
        {
            mask.push(true);
            i = i + 1;
        }
        proof {
            lemma_allowed_all(self.specials_view(), mask@);
        }
        self.encode_allowed_mask(text, mask.as_slice())
    }

    /// What a batch call gives for one text: with `with_special` and valid
    /// UTF-8, the encoding with special tokens; else the ordinary encoding.
    pub open spec fn batch_one(&self, b: Seq<u8>, with_special: bool) -> Seq<u32> {
        if with_special && valid_utf8(b) {
            self.encoded_with(self.specials_view(), b, 0)
        } else {
            self.encoded(b)
        }
    }

    fn encode_one(&self, b: &[u8], with_special: bool) -> (r: Vec<u32>)
        ensures
            r@ == self.batch_one(b@, with_special),
    {
        if with_special {
            match str_from_utf8(b) {
                Some(st) => self.encode_with_special(st),
                None => self.encode(b),
            }
        } else {
            self.encode(b)
        }
    }

    /// Encode many texts; the result does not depend on `threads` (this build
    /// encodes them in order on the calling thread).
    pub fn encode_batch(&self, texts: &[&[u8]], threads: usize, with_special: bool) -> (r: Vec<Vec<u32>>)
        ensures
            r@.len() == texts@.len(),
            forall|i: int| 0 <= i < texts@.len() ==> (#[trigger] r@[i])@ == self.batch_one(texts@[i]@, with_special),
    {
        let mut out: Vec<Vec<u32>> = Vec::new();
        let mut i: usize = 0;
        while i < texts.len()
            invariant
                i <= texts@.len(),
                out@.len() == i,
                forall|k: int| 0 <= k < i ==> (#[trigger] out@[k])@ == self.batch_one(texts@[k]@, with_special),
            decreases texts@.len() - i,
        {
            let ids = self.encode_one(texts[i], with_special);
            out.push(ids);
            i = i + 1;
        }
        out
    }

    /// Token counts of many texts (each `as u32`); the result does not depend
    /// on `threads`.
    pub fn count_batch(&self, texts: &[&[u8]], threads: usize, with_special: bool) -> (r: Vec<u32>)
        ensures
            r@.len() == texts@.len(),
            forall|i: int| 0 <= i < texts@.len() ==> #[trigger] r@[i] == self.batch_one(texts@[i]@, with_special).len() as u32,
    {
        let mut out: Vec<u32> = Vec::new();
        let mut i: usize = 0;
        while i < texts.len()
            invariant
                i <= texts@.len(),
                out@.len() == i,
                forall|k: int| 0 <= k < i ==> #[trigger] out@[k] == self.batch_one(texts@[k]@, with_special).len() as u32,
            decreases texts@.len() - i,
        {
            let ids = self.encode_one(texts[i], with_special);
            out.push(ids.len() as u32);
            i = i + 1;
        }
        out
    }

    /// `truncate` over many texts; the result does not depend on `threads`.
    pub fn truncate_batch(&self, texts: &[&[u8]], max_tokens: usize, threads: usize) -> (r: Vec<Truncation>)
        ensures
            r@.len() == texts@.len(),
            forall|i: int|
                0 <= i < texts@.len() ==> #[trigger] r@[i] == truncation(self.toks(), texts@[i]@, self.encoded(texts@[i]@), max_tokens as int),
    {
        let mut out: Vec<Truncation> = Vec::new();
        let mut i: usize = 0;
        while i < texts.len()
            invariant
                i <= texts@.len(),
                out@.len() == i,
                forall|k: int|
                    0 <= k < i ==> #[trigger] out@[k] == truncation(self.toks(), texts@[k]@, self.encoded(texts@[k]@), max_tokens as int),
            decreases texts@.len() - i,
        {
            let t = self.truncate(texts[i], max_tokens);
            out.push(t);
            i = i + 1;
        }
        out
    }
}


// ---- memory ----------------------------------------------------------------------

/// Bytes held by the first `k` special tokens: text plus one table entry each.
pub open spec fn specials_mem(sp: Seq<(Seq<u8>, u32)>, k: int, entry: int) -> int
    decreases k,
{
    if k <= 0 {
        0
    } else {
        specials_mem(sp, k - 1, entry) + sp[k - 1].0.len() + entry
    }
}

impl Tokenizer {
    pub closed spec fn classes_mem(&self) -> int {
        self.u.spec_memory_bytes() + self.uo.spec_memory_bytes()
    }

    /// Heap bytes of this encoding: vocabulary tables, class tables and special
    /// tokens (saturated at `usize::MAX`).
    pub fn memory_bytes(&self) -> (r: usize)
        ensures
            r == sat(self.vocab_ref().mem_total() + self.classes_mem() + specials_mem(
                self.specials_view(),
                self.specials_view().len() as int,
                vstd::layout::size_of::<(String, u32)>() as int,
            )),
            r >= sat(self.vocab_ref().mem_total()),
    {
        let entry = core::mem::size_of::<(String, u32)>();
        let ghost sp = self.specials_view();
        let mut spm: usize = 0;
        let mut k: usize = 0;
        while k < self.specials.len()
            invariant
                sp == self.specials_view(),
                sp.len() == self.specials@.len(),
                k <= sp.len(),
                entry as int == vstd::layout::size_of::<(String, u32)>(),
                spm as int == sat(specials_mem(sp, k as int, entry as int)),
            decreases sp.len() - k,
        {
            let st = self.specials[k].0.as_str();
            proof {
                assert(sp[k as int] == (encode_utf8(self.specials@[k as int].0@), self.specials@[k as int].1));
                assert(st@ == self.specials@[k as int].0@);
                lemma_specials_mem(sp, k as int, entry as int);
                lemma_sat_add(specials_mem(sp, k as int, entry as int), sp[k as int].0.len() + entry);
            }
            let sl = st.as_bytes().len();
            proof {
                assert(sl == sp[k as int].0.len());
            }
            let x = sat_add(sl, entry);
            assert(x == sat(sp[k as int].0.len() + entry));
            spm = sat_add(spm, x);
            assert(spm == sat(specials_mem(sp, k + 1, entry as int)));
            k = k + 1;
        }
        let vb = self.v.memory_bytes();
        let ub = self.u.memory_bytes();
        let ob = self.uo.memory_bytes();
        let r = sat_add(sat_add(sat_add(vb, ub), ob), spm);
        proof {
            lemma_specials_mem(sp, sp.len() as int, entry as int);
            self.v.lemma_mem_nonneg();
            let a = self.vocab_ref().mem_total();
            let b = self.u.spec_memory_bytes();
            let c = self.uo.spec_memory_bytes();
            let d = specials_mem(sp, sp.len() as int, entry as int);
            lemma_sat_add(a, b);
            lemma_sat_add(a + b, c);
            lemma_sat_add(a + b + c, d);
        }
        r
    }
}

proof fn lemma_specials_mem(sp: Seq<(Seq<u8>, u32)>, k: int, entry: int)
    requires
        entry >= 0,
    ensures
        specials_mem(sp, k, entry) >= 0,
    decreases k,
{
    if k > 0 {
        lemma_specials_mem(sp, k - 1, entry);
    }
}


// ---- the fused machine splits as the pretokenizer does ------------------------------

proof fn lemma_cl_pieces_agree(cl: ClassTable, o: ClassTable, t: Seq<u8>, p: int, l: int)
    requires
        ascii_consistent(cl),
        0 <= p <= l <= t.len(),
    ensures
        pieces_from(Scanner::Cl100k, cl, o, t, p, l) == pretok_pieces(cl, t, p, l),
    decreases l - p,
{
    if p < l {
        lemma_cl_next_len_pos(cl, t, p, l);
        lemma_cl_next_len(cl, t, p, l, false, false);
        if cl_fast_len(t, p, l) > 0 {
            lemma_cl_fast_agrees(cl, t, p, l);
        }
        if crate::pretok::word_fast_end(t, p, l) > 0 {
            lemma_word_fast_agrees(cl, t, p, l);
        }
        assert(piece_len(Scanner::Cl100k, cl, o, t, p, l) == pretok_piece_len(cl, t, p, l));
        lemma_cl_pieces_agree(cl, o, t, p + pretok_piece_len(cl, t, p, l), l);
    }
}

/// A cl100k tokenizer encodes each pretoken of `pretok` on its own: its fused
/// fast paths split the text exactly as the Unicode scanner does, for class
/// tables that agree with ASCII on ASCII code points.
pub proof fn law_encode_splits_like_pretok(tk: &Tokenizer, t: Seq<u8>)
    requires
        tk.scanner_kind() == Scanner::Cl100k,
        ascii_consistent(tk.cl_table()),
    ensures
        tk.pieces(t) == pretok_pieces(tk.cl_table(), t, 0, t.len() as int),
        tk.encoded(t) == enc_pieces(tk.toks(), t, pretok_pieces(tk.cl_table(), t, 0, t.len() as int)),
{
    lemma_cl_pieces_agree(tk.cl_table(), tk.o_table(), t, 0, t.len() as int);
}


proof fn lemma_o_pieces_agree(cl: ClassTable, o: ClassTable, t: Seq<u8>, p: int, l: int)
    requires
        ascii_consistent_o(o),
        0 <= p <= l <= t.len(),
    ensures
        pieces_from(Scanner::O200k, cl, o, t, p, l) == o_pieces(o, t, p, l),
    decreases l - p,
{
    if p < l {
        lemma_o_next_len(o, t, p, l, true, false);
        if o_fast_len(t, p, l) > 0 {
            lemma_o_fast_agrees(o, t, p, l);
        }
        assert(piece_len(Scanner::O200k, cl, o, t, p, l) == o_next_len(o, t, p, l, true, false));
        lemma_o_pieces_agree(cl, o, t, p + o_next_len(o, t, p, l, true, false), l);
    }
}

/// An o200k tokenizer's fused fast paths split the text exactly as its Unicode
/// scanner does, for class tables that agree with ASCII on ASCII code points.
pub proof fn law_encode_splits_like_scanner_o200k(tk: &Tokenizer, t: Seq<u8>)
    requires
        tk.scanner_kind() == Scanner::O200k,
        ascii_consistent_o(tk.o_table()),
    ensures
        tk.pieces(t) == o_pieces(tk.o_table(), t, 0, t.len() as int),
{
    lemma_o_pieces_agree(tk.cl_table(), tk.o_table(), t, 0, t.len() as int);
}

} // verus!
