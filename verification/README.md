# toktok

A byte-level BPE tokenizer for the cl100k_base, o200k_base and o200k_harmony
encodings, written in Verus. The pretokenizers, special tokens, decoding and
truncation carry contracts that Verus proves. The merge search is proved equal
to its model in `bpe.rs` (greedy longest match checked pairwise, backtracking
otherwise); that this model gives the same ids as merging the lowest-ranked
pair first is not proved.

Layout of `src/`:

- `vocab.rs` — the vocabulary file format, the token table model (`toks`), the
  merge tables and the checks of whether two tokens may stand side by side;
  memory accounting; `mix36`.
- `trie.rs` — the byte trie behind exact lookup; the direct tables that start
  the longest-match walk after two bytes, or after a three-byte UTF-8
  character; and the two-byte step table (`e2`) with the odd-byte table
  (`otab`) that carry the walk on from there.
- `bpe.rs` — encoding one pretoken: greedy longest match when every adjacent
  pair is compatible, the backtracking search otherwise.
- `pretok.rs`, `pretok_o200k.rs` — Unicode class tables and the hand-written
  pretokenizers for the two regex families.
- `fastpath.rs` — the ASCII fast paths of the fused pretokenize-and-merge loop.
- `tokenizer.rs` — the public `Tokenizer`: construction from data files,
  encode, decode, offsets, truncation, special tokens, batches.
- `pcache.rs` — a bounded cache of short pretokens' encodings that never
  changes an answer, and the sizing and choice of a thread's caches.
- `mb.rs` — the encoder entry points for pieces led by a multibyte character
  (the walk starts from the three-byte table).

`app/` holds what stays outside the proofs: reading an encoding's files from a
directory, multi-threaded batch calls, the process-wide cache pool and the
per-thread scratch buffers.
