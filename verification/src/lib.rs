//! toktok: an exact byte-level BPE tokenizer for OpenAI encodings.
pub mod bpe;
pub mod fastpath;
pub mod mb;
pub mod pcache;
pub mod pretok;
pub mod pretok_o200k;
pub mod trie;
pub mod vocab;
pub mod tokenizer;

pub use pretok::UClass;
pub use pretok_o200k::UClassO;
pub use tokenizer::{Scanner, Tokenizer, Truncation};
pub use vocab::{Vocab, VocabError, RANK_MAX};
