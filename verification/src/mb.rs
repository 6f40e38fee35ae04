//! The encoder entry points for pieces that start with a multibyte character.
//! A piece led by a well-formed three-byte UTF-8 character starts its
//! longest-match walk from the three-byte table; every other piece from the
//! two-byte table. Both answer exactly what the general walk answers.
use vstd::prelude::*;

use crate::bpe::encode_piece;
use crate::vocab::{covers, next_match_spec, Vocab};

verus! {

/// Longest token that is a prefix of `text`, or `RANK_MAX`.
pub fn nm_mb(v: &Vocab, text: &[u8]) -> (r: u32)
    ensures
        r == next_match_spec(v@, text@),
{
    let len = text.len();
    if len >= 3 && 0xE0 <= text[0] && text[0] <= 0xEF && 0x80 <= text[1] && text[1] <= 0xBF && 0x80 <= text[2]
        && text[2] <= 0xBF {
        v.next_match_3(text)
    } else {
        v.next_match(text)
    }
}

/// Append the encoding of one pretoken (the same as `Vocab::encode`).
pub fn encode_mb(v: &Vocab, text: &[u8], out: &mut Vec<u32>)
    requires
        covers(v@, text@),
    ensures
        final(out)@ == old(out)@ + encode_piece(v@, text@),
{
    let first = nm_mb(v, text);
    v.encode_with_first(text, first, out)
}

} // verus!
