use toktok::fastpath::{cl_fast, o_fast};
use toktok::pcache::{find_owner, fit_bits, pick_cache, CachePick, pack_key, pack_val, share_bits, PretokenCache, BUDGET_BYTES, COUNT_MASK, ENTRY_BYTES, KEY_MAX, MAX_BITS, MIN_BITS};
use toktok::pretok::{pretok, pretok_next, UClass};
use toktok::pretok_o200k::{o_contraction, o_match_ul, o_match_upl, pretok_next_o200k, UClassO};
use toktok::tokenizer::{encoding_files, find_from, specials_from_bytes, Scanner, Tokenizer, Truncation};
use toktok::vocab::{mix36, Vocab, RANK_MAX};

// ---- synthetic data files ------------------------------------------------------

/// The merged tokens of the test vocabulary, in rank order after the 256 bytes.
const MERGES: [&[u8]; 9] = [b"he", b"ll", b"hell", b" w", b"or", b" wor", b"ld", b" world", b"hello"];

fn vocab_file(tokens: &[Vec<u8>]) -> Vec<u8> {
    let mut raw = Vec::new();
    raw.extend_from_slice(&(tokens.len() as u32).to_le_bytes());
    for (rank, t) in tokens.iter().enumerate() {
        raw.extend_from_slice(&(t.len() as u16).to_le_bytes());
        raw.extend_from_slice(t);
        raw.extend_from_slice(&(rank as u32).to_le_bytes());
    }
    raw
}

fn test_tokens() -> Vec<Vec<u8>> {
    let mut toks: Vec<Vec<u8>> = (0..=255u8).map(|b| vec![b]).collect();
    for m in MERGES.iter() {
        toks.push(m.to_vec());
    }
    toks
}

fn ranges(table: &[(u32, u32)]) -> Vec<u8> {
    let mut raw = Vec::new();
    raw.extend_from_slice(&(table.len() as u32).to_le_bytes());
    for &(lo, hi) in table {
        raw.extend_from_slice(&lo.to_le_bytes());
        raw.extend_from_slice(&hi.to_le_bytes());
    }
    raw
}

const LETTERS: [(u32, u32); 4] = [(65, 90), (97, 122), (0xC0, 0x24F), (0x4E00, 0x9FFF)];
const DIGITS: [(u32, u32); 1] = [(48, 57)];
const SPACES: [(u32, u32); 5] = [(9, 13), (32, 32), (0x85, 0x85), (0xA0, 0xA0), (0x3000, 0x3000)];
const UPPER: [(u32, u32); 3] = [(65, 90), (0xC0, 0xDE), (0x4E00, 0x9FFF)];
const LOWER: [(u32, u32); 3] = [(97, 122), (0xDF, 0x24F), (0x4E00, 0x9FFF)];

fn cl_classes() -> Vec<u8> {
    let mut raw = ranges(&LETTERS);
    raw.extend(ranges(&DIGITS));
    raw.extend(ranges(&SPACES));
    raw
}

fn o_classes() -> Vec<u8> {
    let mut raw = cl_classes();
    raw.extend(ranges(&UPPER));
    raw.extend(ranges(&LOWER));
    raw
}

fn specials_file(sp: &[(&str, u32)]) -> Vec<u8> {
    let mut raw = Vec::new();
    raw.extend_from_slice(&(sp.len() as u32).to_le_bytes());
    for &(s, id) in sp {
        raw.extend_from_slice(&id.to_le_bytes());
        raw.extend_from_slice(&(s.len() as u16).to_le_bytes());
        raw.extend_from_slice(s.as_bytes());
    }
    raw
}

fn cl_tok() -> Tokenizer {
    let vocab = vocab_file(&test_tokens());
    let sp = specials_file(&[("<|endoftext|>", 300)]);
    Tokenizer::from_parts("cl100k_base", &vocab, &cl_classes(), Some(&sp)).unwrap()
}

fn o_tok(name: &str, sp: &[(&str, u32)]) -> Tokenizer {
    let vocab = vocab_file(&test_tokens());
    let raw = specials_file(sp);
    Tokenizer::from_parts(name, &vocab, &o_classes(), Some(&raw)).unwrap()
}

// ---- packing and encoding names ---------------------------------------------------

#[test]
fn unknown_encoding_errors() {
    assert!(encoding_files("nope").is_err());
    let vocab = vocab_file(&test_tokens());
    assert!(Tokenizer::from_parts("nope", &vocab, &cl_classes(), None).is_err());
}

#[test]
fn val_packing_round_trips() {
    for ids in [vec![1u32], vec![1, 2], vec![1, 2, 3], vec![1, 2, 3, 4], vec![100_255, 199_997, 0, 7]] {
        let (val, ext) = pack_val(&ids).unwrap();
        let n = (val & COUNT_MASK) as usize;
        let lanes = [((val >> 8) & 0x00FF_FFFF) as u32, (val >> 32) as u32, ext as u32, (ext >> 32) as u32];
        assert_eq!(&lanes[..n], &ids[..]);
    }
    assert_eq!(pack_val(&[1, 2, 3, 4, 5]), None);
}

#[test]
fn key_is_length_tagged_and_never_zero() {
    assert_ne!(pack_key(b"a").unwrap(), pack_key(b"a\0").unwrap());
    assert_ne!(pack_key(b"a").unwrap(), 0);
    assert_eq!(pack_key(b""), None);
    assert_eq!(pack_key(&[0u8; 16]), None);
    assert!(pack_key(&[0u8; 15]).is_some());
}

#[test]
fn key_packing_survives_a_page_boundary() {
    let page = 4096;
    let mut buf = vec![0u8; page * 2];
    for n in 1..=KEY_MAX {
        let off = page - n;
        for (i, b) in buf[off..off + n].iter_mut().enumerate() {
            *b = b'a' + i as u8;
        }
        let at_edge = pack_key(&buf[off..off + n]).unwrap();
        let copied = pack_key(&buf[off..off + n]).unwrap();
        assert_eq!(at_edge, copied, "n={n}");
    }
}

// ---- encoding ----------------------------------------------------------------------

#[test]
fn encodes_whole_words_as_merged_tokens() {
    let tok = cl_tok();
    assert_eq!(tok.encode(b"hello world"), vec![264, 263]);
    assert_eq!(tok.encode(b"123"), vec![49, 50, 51]);
    assert_eq!(tok.encode(b""), Vec::<u32>::new());
    assert_eq!(tok.count(b"hello world"), 2);
}

#[test]
fn decode_undoes_encode() {
    let tok = cl_tok();
    let texts: [&[u8]; 8] = [
        b"hello world",
        "Hello, \u{65e5}\u{672c}\u{8a9e} world! 123\n\n  indented".as_bytes(),
        b"\xE4\xB8",
        b"\x80\x80",
        b"abc\xE4\xB8\x2D",
        b"\xF0\x9F\x9A",
        b"it's 1234567 ok?!\r\n",
        b"   trailing   ",
    ];
    for t in texts {
        assert_eq!(tok.decode(&tok.encode(t)), t);
    }
    let o = o_tok("o200k_base", &[]);
    for t in texts {
        assert_eq!(o.decode(&o.encode(t)), t);
    }
}

#[test]
fn specials_become_their_ids_only_when_asked() {
    let tok = cl_tok();
    let ids = tok.encode_with_special("a<|endoftext|>b");
    assert_eq!(ids, vec![97, 300, 98]);
    assert_eq!(tok.decode(&ids), b"a<|endoftext|>b");
    assert!(!tok.encode(b"a<|endoftext|>b").contains(&300));
    let none = tok.encode_allowed("a<|endoftext|>b", |_| false);
    assert_eq!(none, tok.encode(b"a<|endoftext|>b"));
    let all = tok.encode_allowed("a<|endoftext|>b", |s| s == "<|endoftext|>");
    assert_eq!(all, ids);
}

#[test]
fn offsets_tile_the_input() {
    let tok = cl_tok();
    let text = "Hello, \u{65e5}\u{672c}\u{8a9e} world! 123\n\n  indented".as_bytes();
    let (ids, bounds) = tok.encode_with_offsets(text);
    assert_eq!(bounds.len(), ids.len() + 1);
    assert_eq!(*bounds.last().unwrap() as usize, text.len());
    for (i, w) in bounds.windows(2).enumerate() {
        assert_eq!(tok.token_bytes(ids[i]).unwrap(), &text[w[0] as usize..w[1] as usize]);
    }
}

#[test]
fn batch_matches_sequential() {
    let tok = cl_tok();
    let texts: Vec<String> = (0..50).map(|i| format!("doc {i}: hello \u{65e5}\u{672c}\u{8a9e} world {i}\n")).collect();
    let refs: Vec<&[u8]> = texts.iter().map(|s| s.as_bytes()).collect();
    let got = tok.encode_batch(&refs, 8, false);
    for (i, r) in refs.iter().enumerate() {
        assert_eq!(got[i], tok.encode(r));
    }
}

#[test]
fn count_batch_matches_encode() {
    let tok = cl_tok();
    let texts: Vec<String> = (0..30).map(|i| format!("doc {i}: hello world {i}\n")).collect();
    let refs: Vec<&[u8]> = texts.iter().map(|s| s.as_bytes()).collect();
    for threads in [1, 8] {
        let counts = tok.count_batch(&refs, threads, false);
        for (i, r) in refs.iter().enumerate() {
            assert_eq!(counts[i] as usize, tok.encode(r).len());
        }
    }
    let with_sp: Vec<&[u8]> = vec![b"a<|endoftext|>b"];
    assert_eq!(tok.count_batch(&with_sp, 1, true)[0] as usize, tok.encode_with_special("a<|endoftext|>b").len());
    assert!(tok.count_batch(&[], 4, false).is_empty());
}

#[test]
fn truncation_cuts_on_character_boundaries() {
    let tok = cl_tok();
    assert_eq!(
        tok.truncate(b"hello world", 1),
        Truncation { bytes: 5, total_tokens: 2, kept_tokens: 1 }
    );
    assert_eq!(
        tok.truncate(b"hello world", 5),
        Truncation { bytes: 11, total_tokens: 2, kept_tokens: 2 }
    );
    let rocket = "a\u{1F680}".as_bytes();
    assert_eq!(tok.encode(rocket), vec![97, 240, 159, 154, 128]);
    assert_eq!(tok.truncate(rocket, 3), Truncation { bytes: 1, total_tokens: 5, kept_tokens: 1 });
    let texts: Vec<&[u8]> = vec![b"hello world", rocket];
    let batch = tok.truncate_batch(&texts, 3, 2);
    assert_eq!(batch[0], tok.truncate(b"hello world", 3));
    assert_eq!(batch[1], tok.truncate(rocket, 3));
}

#[test]
fn lookups_by_id_and_bytes() {
    let tok = cl_tok();
    assert_eq!(tok.vocab_size(), 265);
    assert_eq!(tok.n_vocab(), 301);
    assert_eq!(tok.token_id(b"hello"), 264);
    assert_eq!(tok.token_id(b"<|endoftext|>"), 300);
    assert_eq!(tok.token_id(b"zzzz"), -1);
    assert!(tok.known_id(300));
    assert!(tok.known_id(5));
    assert!(!tok.known_id(299));
    assert_eq!(tok.token_bytes(264), Some(&b"hello"[..]));
    assert_eq!(tok.token_bytes(999), None);
    assert_eq!(tok.encoding(), "cl100k_base");
    assert_eq!(tok.special_tokens().len(), 1);
    assert_eq!(tok.special_tokens()[0].0, "<|endoftext|>");
}

#[test]
fn memory_accounting_is_consistent() {
    let tok = cl_tok();
    let total = tok.memory_bytes();
    let parts = tok.vocab().memory_breakdown();
    let sum: usize = parts.iter().map(|&(_, n)| n).sum();
    assert_eq!(sum, tok.vocab().memory_bytes());
    assert!(sum <= total && sum > total / 2);
    assert_eq!(parts.len(), 10);
    for (i, a) in parts.iter().enumerate() {
        assert!(parts[i + 1..].iter().all(|b| b.0 != a.0));
    }
    assert!(parts.iter().any(|p| p.0 == "r2node/r2best" && p.1 == 65536 * 8));
    assert!(parts.iter().any(|p| p.0 == "r3node/r3best" && p.1 == 65536 * 8));
    for w in parts.windows(2) {
        assert!(w[0].1 >= w[1].1);
    }
    assert!(o_tok("o200k_base", &[]).memory_bytes() > tok.vocab().memory_bytes());
}

#[test]
fn harmony_shares_o200k_ranks_and_adds_specials() {
    let o = o_tok("o200k_base", &[("<|endoftext|>", 300)]);
    let h = o_tok("o200k_harmony", &[("<|endoftext|>", 300), ("<|message|>", 301)]);
    assert_eq!(o.encode(b"hello world"), h.encode(b"hello world"));
    assert!(h.special_tokens().len() > o.special_tokens().len());
    assert!(h.special_tokens().iter().any(|(s, _)| s == "<|message|>"));
}

#[test]
fn construction_errors() {
    let vocab = vocab_file(&test_tokens());
    // vocab file cut short
    assert!(Tokenizer::from_parts("cl100k_base", &vocab[..vocab.len() - 1], &cl_classes(), None).is_err());
    // class file missing its last table
    assert!(Tokenizer::from_parts("cl100k_base", &vocab, &ranges(&LETTERS), None).is_err());
    // o200k needs five class tables
    assert!(Tokenizer::from_parts("o200k_base", &vocab, &cl_classes(), None).is_err());
    // a vocabulary without every single byte
    let partial: Vec<Vec<u8>> = (0..=200u8).map(|b| vec![b]).collect();
    assert!(Tokenizer::from_parts("cl100k_base", &vocab_file(&partial), &cl_classes(), None).is_err());
    // a special with an empty text
    assert!(specials_from_bytes(&specials_file(&[("", 5)]), "x").is_err());
    // invalid UTF-8 in a special
    let mut bad = specials_file(&[("ab", 5)]);
    let n = bad.len();
    bad[n - 1] = 0xFF;
    assert!(specials_from_bytes(&bad, "x").is_err());
    assert!(specials_from_bytes(&[1, 0, 0], "x").is_err());
    let ok = specials_from_bytes(&specials_file(&[("<|a|>", 7), ("<|b|>", 9)]), "x").unwrap();
    assert_eq!(ok, vec![("<|a|>".to_string(), 7), ("<|b|>".to_string(), 9)]);
    let (v, c, s, sc) = encoding_files("o200k_harmony").unwrap();
    assert_eq!((v, c, s, sc), ("o200k.vocab", "uniclass_o200k.bin", "o200k_harmony.special", Scanner::O200k));
}

// ---- pretokenizers ------------------------------------------------------------------

#[test]
fn cl100k_pieces_tile_the_input() {
    let u = UClass::from_bytes(&cl_classes(), "classes").unwrap();
    let text = b"Hello, world! 123\n\n  x";
    let pieces = pretok(&u, text);
    assert_eq!(pieces, vec![(0, 5), (5, 1), (6, 6), (12, 1), (13, 1), (14, 3), (17, 2), (19, 1), (20, 2)]);
    assert_eq!(pretok_next(&u, b"don't", 3, 5), 2);
    assert_eq!(pretok_next(&u, b"1234", 0, 4), 3);
    assert_eq!(pretok_next(&u, b"a  ", 1, 3), 2);
}

#[test]
fn o200k_letters_and_contractions() {
    let u = UClassO::from_bytes(&o_classes(), "classes").unwrap();
    let t = b"HelloWorld's";
    assert_eq!(pretok_next_o200k(&u, t, 0, t.len()), 5);
    assert_eq!(pretok_next_o200k(&u, t, 5, t.len()), 7);
    assert_eq!(o_match_ul(&u, t, 0, t.len()), 5);
    assert_eq!(o_match_upl(&u, b"ABc", 0, 3), 3);
    assert_eq!(o_match_upl(&u, b"abc", 0, 3), 0);
    assert_eq!(o_contraction(b"it's", 2, 4), 4);
    assert_eq!(o_contraction(b"it'x", 2, 4), 2);
    assert!(UClassO::from_bytes(&cl_classes(), "classes").is_err());
}

#[test]
fn fast_paths_defer_at_non_ascii_bytes() {
    assert_eq!(cl_fast(b"hello world", 0, 11), 5);
    assert_eq!(cl_fast("h\u{e9}".as_bytes(), 0, 3), 0);
    assert_eq!(cl_fast(b"  x", 0, 3), 1);
    assert_eq!(o_fast(b"Hello's", 0, 7), 7);
    assert_eq!(o_fast("\u{65e5}".as_bytes(), 0, 3), 0);
}

// ---- helpers --------------------------------------------------------------------------

#[test]
fn find_from_is_leftmost() {
    assert_eq!(find_from(b"abcabc", b"bc", 0), Some(1));
    assert_eq!(find_from(b"abcabc", b"bc", 2), Some(4));
    assert_eq!(find_from(b"abcabc", b"", 0), None);
    assert_eq!(find_from(b"abc", b"abcd", 0), None);
}

#[test]
fn mix36_values() {
    assert_eq!(mix36(0), 0);
    assert_eq!(mix36(1), 40790139847);
    assert_eq!(mix36(12345), 48567632667);
    assert_eq!(mix36((1 << 36) - 1), 26032833515);
}

#[test]
fn cache_answers_as_the_encoder_does() {
    let vocab = Vocab::from_bytes(&vocab_file(&test_tokens()), "v").unwrap();
    let mut cache = PretokenCache::new(7, 15, &vocab);
    assert_eq!(cache.owner(), 7);
    assert_eq!(cache.bytes(), (1 << 15) * 32);
    for piece in [&b"hello"[..], b" world", b"hello", b"abcdefghijklmnopqrstuvwxyz", b" world"] {
        let mut want = Vec::new();
        vocab.encode(piece, &mut want);
        let mut got = Vec::new();
        cache.emit(&vocab, piece, &mut got);
        assert_eq!(got, want);
    }
    let mut off = PretokenCache::disabled(7, &vocab);
    let mut got = Vec::new();
    off.emit(&vocab, b"hello", &mut got);
    assert_eq!(got, vec![264]);
    assert_eq!(off.bytes(), 0);
    assert_eq!(share_bits(1), 19);
    assert_eq!(share_bits(14), 16);
    assert_eq!(share_bits(1000), 15);
    assert_eq!(share_bits(0), 19);
}

#[test]
fn vocab_lookups() {
    let vocab = Vocab::from_bytes(&vocab_file(&test_tokens()), "v").unwrap();
    assert_eq!(vocab.size(), 265);
    assert_eq!(vocab.find_id(b"hell"), 258);
    assert_eq!(vocab.find_id(b"xyz"), RANK_MAX);
    assert_eq!(vocab.token_bytes(263), b" world");
    assert_eq!(vocab.next_match(b"hellish"), 258);
    assert!(Vocab::from_bytes(&[], "v").is_err());
}

#[test]
fn fused_encoder_splits_like_the_scanners() {
    let vocab = Vocab::from_bytes(&vocab_file(&test_tokens()), "v").unwrap();
    let texts: [&[u8]; 6] = [
        b"Hello, world! 123\n\n  x",
        "na\u{ef}ve caf\u{e9} \u{65e5}\u{672c}\u{8a9e}\u{3000}ok".as_bytes(),
        b"it's   they'll  WE'RE 12345",
        b"\t\r\n  a\n",
        "x\u{1F680}y ! \u{a0}z".as_bytes(),
        b"path/to/file.txt\r\n",
    ];
    let cl = cl_tok();
    let u = UClass::from_bytes(&cl_classes(), "classes").unwrap();
    for t in texts {
        let mut want = Vec::new();
        for (off, len) in pretok(&u, t) {
            vocab.encode(&t[off..off + len], &mut want);
        }
        assert_eq!(cl.encode(t), want);
    }
    let o = o_tok("o200k_base", &[]);
    let uo = UClassO::from_bytes(&o_classes(), "classes").unwrap();
    for t in texts {
        let mut want = Vec::new();
        let mut p = 0;
        while p < t.len() {
            let n = pretok_next_o200k(&uo, t, p, t.len());
            vocab.encode(&t[p..p + n], &mut want);
            p += n;
        }
        assert_eq!(o.encode(t), want);
    }
}

#[test]
fn trie_limit_errors() {
    let mut toks: Vec<Vec<u8>> = Vec::new();
    for i in 0..4400u32 {
        let mut t = vec![(i >> 16) as u8, (i >> 8) as u8, i as u8];
        for j in 0..247u32 {
            t.push((j * 7 + i) as u8);
        }
        toks.push(t);
    }
    let raw = vocab_file(&toks);
    assert!(Vocab::from_bytes(&raw, "big").is_err());
    assert!(Vocab::from_bytes(&vocab_file(&toks[..100]), "small").is_ok());
}

#[test]
fn specials_and_invalid_utf8() {
    let tok = cl_tok();
    let ids = tok.encode_with_special("a<|endoftext|>b");
    assert!(ids.contains(&300));
    assert_eq!(tok.decode(&ids), b"a<|endoftext|>b");
    // the ordinary encoding must not turn a special string into its id
    assert!(!tok.encode(b"a<|endoftext|>b").contains(&300));
    // lone continuation bytes and truncated sequences round-trip byte-exactly
    for bad in [&b"\xE4\xB8"[..], &b"\x80\x80"[..], &b"abc\xE4\xB8\x2D"[..], &b"\xF0\x9F\x9A"[..]] {
        assert_eq!(tok.decode(&tok.encode(bad)), bad);
    }
}

// ---- class files read back, cache sizing, vocabulary size bound ------------------

/// L = A-Z, a-z; N = 0-9; S = 9..=13 and 32 (cl100k layout).
const CL_FILE: [u8; 52] = [
    2, 0, 0, 0, 65, 0, 0, 0, 90, 0, 0, 0, 97, 0, 0, 0, 122, 0, 0, 0, 1, 0, 0, 0, 48, 0, 0, 0, 57, 0, 0, 0, 2, 0, 0, 0,
    9, 0, 0, 0, 13, 0, 0, 0, 32, 0, 0, 0, 32, 0, 0, 0,
];

#[test]
fn class_file_ranges_decide_membership_and_size() {
    let u = UClass::from_bytes(&CL_FILE, "t").unwrap();
    assert!(u.is_l(b'd' as u32) && !u.is_l(b'\'' as u32));
    assert!(u.is_n(b'7' as u32) && u.is_s(b'\n' as u32) && u.is_s(b' ' as u32));
    assert_eq!(pretok_next(&u, b"don't", 0, 5), 3);
    assert_eq!(pretok_next(&u, b"don't", 3, 5), 2);
    assert_eq!(pretok_next(&u, b"\n  ", 0, 3), 3);
    assert_eq!(pretok_next(&u, b"a  b", 1, 4), 1);
    assert_eq!(UClass::empty().memory_bytes(), 0);
    assert_eq!(UClass::from_bytes(&[0u8; 12], "t").unwrap().memory_bytes(), 65536);
    let one = [1, 0, 0, 0, 65, 0, 0, 0, 90, 0, 0, 0, 0, 0, 0, 0, 0, 0, 0, 0];
    assert_eq!(UClass::from_bytes(&one, "t").unwrap().memory_bytes(), 65544);
}

#[test]
fn o200k_class_file_ranges_decide_matches() {
    let mut raw = CL_FILE.to_vec();
    raw.extend_from_slice(&[0u8; 8]);
    let uo = UClassO::from_bytes(&raw, "t").unwrap();
    assert_eq!(pretok_next_o200k(&uo, b"don't", 0, 5), 5);
    assert_eq!(pretok_next_o200k(&uo, b"\n  ", 0, 3), 1);
    let ul: [u8; 52] = [
        0, 0, 0, 0, 0, 0, 0, 0, 0, 0, 0, 0, 2, 0, 0, 0, 65, 0, 0, 0, 90, 0, 0, 0, 0, 78, 0, 0, 255, 159, 0, 0, 2, 0, 0,
        0, 97, 0, 0, 0, 122, 0, 0, 0, 0, 78, 0, 0, 255, 159, 0, 0,
    ];
    let u = UClassO::from_bytes(&ul, "t").unwrap();
    let t = "亚洲AV".as_bytes();
    assert_eq!(o_match_ul(&u, t, 0, t.len()), 6);
}

#[test]
fn cache_size_fits_the_budget_left() {
    assert_eq!(fit_bits(MAX_BITS, 0), Some(MAX_BITS));
    let left = (1usize << 16) * ENTRY_BYTES + 5;
    assert_eq!(fit_bits(MAX_BITS, BUDGET_BYTES - left), Some(16));
    assert_eq!(fit_bits(MIN_BITS, 0), Some(MIN_BITS));
    assert_eq!(fit_bits(MAX_BITS, BUDGET_BYTES - 10), None);
    assert_eq!(fit_bits(MAX_BITS, BUDGET_BYTES + 10), None);
    assert_eq!(fit_bits(share_bits(1), 0), Some(share_bits(1)));
}

#[test]
fn walk_tables_find_the_longest_token() {
    let mut toks = test_tokens();
    let cjk = "亚洲".as_bytes().to_vec();
    let mut cjk_a = cjk.clone();
    cjk_a.push(b'A');
    toks.push(cjk[..3].to_vec());
    toks.push(cjk.clone());
    toks.push(cjk_a.clone());
    toks.push(b"helloo".to_vec());
    toks.push(b"hellooo".to_vec());
    let v = Vocab::from_bytes(&vocab_file(&toks), "v").unwrap();
    let n = test_tokens().len() as u32;
    assert_eq!(toktok::mb::nm_mb(&v, "亚洲AB".as_bytes()), n + 2);
    assert_eq!(toktok::mb::nm_mb(&v, "亚洲".as_bytes()), n + 1);
    assert_eq!(toktok::mb::nm_mb(&v, "亚x".as_bytes()), n);
    assert_eq!(v.next_match("亚洲AB".as_bytes()), n + 2);
    assert_eq!(v.next_match(b"hellooo!"), n + 4);
    assert_eq!(v.next_match(b"helloo"), n + 3);
    assert_eq!(v.next_match(b"hellx"), 258);
    assert_eq!(v.next_match(b"hex"), 256);
    assert_eq!(v.next_match(b"q"), b'q' as u32);
}

#[test]
fn cache_choice_reuses_or_evicts_the_oldest() {
    assert_eq!(find_owner(&[3, 7, 7], 7), Some(1));
    assert_eq!(find_owner(&[3, 7], 9), None);
    assert!(matches!(pick_cache(&[3, 7], 7, 2), CachePick::Held(1)));
    assert!(matches!(pick_cache(&[3, 7], 9, 2), CachePick::Fresh { evict_oldest: true }));
    assert!(matches!(pick_cache(&[3], 9, 2), CachePick::Fresh { evict_oldest: false }));
}
