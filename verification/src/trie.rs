//! Byte trie over the token strings: the longest-match walk behind `next_match`,
//! `next_prefix` and exact token lookup.
use std::collections::HashMap;
use vstd::prelude::*;

use crate::vocab::{find_upto, find_tok, lpl, longest_tok, RANK_MAX, MAX_IDS};

verus! {

broadcast use vstd::std_specs::hash::group_hash_axioms;

/// `a` is a prefix of `b`.
pub open spec fn prefix_of(a: Seq<u8>, b: Seq<u8>) -> bool {
    a.len() <= b.len() && b.take(a.len() as int) == a
}

/// `s` is a prefix of one of the first `k` tokens, or of `extra` (the token
/// being inserted, as far as it has been inserted).
pub open spec fn covered(toks: Seq<Seq<u8>>, k: int, extra: Seq<u8>, s: Seq<u8>) -> bool {
    prefix_of(s, extra) || exists|id: int| 0 <= id < k && #[trigger] prefix_of(s, toks[id])
}

/// Key of the edge leaving `node` on byte `b`.
pub open spec fn edge_key(node: int, b: int) -> u64 {
    (node * 256 + b) as u64
}

pub struct Trie {
    /// children of the root, by byte (0 = none; the root is never a child)
    root_child: Vec<u32>,
    /// edges below the root: edge_key(node, byte) -> child
    edges: HashMap<u64, u32>,
    /// per node: id of the token spelled by the path to it, or RANK_MAX
    tnode_tok: Vec<u32>,
    /// per node: the bytes on the path from the root
    paths: Ghost<Seq<Seq<u8>>>,
}

impl Trie {
    pub closed spec fn nodes(&self) -> int {
        self.tnode_tok@.len() as int
    }

    pub closed spec fn path(&self, c: int) -> Seq<u8> {
        self.paths@[c]
    }

    /// The trie holds exactly the prefixes described by `covered(toks, k, extra, _)`,
    /// and each node knows the (largest) id among the first `k` spelled by its path.
    pub closed spec fn inv(&self, toks: Seq<Seq<u8>>, k: int, extra: Seq<u8>) -> bool {
        let nn = self.tnode_tok@.len() as int;
        let paths = self.paths@;
        &&& 0 <= k <= toks.len() <= MAX_IDS
        &&& paths.len() == nn
        &&& 1 <= nn < 0x1_0000_0000
        &&& paths[0] == Seq::<u8>::empty()
        &&& self.root_child@.len() == 256
        &&& forall|b: int|
            0 <= b < 256 ==> {
                &&& (#[trigger] self.root_child@[b] != 0 <==> covered(toks, k, extra, seq![b as u8]))
                &&& (self.root_child@[b] != 0 ==> self.root_child@[b] < nn && paths[
                    self.root_child@[b] as int
                ] == seq![b as u8])
            }
        &&& forall|c: int, b: int|
            1 <= c < nn && 0 <= b < 256 ==> {
                &&& (self.edges@.contains_key(#[trigger] edge_key(c, b)) <==> covered(
                    toks,
                    k,
                    extra,
                    paths[c].push(b as u8),
                ))
                &&& (self.edges@.contains_key(edge_key(c, b)) ==> {
                    &&& 1 <= self.edges@[edge_key(c, b)] < nn
                    &&& paths[self.edges@[edge_key(c, b)] as int] == paths[c].push(b as u8)
                })
            }
        &&& forall|key: u64| #[trigger] self.edges@.contains_key(key) ==> (key as int) < nn * 256
        &&& forall|c: int| 1 <= c < nn ==> #[trigger] paths[c].len() >= 1 && covered(toks, k, extra, paths[c])
        &&& forall|c1: int, c2: int| 0 <= c1 < nn && 0 <= c2 < nn && c1 != c2 ==> #[trigger] paths[c1] != #[trigger] paths[c2]
        &&& forall|c: int| 0 <= c < nn ==> #[trigger] self.tnode_tok@[c] == find_upto(toks, paths[c], k)
    }

    /// Payload bytes of the edges: root edges and edge map entries (8-byte key, 4-byte child).
    pub closed spec fn edge_bytes(&self) -> int {
        (self.root_child@.len() * 4 + self.edges@.len() * 12) as int
    }

    /// Payload bytes of the per-node token ids.
    pub closed spec fn tok_bytes(&self) -> int {
        (self.tnode_tok@.len() * 4) as int
    }

    /// `edge_bytes`, saturated at `usize::MAX`.
    pub fn edge_memory(&self) -> (r: usize)
        ensures
            r == crate::vocab::sat(self.edge_bytes()),
    {
        let a = crate::vocab::sat_mul(self.root_child.len(), 4);
        let b = crate::vocab::sat_mul(self.edges.len(), 12);
        proof {
            crate::vocab::lemma_sat_add((self.root_child@.len() * 4) as int, (self.edges@.len() * 12) as int);
        }
        crate::vocab::sat_add(a, b)
    }

    /// `tok_bytes`, saturated at `usize::MAX`.
    pub fn tok_memory(&self) -> (r: usize)
        ensures
            r == crate::vocab::sat(self.tok_bytes()),
    {
        crate::vocab::sat_mul(self.tnode_tok.len(), 4)
    }

    /// Table sizes are never negative; the per-node ids take four bytes a node,
    /// the edges at least the 256 root slots.
    pub proof fn lemma_mem_bytes(&self)
        ensures
            self.edge_bytes() >= 0,
            self.tok_bytes() >= 0,
            self.tok_bytes() == 4 * self.nodes(),
    {
    }

    /// A well-formed trie's edges take at least the 256 root slots.
    pub proof fn lemma_edge_bytes(&self, toks: Seq<Seq<u8>>)
        requires
            self.inv(toks, toks.len() as int, Seq::empty()),
        ensures
            self.edge_bytes() >= 1024,
    {
    }

    /// Number of trie nodes, the root included.
    pub fn node_count(&self) -> (r: usize)
        ensures
            r == self.nodes(),
    {
        self.tnode_tok.len()
    }

    pub fn new(Ghost(toks): Ghost<Seq<Seq<u8>>>) -> (t: Trie)
        requires
            toks.len() <= MAX_IDS,
        ensures
            t.inv(toks, 0, Seq::empty()),
            t.nodes() == 1,
    {
        let mut root_child: Vec<u32> = Vec::new();
        let mut i: usize = 0;
        while i < 256
            invariant
                i <= 256,
                root_child@.len() == i,
                forall|b: int| 0 <= b < i ==> root_child@[b] == 0,
            decreases 256 - i,
        {
            root_child.push(0);
            i = i + 1;
        }
        let mut tnode_tok: Vec<u32> = Vec::new();
        tnode_tok.push(RANK_MAX);
        let ghost paths: Seq<Seq<u8>> = seq![Seq::<u8>::empty()];
        let t = Trie { root_child, edges: HashMap::new(), tnode_tok, paths: Ghost(paths) };
        assert forall|b: int| 0 <= b < 256 implies !#[trigger] covered(toks, 0, Seq::<u8>::empty(), seq![b as u8]) by {
        }
        t
    }
}


/// Extending `extra` by one byte adds exactly one string to the covered set.
pub proof fn lemma_covered_push(toks: Seq<Seq<u8>>, k: int, extra: Seq<u8>, b: u8, x: Seq<u8>)
    ensures
        covered(toks, k, extra.push(b), x) <==> (covered(toks, k, extra, x) || x == extra.push(b)),
{
    let e2 = extra.push(b);
    if prefix_of(x, e2) && x != e2 {
        if x.len() == e2.len() {
            assert(e2.take(e2.len() as int) =~= e2);
        }
        assert(x.len() < e2.len());
        assert(extra.take(x.len() as int) == e2.take(x.len() as int));
        assert(prefix_of(x, extra));
    }
    if prefix_of(x, extra) {
        assert(e2.take(x.len() as int) == extra.take(x.len() as int));
        assert(prefix_of(x, e2));
    }
    if x == e2 {
        assert(e2.take(e2.len() as int) == e2);
    }
}

/// Prefixes of covered strings are covered.
pub proof fn lemma_covered_prefix(toks: Seq<Seq<u8>>, k: int, extra: Seq<u8>, s: Seq<u8>, x: Seq<u8>)
    requires
        covered(toks, k, extra, s),
        prefix_of(x, s),
    ensures
        covered(toks, k, extra, x),
{
    if prefix_of(s, extra) {
        assert(extra.take(x.len() as int) == s.take(x.len() as int));
    } else {
        let id = choose|id: int| 0 <= id < k && #[trigger] prefix_of(s, toks[id]);
        assert(toks[id].take(x.len() as int) == s.take(x.len() as int));
        assert(prefix_of(x, toks[id]));
    }
}

/// The distinct nonempty prefixes of the tokens.
pub open spec fn token_prefixes(toks: Seq<Seq<u8>>) -> Set<Seq<u8>> {
    Set::new(|s: Seq<u8>| s.len() >= 1 && covered(toks, toks.len() as int, Seq::empty(), s))
}

/// Total bytes of the first `k` tokens.
pub open spec fn total_bytes(toks: Seq<Seq<u8>>, k: int) -> int
    decreases k,
{
    if k <= 0 {
        0
    } else {
        total_bytes(toks, k - 1) + toks[k - 1].len()
    }
}

/// The nonempty prefixes of the first `k` tokens.
pub open spec fn prefixes_upto(toks: Seq<Seq<u8>>, k: int) -> Set<Seq<u8>> {
    Set::new(|s: Seq<u8>| s.len() >= 1 && exists|id: int| 0 <= id < k && #[trigger] prefix_of(s, toks[id]))
}

/// The nonempty prefixes of `t`.
pub open spec fn prefixes_of(t: Seq<u8>) -> Set<Seq<u8>> {
    Seq::new(t.len(), |j: int| t.take(j + 1)).to_set()
}

proof fn lemma_prefixes_upto(toks: Seq<Seq<u8>>, k: int)
    requires
        0 <= k <= toks.len(),
    ensures
        prefixes_upto(toks, k).finite(),
        prefixes_upto(toks, k).len() <= total_bytes(toks, k),
    decreases k,
{
    if k == 0 {
        assert(prefixes_upto(toks, 0) =~= Set::<Seq<u8>>::empty());
    } else {
        lemma_prefixes_upto(toks, k - 1);
        let t = toks[k - 1];
        let q = Seq::new(t.len(), |j: int| t.take(j + 1));
        vstd::seq_lib::seq_to_set_is_finite(q);
        q.lemma_cardinality_of_set();
        assert(prefixes_upto(toks, k) =~= prefixes_upto(toks, k - 1).union(prefixes_of(t))) by {
            assert forall|s: Seq<u8>| #[trigger] prefixes_upto(toks, k).contains(s) implies prefixes_upto(toks, k - 1).union(prefixes_of(t)).contains(s) by {
                let id = choose|id: int| 0 <= id < k && #[trigger] prefix_of(s, toks[id]);
                if id == k - 1 {
                    assert(q[s.len() - 1] == s);
                }
            }
            assert forall|s: Seq<u8>| #[trigger] prefixes_upto(toks, k - 1).union(prefixes_of(t)).contains(s) implies prefixes_upto(toks, k).contains(s) by {
                if prefixes_of(t).contains(s) {
                    let j = choose|j: int| 0 <= j < q.len() && q[j] == s;
                    assert(prefix_of(s, toks[k - 1]));
                } else {
                    let id = choose|id: int| 0 <= id < k - 1 && #[trigger] prefix_of(s, toks[id]);
                    assert(prefix_of(s, toks[id]));
                }
            }
        }
        vstd::set_lib::lemma_len_union(prefixes_upto(toks, k - 1), prefixes_of(t));
    }
}

/// A trie over the tokens has at most one node per token byte, plus the root:
/// the nonempty prefixes of the tokens are no more than their total length.
pub proof fn lemma_prefixes_bound(toks: Seq<Seq<u8>>)
    ensures
        token_prefixes(toks).finite(),
        token_prefixes(toks).len() <= total_bytes(toks, toks.len() as int),
{
    lemma_prefixes_upto(toks, toks.len() as int);
    assert(token_prefixes(toks) =~= prefixes_upto(toks, toks.len() as int)) by {
        assert forall|s: Seq<u8>| #[trigger] token_prefixes(toks).contains(s) <==> prefixes_upto(toks, toks.len() as int).contains(s) by {
            if token_prefixes(toks).contains(s) {
                assert(covered(toks, toks.len() as int, Seq::empty(), s));
                assert(!prefix_of(s, Seq::<u8>::empty()));
            }
        }
    }
}

impl Trie {
    /// Every covered string of length at least one is the path of a node.
    proof fn lemma_covered_node(&self, toks: Seq<Seq<u8>>, k: int, extra: Seq<u8>, s: Seq<u8>)
        requires
            self.inv(toks, k, extra),
            s.len() >= 1,
            covered(toks, k, extra, s),
        ensures
            exists|c: int| 1 <= c < self.nodes() && #[trigger] self.paths@[c] == s,
        decreases s.len(),
    {
        if s.len() == 1 {
            let b = s[0] as int;
            assert(s =~= seq![b as u8]);
            assert(self.root_child@[b] != 0);
            let c = self.root_child@[b] as int;
            assert(self.paths@[c] == s);
            if c == 0 {
                assert(self.paths@[0].len() == 0);
            }
        } else {
            let sp = s.drop_last();
            assert(prefix_of(sp, s)) by {
                assert(s.take(sp.len() as int) =~= sp);
            }
            lemma_covered_prefix(toks, k, extra, s, sp);
            self.lemma_covered_node(toks, k, extra, sp);
            let c = choose|c: int| 1 <= c < self.nodes() && #[trigger] self.paths@[c] == sp;
            let b = s.last() as int;
            assert(sp.push(s.last()) =~= s);
            assert(self.edges@.contains_key(edge_key(c, b)));
            let d = self.edges@[edge_key(c, b)] as int;
            assert(self.paths@[d] == s);
        }
    }

    /// A built trie has one node per distinct nonempty token prefix, plus the root.
    pub proof fn lemma_node_count(&self, toks: Seq<Seq<u8>>)
        requires
            self.inv(toks, toks.len() as int, Seq::empty()),
        ensures
            self.nodes() == 1 + token_prefixes(toks).len(),
            token_prefixes(toks).finite(),
    {
        let ps = self.paths@.skip(1);
        assert(ps.no_duplicates()) by {
            assert forall|i: int, j: int| 0 <= i < ps.len() && 0 <= j < ps.len() && i != j implies ps[i] != ps[j] by {
                assert(ps[i] == self.paths@[i + 1]);
                assert(ps[j] == self.paths@[j + 1]);
            }
        }
        ps.unique_seq_to_set();
        assert(ps.to_set() =~= token_prefixes(toks)) by {
            assert forall|s: Seq<u8>| ps.to_set().contains(s) implies token_prefixes(toks).contains(s) by {
                let i = choose|i: int| 0 <= i < ps.len() && ps[i] == s;
                assert(ps[i] == self.paths@[i + 1]);
            }
            assert forall|s: Seq<u8>| token_prefixes(toks).contains(s) implies ps.to_set().contains(s) by {
                self.lemma_covered_node(toks, toks.len() as int, Seq::empty(), s);
                let c = choose|c: int| 1 <= c < self.nodes() && #[trigger] self.paths@[c] == s;
                assert(ps[c - 1] == s);
            }
        }
        vstd::seq_lib::seq_to_set_is_finite(ps);
    }

    /// Step from `node` along byte `b` while inserting token `k`, creating the
    /// child if it does not exist yet.
    fn edge_build(
        &mut self,
        node: u32,
        b: u8,
        Ghost(toks): Ghost<Seq<Seq<u8>>>,
        Ghost(k): Ghost<int>,
        Ghost(extra): Ghost<Seq<u8>>,
    ) -> (child: u32)
        requires
            old(self).inv(toks, k, extra),
            0 <= k < toks.len(),
            (node as int) < old(self).nodes(),
            old(self).path(node as int) == extra,
            old(self).nodes() + 1 < 0x1_0000_0000,
        ensures
            final(self).inv(toks, k, extra.push(b)),
            1 <= child < final(self).nodes(),
            final(self).path(child as int) == extra.push(b),
            old(self).nodes() <= final(self).nodes() <= old(self).nodes() + 1,
    {
        let ghost s = extra.push(b);
        let ghost nn = self.tnode_tok@.len() as int;
        proof {
            assert forall|x: Seq<u8>| #[trigger] covered(toks, k, s, x) <==> (covered(toks, k, extra, x) || x == s) by {
                lemma_covered_push(toks, k, extra, b, x);
            }
        }
        let existing: Option<u32> = if node == 0 {
            let c = self.root_child[b as usize];
            if c != 0 { Some(c) } else { None }
        } else {
            let key: u64 = node as u64 * 256 + b as u64;
            assert(key == edge_key(node as int, b as int));
            match self.edges.get(&key) {
                Some(c) => Some(*c),
                None => None,
            }
        };
        proof {
            if node == 0 {
                assert(extra =~= Seq::<u8>::empty());
                assert(s =~= seq![b]);
                assert(self.root_child@[b as int] != 0 <==> covered(toks, k, extra, seq![b as u8]));
            } else {
                assert(self.edges@.contains_key(edge_key(node as int, b as int)) <==> covered(toks, k, extra, self.paths@[node as int].push(b)));
            }
        }
        match existing {
            Some(c) => {
                proof {
                    // s was covered already: the covered set does not change
                    assert(covered(toks, k, extra, s));
                    assert forall|x: Seq<u8>| #[trigger] covered(toks, k, s, x) == covered(toks, k, extra, x) by {
                        lemma_covered_push(toks, k, extra, b, x);
                    }
                    assert(self.inv(toks, k, s));
                }
                c
            },
            None => {
                let child = self.tnode_tok.len() as u32;
                proof {
                    assert(!covered(toks, k, extra, s));
                    crate::vocab::lemma_find_upto(toks, s, k);
                    assert forall|id: int| 0 <= id < k implies toks[id] != s by {
                        if toks[id] == s {
                            assert(toks[id].take(s.len() as int) == s);
                            assert(prefix_of(s, toks[id]));
                        }
                    }
                }
                self.tnode_tok.push(RANK_MAX);
                if node == 0 {
                    self.root_child.set(b as usize, child);
                } else {
                    let key: u64 = node as u64 * 256 + b as u64;
                    self.edges.insert(key, child);
                }
                let ghost old_paths = self.paths@;
                self.paths = Ghost(old_paths.push(s));
                proof {
                    let paths = self.paths@;
                    assert(paths[child as int] == s);
                    // old nodes keep their paths
                    assert forall|c: int| 0 <= c < nn implies paths[c] == old_paths[c] by {}
                    // s is new, so it differs from every old path
                    assert forall|c: int| 0 <= c < nn implies old_paths[c] != s by {
                        if c == 0 {
                            assert(old_paths[0].len() == 0);
                        } else {
                            assert(covered(toks, k, extra, old_paths[c]));
                        }
                    }
                    // the new node has no children and nothing below it is covered
                    assert forall|bb: int| 0 <= bb < 256 implies !#[trigger] covered(toks, k, s, s.push(bb as u8)) by {
                        let x = s.push(bb as u8);
                        lemma_covered_push(toks, k, extra, b, x);
                        if covered(toks, k, extra, x) {
                            assert(prefix_of(s, x)) by {
                                assert(x.take(s.len() as int) =~= s);
                            }
                            lemma_covered_prefix(toks, k, extra, x, s);
                        }
                    }
                    assert forall|cc: int, bb: int|
                        1 <= cc < nn && 0 <= bb < 256 && #[trigger] old_paths[cc].push(bb as u8) == s implies cc == node as int && bb == b as int by {
                        assert(old_paths[cc] =~= s.drop_last());
                        assert(extra =~= s.drop_last());
                        assert(s.last() == b);
                        assert(old_paths[cc].push(bb as u8).last() == bb as u8);
                    }
                    let nn2 = nn + 1;
                    assert forall|bb: int| 0 <= bb < 256 implies {
                        &&& (#[trigger] self.root_child@[bb] != 0 <==> covered(toks, k, s, seq![bb as u8]))
                        &&& (self.root_child@[bb] != 0 ==> self.root_child@[bb] < nn2 && paths[
                            self.root_child@[bb] as int
                        ] == seq![bb as u8])
                    } by {
                        if node == 0 && bb == b as int {
                            assert(s =~= seq![bb as u8]);
                        } else if node == 0 {
                            assert(seq![bb as u8] != s) by {
                                assert(seq![bb as u8][0] != s[0]);
                            }
                        } else {
                            assert(seq![bb as u8] != s) by {
                                assert(s.len() >= 2);
                            }
                        }
                    }
                    assert forall|c: int, bb: int|
                        1 <= c < nn2 && 0 <= bb < 256 implies {
                            &&& (self.edges@.contains_key(#[trigger] edge_key(c, bb)) <==> covered(
                                toks,
                                k,
                                s,
                                paths[c].push(bb as u8),
                            ))
                            &&& (self.edges@.contains_key(edge_key(c, bb)) ==> {
                                &&& 1 <= self.edges@[edge_key(c, bb)] < nn2
                                &&& paths[self.edges@[edge_key(c, bb)] as int] == paths[c].push(bb as u8)
                            })
                        } by {
                        if c == nn {
                            assert(!old(self).edges@.contains_key(edge_key(c, bb)));
                            assert(paths[c] == s);
                        } else {
                            if node != 0 && c == node as int && bb == b as int {
                            } else {
                                if paths[c].push(bb as u8) == s {
                                    assert(c == node as int && bb == b as int);
                                }
                                if node != 0 {
                                    assert(edge_key(c, bb) != edge_key(node as int, b as int));
                                }
                            }
                        }
                    }
                    assert forall|key: u64| #[trigger] self.edges@.contains_key(key) implies (key as int) < nn2 * 256 by {
                    }
                    assert forall|c: int| 1 <= c < nn2 implies #[trigger] paths[c].len() >= 1 && covered(toks, k, s, paths[c]) by {
                        if c < nn {
                            assert(covered(toks, k, extra, old_paths[c]));
                        }
                    }
                    assert forall|c1: int, c2: int| 0 <= c1 < nn2 && 0 <= c2 < nn2 && c1 != c2 implies #[trigger] paths[c1] != #[trigger] paths[c2] by {
                    }
                    assert forall|c: int| 0 <= c < nn2 implies #[trigger] self.tnode_tok@[c] == find_upto(toks, paths[c], k) by {
                    }
                    assert(self.inv(toks, k, s));
                }
                child
            },
        }
    }
}


impl Trie {
    /// Mark `node` (spelling token `k`) as the end of token `k`.
    fn set_tok(&mut self, node: u32, k: u32, Ghost(toks): Ghost<Seq<Seq<u8>>>)
        requires
            old(self).inv(toks, k as int, toks[k as int]),
            (k as int) < toks.len(),
            (node as int) < old(self).nodes(),
            old(self).path(node as int) == toks[k as int],
        ensures
            final(self).inv(toks, k + 1, Seq::empty()),
            final(self).nodes() == old(self).nodes(),
    {
        let ghost kk = k as int;
        proof {
            assert forall|x: Seq<u8>| #[trigger] covered(toks, kk + 1, Seq::<u8>::empty(), x) == covered(toks, kk, toks[kk], x) by {
                if prefix_of(x, toks[kk]) {
                    assert(prefix_of(x, toks[kk]));
                }
                if covered(toks, kk + 1, Seq::<u8>::empty(), x) {
                    if prefix_of(x, Seq::<u8>::empty()) {
                        assert(x.len() == 0);
                        assert(prefix_of(x, toks[kk])) by {
                            assert(toks[kk].take(0) =~= x);
                        }
                    }
                }
            }
        }
        self.tnode_tok.set(node as usize, k);
        proof {
            let paths = self.paths@;
            assert forall|c: int| 0 <= c < self.nodes() implies #[trigger] self.tnode_tok@[c] == find_upto(toks, paths[c], kk + 1) by {
                if c != node as int {
                    assert(paths[c] != paths[node as int]);
                }
            }
        }
    }

    /// Insert `text[start..end]` as token `k`.
    pub fn insert(&mut self, text: &[u8], start: usize, end: usize, k: u32, Ghost(toks): Ghost<Seq<Seq<u8>>>)
        requires
            old(self).inv(toks, k as int, Seq::empty()),
            (k as int) < toks.len(),
            start <= end <= text@.len(),
            text@.subrange(start as int, end as int) == toks[k as int],
            old(self).nodes() + (end - start) + 1 < 0x1_0000_0000,
        ensures
            final(self).inv(toks, k + 1, Seq::empty()),
            final(self).nodes() <= old(self).nodes() + (end - start),
    {
        let ghost tok = toks[k as int];
        let mut node: u32 = 0;
        let mut j: usize = start;
        let ghost n0 = self.nodes();
        proof {
            assert(tok.take(0) =~= Seq::<u8>::empty());
        }
        while j < end
            invariant
                start <= j <= end <= text@.len(),
                text@.subrange(start as int, end as int) == tok,
                tok == toks[k as int],
                (k as int) < toks.len(),
                self.inv(toks, k as int, tok.take(j - start)),
                (node as int) < self.nodes(),
                self.path(node as int) == tok.take(j - start),
                self.nodes() <= n0 + (j - start),
                n0 + (end - start) + 1 < 0x1_0000_0000,
            decreases end - j,
        {
            let b = text[j];
            proof {
                assert(tok.take(j - start).push(b) =~= tok.take(j + 1 - start));
            }
            node = self.edge_build(node, b, Ghost(toks), Ghost(k as int), Ghost(tok.take(j - start)));
            j = j + 1;
        }
        proof {
            assert(tok.take(end - start) =~= tok);
        }
        self.set_tok(node, k, Ghost(toks));
    }

    /// Longest token among the prefixes of `text[start..end]` (the
    /// longest-match walk), or `RANK_MAX`.
    pub fn longest(&self, text: &[u8], start: usize, end: usize, Ghost(toks): Ghost<Seq<Seq<u8>>>) -> (r: u32)
        requires
            self.inv(toks, toks.len() as int, Seq::empty()),
            start <= end <= text@.len(),
        ensures
            r == longest_tok(toks, text@.subrange(start as int, end as int), end - start),
    {
        proof {
            assert(text@.subrange(start as int, end as int).take(0) =~= Seq::<u8>::empty());
        }
        let (_, r) = self.walk_from(text, start, end, 0, start, RANK_MAX, Ghost(toks));
        r
    }

    /// The child of `node` along byte `b`, or 0 when no token continues its path with `b`.
    pub fn step(&self, node: u32, b: u8, Ghost(toks): Ghost<Seq<Seq<u8>>>) -> (c: u32)
        requires
            self.inv(toks, toks.len() as int, Seq::empty()),
            (node as int) < self.nodes(),
        ensures
            c != 0 <==> covered(toks, toks.len() as int, Seq::empty(), self.path(node as int).push(b)),
            c != 0 ==> (c as int) < self.nodes() && self.path(c as int) == self.path(node as int).push(b),
    {
        if node == 0 {
            proof {
                assert(self.path(0).push(b) =~= seq![b]);
            }
            self.root_child[b as usize]
        } else {
            let key: u64 = node as u64 * 256 + b as u64;
            assert(key == edge_key(node as int, b as int));
            match self.edges.get(&key) {
                Some(c) => *c,
                None => 0,
            }
        }
    }

    /// The id of the token spelled by the path to `node`, or `RANK_MAX`.
    pub fn tok_at(&self, node: u32, Ghost(toks): Ghost<Seq<Seq<u8>>>) -> (r: u32)
        requires
            self.inv(toks, toks.len() as int, Seq::empty()),
            (node as int) < self.nodes(),
        ensures
            r == find_tok(toks, self.path(node as int)),
    {
        self.tnode_tok[node as usize]
    }

    /// The longest-match walk over `text[start..end]`, resumed at `i0` from
    /// `node0` (the node of `text[start..i0]`) with `best0` the longest match
    /// among the first `i0 - start` bytes. Returns the node of the whole range
    /// (0 once no token continues it) and the longest match.
    pub fn walk_from(
        &self,
        text: &[u8],
        start: usize,
        end: usize,
        node0: u32,
        i0: usize,
        best0: u32,
        Ghost(toks): Ghost<Seq<Seq<u8>>>,
    ) -> (r: (u32, u32))
        requires
            self.inv(toks, toks.len() as int, Seq::empty()),
            start <= i0 <= end <= text@.len(),
            (node0 as int) < self.nodes(),
            i0 > start ==> node0 != 0,
            self.path(node0 as int) == text@.subrange(start as int, end as int).take(i0 - start),
            best0 == longest_tok(toks, text@.subrange(start as int, end as int), i0 - start),
        ensures
            r.1 == longest_tok(toks, text@.subrange(start as int, end as int), end - start),
            end > start ==> (r.0 != 0 <==> covered(toks, toks.len() as int, Seq::empty(), text@.subrange(start as int, end as int))),
            r.0 != 0 ==> (r.0 as int) < self.nodes() && self.path(r.0 as int) == text@.subrange(start as int, end as int),
    {
        let ghost s = text@.subrange(start as int, end as int);
        let ghost n = toks.len() as int;
        let mut node: u32 = node0;
        let mut best: u32 = best0;
        let mut i: usize = i0;
        proof {
            if node != 0 {
                assert(covered(toks, n, Seq::empty(), self.paths@[node as int]));
            }
            assert(s.take(end - start) =~= s);
        }
        while i < end
            invariant_except_break
                start <= i <= end <= text@.len(),
                s == text@.subrange(start as int, end as int),
                n == toks.len(),
                self.inv(toks, n, Seq::empty()),
                (node as int) < self.nodes(),
                self.path(node as int) == s.take(i - start),
                best == longest_tok(toks, s, i - start),
                i > start ==> node != 0,
                node != 0 ==> covered(toks, n, Seq::empty(), s.take(i - start)),
                s.take(end - start) == s,
            ensures
                best == longest_tok(toks, s, end - start),
                end > start ==> (node != 0 <==> covered(toks, n, Seq::empty(), s)),
                node != 0 ==> (node as int) < self.nodes() && self.path(node as int) == s,
            decreases end - i,
        {
            let b = text[i];
            let ghost x = s.take(i - start).push(b);
            proof {
                assert(x =~= s.take(i + 1 - start));
            }
            let child = self.step(node, b, Ghost(toks));
            if child == 0 {
                proof {
                    // no token starts with s[..i+1]: nothing longer can match
                    assert(!covered(toks, n, Seq::<u8>::empty(), x));
                    assert forall|jj: int| i - start < jj <= end - start implies find_tok(toks, #[trigger] s.take(jj)) == RANK_MAX by {
                        crate::vocab::lemma_find_tok(toks, s.take(jj));
                        if find_tok(toks, s.take(jj)) != RANK_MAX {
                            let id = find_tok(toks, s.take(jj)) as int;
                            assert(toks[id] == s.take(jj));
                            assert(prefix_of(x, toks[id])) by {
                                assert(toks[id].take(x.len() as int) =~= x);
                            }
                        }
                    }
                    lemma_lpl_skip(toks, s, i - start, end - start);
                    if covered(toks, n, Seq::<u8>::empty(), s) {
                        lemma_covered_prefix(toks, n, Seq::<u8>::empty(), s, x);
                    }
                }
                node = 0;
                break;
            }
            let t = self.tok_at(child, Ghost(toks));
            if t != RANK_MAX {
                best = t;
            }
            node = child;
            i = i + 1;
        }
        proof {
            if node != 0 {
                assert(s.take(end - start) =~= s);
                if end > start {
                    assert(self.path(node as int).len() >= 1);
                }
            }
        }
        (node, best)
    }

    /// The id of the token `text[start..end]` (the largest, for repeated
    /// bytes), or `RANK_MAX`.
    pub fn lookup(&self, text: &[u8], start: usize, end: usize, Ghost(toks): Ghost<Seq<Seq<u8>>>) -> (r: u32)
        requires
            self.inv(toks, toks.len() as int, Seq::empty()),
            start <= end <= text@.len(),
        ensures
            r == find_tok(toks, text@.subrange(start as int, end as int)),
    {
        let ghost s = text@.subrange(start as int, end as int);
        let ghost n = toks.len() as int;
        let mut node: u32 = 0;
        let mut i: usize = start;
        proof {
            assert(s.take(0) =~= Seq::<u8>::empty());
        }
        while i < end
            invariant
                start <= i <= end <= text@.len(),
                s == text@.subrange(start as int, end as int),
                n == toks.len(),
                self.inv(toks, n, Seq::empty()),
                (node as int) < self.nodes(),
                self.path(node as int) == s.take(i - start),
            decreases end - i,
        {
            let b = text[i];
            let ghost x = s.take(i - start).push(b);
            proof {
                assert(x =~= s.take(i + 1 - start));
            }
            let child: u32 = if node == 0 {
                proof {
                    assert(s.take(i - start) =~= Seq::<u8>::empty());
                    assert(x =~= seq![b]);
                }
                self.root_child[b as usize]
            } else {
                let key: u64 = node as u64 * 256 + b as u64;
                assert(key == edge_key(node as int, b as int));
                match self.edges.get(&key) {
                    Some(c) => *c,
                    None => 0,
                }
            };
            if child == 0 {
                proof {
                    assert(!covered(toks, n, Seq::<u8>::empty(), x));
                    crate::vocab::lemma_find_tok(toks, s);
                    if find_tok(toks, s) != RANK_MAX {
                        let id = find_tok(toks, s) as int;
                        assert(toks[id] == s);
                        assert(prefix_of(x, toks[id])) by {
                            assert(toks[id].take(x.len() as int) =~= x);
                        }
                    }
                }
                return RANK_MAX;
            }
            node = child;
            i = i + 1;
        }
        proof {
            assert(s.take(end - start) =~= s);
        }
        self.tnode_tok[node as usize]
    }
}

/// When no prefix longer than `i` is a token, the longest match up to `j` is the one up to `i`.
pub proof fn lemma_lpl_skip(toks: Seq<Seq<u8>>, s: Seq<u8>, i: int, j: int)
    requires
        0 <= i <= j <= s.len(),
        forall|jj: int| i < jj <= j ==> find_tok(toks, #[trigger] s.take(jj)) == RANK_MAX,
    ensures
        lpl(toks, s, j) == lpl(toks, s, i),
    decreases j - i,
{
    if j > i {
        lemma_lpl_skip(toks, s, i, j - 1);
    }
}


/// `lpl` up to `j` bytes looks only at the first `j` bytes.
pub proof fn lemma_longest_prefix(toks: Seq<Seq<u8>>, s: Seq<u8>, x: Seq<u8>, j: int)
    requires
        0 <= j <= x.len() <= s.len(),
        s.take(x.len() as int) == x,
    ensures
        lpl(toks, s, j) == lpl(toks, x, j),
        longest_tok(toks, s, j) == longest_tok(toks, x, j),
    decreases j,
{
    if j > 0 {
        lemma_longest_prefix(toks, s, x, j - 1);
        assert(s.take(j) =~= x.take(j)) by {
            assert forall|i: int| 0 <= i < j implies s.take(j)[i] == x.take(j)[i] by {
                assert(s.take(x.len() as int)[i] == x[i]);
            }
        }
    }
    let l = lpl(toks, s, j);
    if l > 0 {
        crate::vocab::lemma_lpl(toks, s, j);
        assert(s.take(l) =~= x.take(l)) by {
            assert forall|i: int| 0 <= i < l implies s.take(l)[i] == x.take(l)[i] by {
                assert(s.take(x.len() as int)[i] == x[i]);
            }
        }
    }
}

/// When no token starts with the first `m` bytes of `s`, the longest match in
/// all of `s` is the longest among its first `m` bytes.
pub proof fn lemma_dead_start(toks: Seq<Seq<u8>>, s: Seq<u8>, m: int)
    requires
        toks.len() <= MAX_IDS,
        1 <= m <= s.len(),
        !covered(toks, toks.len() as int, Seq::empty(), s.take(m)),
    ensures
        longest_tok(toks, s, s.len() as int) == longest_tok(toks, s, m),
{
    let x = s.take(m);
    assert forall|jj: int| m - 1 < jj <= s.len() implies find_tok(toks, #[trigger] s.take(jj)) == RANK_MAX by {
        crate::vocab::lemma_find_tok(toks, s.take(jj));
        if find_tok(toks, s.take(jj)) != RANK_MAX {
            let id = find_tok(toks, s.take(jj)) as int;
            assert(toks[id] == s.take(jj));
            assert(prefix_of(x, toks[id])) by {
                assert(toks[id].take(x.len() as int) =~= x);
            }
        }
    }
    lemma_lpl_skip(toks, s, m - 1, s.len() as int);
    lemma_lpl_skip(toks, s, m - 1, m);
}

/// The two bytes behind index `idx` of the two-byte start tables.
pub open spec fn r2_bytes(idx: int) -> Seq<u8> {
    seq![(idx / 256) as u8, (idx % 256) as u8]
}

/// The three bytes behind index `idx` of the three-byte start tables: the
/// well-formed UTF-8 sequence `E0+a 80+b 80+c` for `idx = a*4096 + b*64 + c`.
pub open spec fn r3_bytes(idx: int) -> Seq<u8> {
    seq![(0xE0 + idx / 4096) as u8, (0x80 + (idx / 64) % 64) as u8, (0x80 + idx % 64) as u8]
}

/// Direct tables for the start of the longest-match walk: for every two-byte
/// start (`r2`), and for every three-byte UTF-8 character (`r3`), the trie node
/// reached (0 when no token continues it) and the longest token among its prefixes.
pub struct Radix {
    r2node: Vec<u32>,
    r2best: Vec<u32>,
    r3node: Vec<u32>,
    r3best: Vec<u32>,
}

/// `node` and `best` are the walk's state after the bytes `x`.
pub open spec fn start_ok(trie: &Trie, toks: Seq<Seq<u8>>, x: Seq<u8>, node: u32, best: u32) -> bool {
    &&& (node != 0 <==> covered(toks, toks.len() as int, Seq::empty(), x))
    &&& (node != 0 ==> (node as int) < trie.nodes() && trie.path(node as int) == x)
    &&& best == longest_tok(toks, x, x.len() as int)
}

impl Radix {
    pub closed spec fn wf(&self, trie: &Trie, toks: Seq<Seq<u8>>) -> bool {
        &&& self.r2node@.len() == 65536
        &&& self.r2best@.len() == 65536
        &&& self.r3node@.len() == 65536
        &&& self.r3best@.len() == 65536
        &&& forall|i: int| 0 <= i < 65536 ==> start_ok(trie, toks, r2_bytes(i), #[trigger] self.r2node@[i], self.r2best@[i])
        &&& forall|i: int| 0 <= i < 65536 ==> start_ok(trie, toks, r3_bytes(i), #[trigger] self.r3node@[i], self.r3best@[i])
    }

    /// Payload bytes of the two-byte tables.
    pub closed spec fn r2_bytes_len(&self) -> int {
        (self.r2node@.len() * 4 + self.r2best@.len() * 4) as int
    }

    /// Payload bytes of the three-byte tables.
    pub closed spec fn r3_bytes_len(&self) -> int {
        (self.r3node@.len() * 4 + self.r3best@.len() * 4) as int
    }

    /// Table sizes are never negative; built, each pair of tables holds
    /// 65536 four-byte entries twice.
    pub proof fn lemma_bytes_len(&self)
        ensures
            self.r2_bytes_len() >= 0,
            self.r3_bytes_len() >= 0,
    {
    }

    pub proof fn lemma_built_bytes(&self, trie: &Trie, toks: Seq<Seq<u8>>)
        requires
            self.wf(trie, toks),
        ensures
            self.r2_bytes_len() == 524288,
            self.r3_bytes_len() == 524288,
    {
    }

    /// `r2_bytes_len`, saturated at `usize::MAX`.
    pub fn r2_memory(&self) -> (r: usize)
        ensures
            r == crate::vocab::sat(self.r2_bytes_len()),
    {
        crate::vocab::sat_add(crate::vocab::sat_mul(self.r2node.len(), 4), crate::vocab::sat_mul(self.r2best.len(), 4))
    }

    /// `r3_bytes_len`, saturated at `usize::MAX`.
    pub fn r3_memory(&self) -> (r: usize)
        ensures
            r == crate::vocab::sat(self.r3_bytes_len()),
    {
        crate::vocab::sat_add(crate::vocab::sat_mul(self.r3node.len(), 4), crate::vocab::sat_mul(self.r3best.len(), 4))
    }

    /// Fill both tables by walking the trie over every start.
    pub fn build(trie: &Trie, Ghost(toks): Ghost<Seq<Seq<u8>>>) -> (r: Radix)
        requires
            trie.inv(toks, toks.len() as int, Seq::empty()),
        ensures
            r.wf(trie, toks),
    {
        let mut r2node: Vec<u32> = Vec::new();
        let mut r2best: Vec<u32> = Vec::new();
        let mut r3node: Vec<u32> = Vec::new();
        let mut r3best: Vec<u32> = Vec::new();
        let mut i: usize = 0;
        while i < 65536
            invariant
                trie.inv(toks, toks.len() as int, Seq::empty()),
                i <= 65536,
                r2node@.len() == i,
                r2best@.len() == i,
                r3node@.len() == i,
                r3best@.len() == i,
                forall|k: int| 0 <= k < i ==> start_ok(trie, toks, r2_bytes(k), #[trigger] r2node@[k], r2best@[k]),
                forall|k: int| 0 <= k < i ==> start_ok(trie, toks, r3_bytes(k), #[trigger] r3node@[k], r3best@[k]),
            decreases 65536 - i,
        {
            let b2: [u8; 2] = [(i / 256) as u8, (i % 256) as u8];
            let (n2, t2) = walk_start(trie, &b2, Ghost(toks));
            proof {
                assert(b2@ =~= r2_bytes(i as int));
            }
            let b3: [u8; 3] = [(0xE0 + i / 4096) as u8, (0x80 + (i / 64) % 64) as u8, (0x80 + i % 64) as u8];
            let (n3, t3) = walk_start(trie, &b3, Ghost(toks));
            proof {
                assert(b3@ =~= r3_bytes(i as int));
            }
            r2node.push(n2);
            r2best.push(t2);
            r3node.push(n3);
            r3best.push(t3);
            i = i + 1;
        }
        Radix { r2node, r2best, r3node, r3best }
    }

    /// The walk's state after the two bytes `b0 b1`.
    pub fn start2(&self, trie: &Trie, b0: u8, b1: u8, Ghost(toks): Ghost<Seq<Seq<u8>>>) -> (r: (u32, u32))
        requires
            self.wf(trie, toks),
        ensures
            start_ok(trie, toks, seq![b0, b1], r.0, r.1),
    {
        let idx = b0 as usize * 256 + b1 as usize;
        proof {
            assert(r2_bytes(idx as int) =~= seq![b0, b1]);
            assert(start_ok(trie, toks, r2_bytes(idx as int), self.r2node@[idx as int], self.r2best@[idx as int]));
        }
        (self.r2node[idx], self.r2best[idx])
    }

    /// The walk's state after the well-formed three-byte UTF-8 character `b0 b1 b2`.
    pub fn start3(&self, trie: &Trie, b0: u8, b1: u8, b2: u8, Ghost(toks): Ghost<Seq<Seq<u8>>>) -> (r: (u32, u32))
        requires
            self.wf(trie, toks),
            0xE0 <= b0 <= 0xEF,
            0x80 <= b1 <= 0xBF,
            0x80 <= b2 <= 0xBF,
        ensures
            start_ok(trie, toks, seq![b0, b1, b2], r.0, r.1),
    {
        let idx = (b0 - 0xE0) as usize * 4096 + (b1 - 0x80) as usize * 64 + (b2 - 0x80) as usize;
        proof {
            let a = (b0 - 0xE0) as int;
            let b = (b1 - 0x80) as int;
            let c = (b2 - 0x80) as int;
            assert(idx as int / 4096 == a && (idx as int / 64) % 64 == b && idx as int % 64 == c) by (nonlinear_arith)
                requires
                    idx as int == a * 4096 + b * 64 + c,
                    0 <= a < 16,
                    0 <= b < 64,
                    0 <= c < 64,
            ;
            assert(r3_bytes(idx as int) =~= seq![b0, b1, b2]);
            assert(start_ok(trie, toks, r3_bytes(idx as int), self.r3node@[idx as int], self.r3best@[idx as int]));
        }
        (self.r3node[idx], self.r3best[idx])
    }
}

/// Key of the two-byte step from `node` along `b1 b2`.
pub open spec fn e2_key(node: int, b1: int, b2: int) -> u64 {
    (node * 65536 + b1 * 256 + b2) as u64
}

/// Key of the one-byte step from `node` along `b`.
pub open spec fn o_key(node: int, b: int) -> u64 {
    (node * 256 + b) as u64
}

proof fn lemma_e2_key(c1: int, x1: int, y1: int, c2: int, x2: int, y2: int)
    requires
        0 <= c1 < 0x1_0000_0000,
        0 <= c2 < 0x1_0000_0000,
        0 <= x1 < 256,
        0 <= y1 < 256,
        0 <= x2 < 256,
        0 <= y2 < 256,
        e2_key(c1, x1, y1) == e2_key(c2, x2, y2),
    ensures
        c1 == c2 && x1 == x2 && y1 == y2,
{
    assert(c1 * 65536 + x1 * 256 + y1 < 0x1_0000_0000_0000) by (nonlinear_arith)
        requires
            0 <= c1 < 0x1_0000_0000,
            0 <= x1 < 256,
            0 <= y1 < 256,
    ;
    assert(c2 * 65536 + x2 * 256 + y2 < 0x1_0000_0000_0000) by (nonlinear_arith)
        requires
            0 <= c2 < 0x1_0000_0000,
            0 <= x2 < 256,
            0 <= y2 < 256,
    ;
    assert(c1 * 65536 + x1 * 256 + y1 == c2 * 65536 + x2 * 256 + y2);
    assert(c1 == c2 && x1 == x2 && y1 == y2) by (nonlinear_arith)
        requires
            c1 * 65536 + x1 * 256 + y1 == c2 * 65536 + x2 * 256 + y2,
            0 <= x1 < 256,
            0 <= y1 < 256,
            0 <= x2 < 256,
            0 <= y2 < 256,
            0 <= c1,
            0 <= c2,
    ;
}

proof fn lemma_o_key(c1: int, x1: int, c2: int, x2: int)
    requires
        0 <= c1 < 0x1_0000_0000,
        0 <= c2 < 0x1_0000_0000,
        0 <= x1 < 256,
        0 <= x2 < 256,
        o_key(c1, x1) == o_key(c2, x2),
    ensures
        c1 == c2 && x1 == x2,
{
    assert(c1 * 256 + x1 == c2 * 256 + x2);
    assert(c1 == c2 && x1 == x2) by (nonlinear_arith)
        requires
            c1 * 256 + x1 == c2 * 256 + x2,
            0 <= x1 < 256,
            0 <= x2 < 256,
            0 <= c1,
            0 <= c2,
    ;
}

/// The longest token that a two-byte step from the string `x` ends on: `x b1 b2`
/// if it is a token, else `x b1` if that is, else none.
pub open spec fn best2(toks: Seq<Seq<u8>>, x: Seq<u8>, b1: u8, b2: u8) -> u32 {
    let t2 = find_tok(toks, x.push(b1).push(b2));
    if t2 != RANK_MAX {
        t2
    } else {
        find_tok(toks, x.push(b1))
    }
}

/// A node at even depth, two or more: where the two-byte walk stands.
pub open spec fn even_node(trie: &Trie, c: int) -> bool {
    &&& 1 <= c < trie.nodes()
    &&& trie.path(c).len() >= 2
    &&& trie.path(c).len() % 2 == 0
}

/// The two-byte-step tables (the walk past the start tables): from each node
/// at even depth, the node two bytes on with the longest token ending on the
/// way (`e2`), and the token one byte on where that byte ends a token (`otab`).
pub struct Steps2 {
    e2: HashMap<u64, (u32, u32)>,
    otab: HashMap<u64, u32>,
}

/// `e2` and `otab` hold the steps described above, and only them.
pub open spec fn steps_ok(e2: Map<u64, (u32, u32)>, otab: Map<u64, u32>, trie: &Trie, toks: Seq<Seq<u8>>) -> bool {
    &&& forall|c: int, b1: u8, b2: u8|
        even_node(trie, c) ==> (#[trigger] e2.contains_key(e2_key(c, b1 as int, b2 as int)) <==> covered(
            toks,
            toks.len() as int,
            Seq::empty(),
            trie.path(c).push(b1).push(b2),
        ))
    &&& forall|c: int, b1: u8, b2: u8|
        even_node(trie, c) && #[trigger] e2.contains_key(e2_key(c, b1 as int, b2 as int)) ==> {
            let v = e2[e2_key(c, b1 as int, b2 as int)];
            &&& 1 <= v.0 < trie.nodes()
            &&& trie.path(v.0 as int) == trie.path(c).push(b1).push(b2)
            &&& v.1 == best2(toks, trie.path(c), b1, b2)
        }
    &&& forall|c: int, b: u8|
        even_node(trie, c) ==> (#[trigger] otab.contains_key(o_key(c, b as int)) <==> find_tok(toks, trie.path(c).push(b)) != RANK_MAX)
    &&& forall|c: int, b: u8|
        even_node(trie, c) && #[trigger] otab.contains_key(o_key(c, b as int)) ==> otab[o_key(c, b as int)] == find_tok(toks, trie.path(c).push(b))
}

impl Steps2 {
    pub closed spec fn wf(&self, trie: &Trie, toks: Seq<Seq<u8>>) -> bool {
        steps_ok(self.e2@, self.otab@, trie, toks)
    }

    /// Payload bytes of `e2`: 8-byte key, 8-byte value per entry.
    pub closed spec fn e2_bytes(&self) -> int {
        (self.e2@.len() * 16) as int
    }

    /// Payload bytes of `otab`: 8-byte key, 4-byte value per entry.
    pub closed spec fn otab_bytes(&self) -> int {
        (self.otab@.len() * 12) as int
    }

    /// Table sizes are never negative.
    pub proof fn lemma_bytes(&self)
        ensures
            self.e2_bytes() >= 0,
            self.otab_bytes() >= 0,
    {
    }

    /// `e2_bytes`, saturated at `usize::MAX`.
    pub fn e2_memory(&self) -> (r: usize)
        ensures
            r == crate::vocab::sat(self.e2_bytes()),
    {
        crate::vocab::sat_mul(self.e2.len(), 16)
    }

    /// `otab_bytes`, saturated at `usize::MAX`.
    pub fn otab_memory(&self) -> (r: usize)
        ensures
            r == crate::vocab::sat(self.otab_bytes()),
    {
        crate::vocab::sat_mul(self.otab.len(), 12)
    }

    /// The two-byte step from the even-depth `node` along `b1 b2`: the node
    /// reached and the longest token ending on the way, or `None` when no
    /// token continues the path with `b1 b2`.
    pub fn step2(&self, trie: &Trie, node: u32, b1: u8, b2: u8, Ghost(toks): Ghost<Seq<Seq<u8>>>) -> (r: Option<(u32, u32)>)
        requires
            self.wf(trie, toks),
            even_node(trie, node as int),
        ensures
            r is Some <==> covered(toks, toks.len() as int, Seq::empty(), trie.path(node as int).push(b1).push(b2)),
            r matches Some(v) ==> {
                &&& 1 <= v.0 < trie.nodes()
                &&& trie.path(v.0 as int) == trie.path(node as int).push(b1).push(b2)
                &&& v.1 == best2(toks, trie.path(node as int), b1, b2)
            },
    {
        let key: u64 = node as u64 * 65536 + b1 as u64 * 256 + b2 as u64;
        assert(key == e2_key(node as int, b1 as int, b2 as int));
        match self.e2.get(&key) {
            Some(v) => Some(*v),
            None => None,
        }
    }

    /// The token one byte on from the even-depth `node` along `b`, or `RANK_MAX`.
    pub fn odd(&self, trie: &Trie, node: u32, b: u8, Ghost(toks): Ghost<Seq<Seq<u8>>>) -> (r: u32)
        requires
            self.wf(trie, toks),
            even_node(trie, node as int),
        ensures
            r == find_tok(toks, trie.path(node as int).push(b)),
    {
        let key: u64 = node as u64 * 256 + b as u64;
        assert(key == o_key(node as int, b as int));
        match self.otab.get(&key) {
            Some(v) => *v,
            None => RANK_MAX,
        }
    }
}

/// The steps of the first `k` tokens are in `e2` and `otab`, and every entry is right.
pub open spec fn steps_upto(e2: Map<u64, (u32, u32)>, otab: Map<u64, u32>, trie: &Trie, toks: Seq<Seq<u8>>, k: int) -> bool {
    &&& forall|c: int, b1: u8, b2: u8|
        even_node(trie, c) && #[trigger] e2.contains_key(e2_key(c, b1 as int, b2 as int)) ==> {
            let v = e2[e2_key(c, b1 as int, b2 as int)];
            &&& covered(toks, toks.len() as int, Seq::empty(), trie.path(c).push(b1).push(b2))
            &&& 1 <= v.0 < trie.nodes()
            &&& trie.path(v.0 as int) == trie.path(c).push(b1).push(b2)
            &&& v.1 == best2(toks, trie.path(c), b1, b2)
        }
    &&& forall|c: int, b1: u8, b2: u8|
        even_node(trie, c) && (exists|id: int| 0 <= id < k && #[trigger] prefix_of(trie.path(c).push(b1).push(b2), toks[id]))
            ==> #[trigger] e2.contains_key(e2_key(c, b1 as int, b2 as int))
    &&& forall|c: int, b: u8|
        even_node(trie, c) && #[trigger] otab.contains_key(o_key(c, b as int)) ==> otab[o_key(c, b as int)] == find_tok(toks, trie.path(c).push(b))
            && otab[o_key(c, b as int)] != RANK_MAX
    &&& forall|c: int, b: u8|
        even_node(trie, c) && (exists|id: int| 0 <= id < k && toks[id] == #[trigger] trie.path(c).push(b)) ==> #[trigger] otab.contains_key(o_key(c, b as int))
}

impl Steps2 {
    /// Fill the tables from the tokens `all[tstart[id]..tstart[id + 1]]`.
    pub fn build(trie: &Trie, all: &Vec<u8>, tstart: &Vec<u32>, Ghost(toks): Ghost<Seq<Seq<u8>>>) -> (r: Steps2)
        requires
            trie.inv(toks, toks.len() as int, Seq::empty()),
            tstart@.len() == toks.len() + 1,
            forall|i: int| 0 <= i < toks.len() ==> #[trigger] tstart@[i] <= tstart@[i + 1] <= all@.len()
                && all@.subrange(tstart@[i] as int, tstart@[i + 1] as int) == toks[i],
            forall|i: int| 0 <= i < toks.len() ==> (#[trigger] toks[i]).len() >= 1,
        ensures
            r.wf(trie, toks),
    {
        let mut e2: HashMap<u64, (u32, u32)> = HashMap::new();
        let mut otab: HashMap<u64, u32> = HashMap::new();
        let n = tstart.len() - 1;
        let mut id: usize = 0;
        while id < n
            invariant
                trie.inv(toks, toks.len() as int, Seq::empty()),
                n == toks.len(),
                tstart@.len() == toks.len() + 1,
                forall|i: int| 0 <= i < toks.len() ==> #[trigger] tstart@[i] <= tstart@[i + 1] <= all@.len()
                    && all@.subrange(tstart@[i] as int, tstart@[i + 1] as int) == toks[i],
                forall|i: int| 0 <= i < toks.len() ==> (#[trigger] toks[i]).len() >= 1,
                id <= n,
                steps_upto(e2@, otab@, trie, toks, id as int),
            decreases n - id,
        {
            let a = tstart[id] as usize;
            let b = tstart[id + 1] as usize;
            proof {
                assert(tstart@[id as int] <= tstart@[id + 1] <= all@.len() && all@.subrange(a as int, b as int) == toks[id as int]);
            }
            add_token(trie, &mut e2, &mut otab, all, a, b, id, Ghost(toks));
            id = id + 1;
        }
        proof {
            lemma_steps_done(e2@, otab@, trie, toks);
        }
        Steps2 { e2, otab }
    }
}

proof fn lemma_steps_done(e2: Map<u64, (u32, u32)>, otab: Map<u64, u32>, trie: &Trie, toks: Seq<Seq<u8>>)
    requires
        trie.inv(toks, toks.len() as int, Seq::empty()),
        steps_upto(e2, otab, trie, toks, toks.len() as int),
    ensures
        steps_ok(e2, otab, trie, toks),
{
    let n = toks.len() as int;
    assert forall|c: int, b1: u8, b2: u8| even_node(trie, c) implies (#[trigger] e2.contains_key(e2_key(c, b1 as int, b2 as int)) <==> covered(
        toks,
        n,
        Seq::empty(),
        trie.path(c).push(b1).push(b2),
    )) by {
        let x = trie.path(c).push(b1).push(b2);
        if covered(toks, n, Seq::empty(), x) {
            assert(!prefix_of(x, Seq::<u8>::empty()));
            let id = choose|id: int| 0 <= id < n && #[trigger] prefix_of(x, toks[id]);
            assert(prefix_of(x, toks[id]));
        }
    }
    assert forall|c: int, b: u8| even_node(trie, c) implies (#[trigger] otab.contains_key(o_key(c, b as int)) <==> find_tok(toks, trie.path(c).push(b)) != RANK_MAX) by {
        let x = trie.path(c).push(b);
        crate::vocab::lemma_find_tok(toks, x);
        if find_tok(toks, x) != RANK_MAX {
            let id = find_tok(toks, x) as int;
            assert(toks[id] == x);
        }
    }
}

/// Add the steps along token `id`, the bytes `text[a..b]`.
fn add_token(
    trie: &Trie,
    e2: &mut HashMap<u64, (u32, u32)>,
    otab: &mut HashMap<u64, u32>,
    text: &Vec<u8>,
    a: usize,
    b: usize,
    id: usize,
    Ghost(toks): Ghost<Seq<Seq<u8>>>,
)
    requires
        trie.inv(toks, toks.len() as int, Seq::empty()),
        a <= b <= text@.len(),
        id < toks.len(),
        text@.subrange(a as int, b as int) == toks[id as int],
        steps_upto(old(e2)@, old(otab)@, trie, toks, id as int),
    ensures
        steps_upto(final(e2)@, final(otab)@, trie, toks, id + 1),
{
    let ghost t = toks[id as int];
    let ghost n = toks.len() as int;
    let len = b - a;
    let mut node: u32 = 0;
    let mut d: usize = 0;
    proof {
        assert(t.take(0) =~= Seq::<u8>::empty());
    }
    while d < len
        invariant
            trie.inv(toks, n, Seq::empty()),
            n == toks.len(),
            a <= b <= text@.len(),
            len == b - a,
            id < n,
            t == toks[id as int],
            text@.subrange(a as int, b as int) == t,
            d <= len,
            (node as int) < trie.nodes(),
            trie.path(node as int) == t.take(d as int),
            d > 0 ==> node != 0,
            // soundness of every entry
            forall|c: int, b1: u8, b2: u8|
                even_node(trie, c) && #[trigger] e2@.contains_key(e2_key(c, b1 as int, b2 as int)) ==> {
                    let v = e2@[e2_key(c, b1 as int, b2 as int)];
                    &&& covered(toks, n, Seq::empty(), trie.path(c).push(b1).push(b2))
                    &&& 1 <= v.0 < trie.nodes()
                    &&& trie.path(v.0 as int) == trie.path(c).push(b1).push(b2)
                    &&& v.1 == best2(toks, trie.path(c), b1, b2)
                },
            forall|c: int, bb: u8|
                even_node(trie, c) && #[trigger] otab@.contains_key(o_key(c, bb as int)) ==> otab@[o_key(c, bb as int)] == find_tok(toks, trie.path(c).push(bb))
                    && otab@[o_key(c, bb as int)] != RANK_MAX,
            // completeness: earlier tokens, and this one below depth `d`
            forall|c: int, b1: u8, b2: u8|
                even_node(trie, c) && ((exists|j: int| 0 <= j < id && #[trigger] prefix_of(trie.path(c).push(b1).push(b2), toks[j]))
                    || (prefix_of(trie.path(c).push(b1).push(b2), t) && trie.path(c).len() < d))
                    ==> #[trigger] e2@.contains_key(e2_key(c, b1 as int, b2 as int)),
            forall|c: int, bb: u8|
                even_node(trie, c) && ((exists|j: int| 0 <= j < id && toks[j] == #[trigger] trie.path(c).push(bb))
                    || (t == trie.path(c).push(bb) && trie.path(c).len() < d))
                    ==> #[trigger] otab@.contains_key(o_key(c, bb as int)),
        decreases len - d,
    {
        let ghost e2_0 = e2@;
        let ghost ot_0 = otab@;
        let ghost p0 = t.take(d as int);
        let by0 = text[a + d];
        proof {
            assert(by0 == t[d as int]);
            assert(p0.push(by0) =~= t.take(d + 1));
            assert(prefix_of(t.take(d + 1), toks[id as int])) by {
                assert(toks[id as int].take(d + 1) =~= t.take(d + 1));
            }
        }
        let n1 = trie.step(node, by0, Ghost(toks));
        let ghost even = d >= 2 && d % 2 == 0;
        if d >= 2 && d % 2 == 0 {
            proof {
                assert(even_node(trie, node as int));
            }
            let tk = trie.tok_at(n1, Ghost(toks));
            if tk != RANK_MAX {
                let ok: u64 = node as u64 * 256 + by0 as u64;
                assert(ok == o_key(node as int, by0 as int));
                otab.insert(ok, tk);
                proof {
                    assert forall|c: int, bb: u8|
                        even_node(trie, c) && #[trigger] otab@.contains_key(o_key(c, bb as int)) implies otab@[o_key(c, bb as int)] == find_tok(toks, trie.path(c).push(bb))
                            && otab@[o_key(c, bb as int)] != RANK_MAX by {
                        if o_key(c, bb as int) == ok {
                            lemma_o_key(c, bb as int, node as int, by0 as int);
                        }
                    }
                }
            }
            if d + 1 < len {
                let by1 = text[a + d + 1];
                proof {
                    assert(by1 == t[d + 1]);
                    assert(t.take(d + 1).push(by1) =~= t.take(d + 2));
                    assert(prefix_of(t.take(d + 2), toks[id as int])) by {
                        assert(toks[id as int].take(d + 2) =~= t.take(d + 2));
                    }
                }
                let n2 = trie.step(n1, by1, Ghost(toks));
                let t2 = trie.tok_at(n2, Ghost(toks));
                let best = if t2 != RANK_MAX { t2 } else { tk };
                let key: u64 = node as u64 * 65536 + by0 as u64 * 256 + by1 as u64;
                assert(key == e2_key(node as int, by0 as int, by1 as int));
                e2.insert(key, (n2, best));
                proof {
                    assert forall|c: int, b1: u8, b2: u8|
                        even_node(trie, c) && #[trigger] e2@.contains_key(e2_key(c, b1 as int, b2 as int)) implies ({
                            let v = e2@[e2_key(c, b1 as int, b2 as int)];
                            &&& covered(toks, n, Seq::empty(), trie.path(c).push(b1).push(b2))
                            &&& 1 <= v.0 < trie.nodes()
                            &&& trie.path(v.0 as int) == trie.path(c).push(b1).push(b2)
                            &&& v.1 == best2(toks, trie.path(c), b1, b2)
                        }) by {
                        if e2_key(c, b1 as int, b2 as int) == key {
                            lemma_e2_key(c, b1 as int, b2 as int, node as int, by0 as int, by1 as int);
                        }
                    }
                }
            }
        }
        proof {
            // completeness now reaches depth d + 1
            assert forall|c: int, b1: u8, b2: u8|
                even_node(trie, c) && ((exists|j: int| 0 <= j < id && #[trigger] prefix_of(trie.path(c).push(b1).push(b2), toks[j]))
                    || (prefix_of(trie.path(c).push(b1).push(b2), t) && trie.path(c).len() < d + 1))
                    implies #[trigger] e2@.contains_key(e2_key(c, b1 as int, b2 as int)) by {
                let x = trie.path(c).push(b1).push(b2);
                if !(exists|j: int| 0 <= j < id && #[trigger] prefix_of(x, toks[j])) && trie.path(c).len() == d {
                    assert(trie.path(c) =~= t.take(d as int)) by {
                        assert forall|i: int| 0 <= i < d implies trie.path(c)[i] == t.take(d as int)[i] by {
                            assert(x[i] == trie.path(c)[i]);
                            assert(t.take(x.len() as int)[i] == x[i]);
                        }
                    }
                    assert(c == node as int);
                    assert(x[d as int] == b1 && x[d + 1] == b2);
                    assert(t.take(x.len() as int)[d as int] == b1);
                    assert(t.take(x.len() as int)[d + 1] == b2);
                }
                if e2_0.contains_key(e2_key(c, b1 as int, b2 as int)) {
                    assert(e2@.contains_key(e2_key(c, b1 as int, b2 as int)));
                }
            }
            assert forall|c: int, bb: u8|
                even_node(trie, c) && ((exists|j: int| 0 <= j < id && toks[j] == #[trigger] trie.path(c).push(bb))
                    || (t == trie.path(c).push(bb) && trie.path(c).len() < d + 1))
                    implies #[trigger] otab@.contains_key(o_key(c, bb as int)) by {
                let x = trie.path(c).push(bb);
                if !(exists|j: int| 0 <= j < id && toks[j] == x) && trie.path(c).len() == d {
                    assert(trie.path(c) =~= t.take(d as int)) by {
                        assert forall|i: int| 0 <= i < d implies trie.path(c)[i] == t.take(d as int)[i] by {
                            assert(x[i] == trie.path(c)[i]);
                        }
                    }
                    assert(c == node as int);
                    assert(bb == by0);
                    assert(t.take(d + 1) =~= t);
                    crate::vocab::lemma_find_tok(toks, t);
                }
                if ot_0.contains_key(o_key(c, bb as int)) {
                    assert(otab@.contains_key(o_key(c, bb as int)));
                }
            }
        }
        node = n1;
        d = d + 1;
    }
    proof {
        assert forall|c: int, b1: u8, b2: u8|
            even_node(trie, c) && (exists|j: int| 0 <= j < id + 1 && #[trigger] prefix_of(trie.path(c).push(b1).push(b2), toks[j]))
                implies #[trigger] e2@.contains_key(e2_key(c, b1 as int, b2 as int)) by {
            let x = trie.path(c).push(b1).push(b2);
            if !(exists|j: int| 0 <= j < id && #[trigger] prefix_of(x, toks[j])) {
                assert(prefix_of(x, toks[id as int]));
            }
        }
        assert forall|c: int, bb: u8|
            even_node(trie, c) && (exists|j: int| 0 <= j < id + 1 && toks[j] == #[trigger] trie.path(c).push(bb))
                implies #[trigger] otab@.contains_key(o_key(c, bb as int)) by {
            let x = trie.path(c).push(bb);
            if !(exists|j: int| 0 <= j < id && toks[j] == x) {
                assert(toks[id as int] == x);
            }
        }
    }
}

/// One byte more: the longest match grows to the longer prefix exactly when
/// that prefix is a token.
pub proof fn lemma_longest_step(toks: Seq<Seq<u8>>, s: Seq<u8>, j: int)
    requires
        0 <= j,
        j + 1 <= s.len(),
    ensures
        longest_tok(toks, s, j + 1) == (if find_tok(toks, s.take(j + 1)) != RANK_MAX {
            find_tok(toks, s.take(j + 1))
        } else {
            longest_tok(toks, s, j)
        }),
{
}

impl Steps2 {
    /// The longest-match walk over `text[start..end]`, two bytes a step from
    /// the even-depth `node0` (the node of `text[start..i0]`), with `best0` the
    /// longest match among the first `i0 - start` bytes; a last odd byte, or a
    /// step that no token continues, is settled by `otab`.
    pub fn walk2(
        &self,
        trie: &Trie,
        text: &[u8],
        start: usize,
        end: usize,
        node0: u32,
        i0: usize,
        best0: u32,
        Ghost(toks): Ghost<Seq<Seq<u8>>>,
    ) -> (r: u32)
        requires
            self.wf(trie, toks),
            trie.inv(toks, toks.len() as int, Seq::empty()),
            start <= i0 <= end <= text@.len(),
            even_node(trie, node0 as int),
            trie.path(node0 as int) == text@.subrange(start as int, end as int).take(i0 - start),
            best0 == longest_tok(toks, text@.subrange(start as int, end as int), i0 - start),
        ensures
            r == longest_tok(toks, text@.subrange(start as int, end as int), end - start),
    {
        let ghost s = text@.subrange(start as int, end as int);
        let mut node = node0;
        let mut i = i0;
        let mut best = best0;
        proof {
            assert(s.take(end - start) =~= s);
        }
        while end - i >= 2
            invariant
                self.wf(trie, toks),
                trie.inv(toks, toks.len() as int, Seq::empty()),
                s == text@.subrange(start as int, end as int),
                s.take(end - start) == s,
                start <= i <= end <= text@.len(),
                even_node(trie, node as int),
                trie.path(node as int) == s.take(i - start),
                best == longest_tok(toks, s, i - start),
            decreases end - i,
        {
            let b1 = text[i];
            let b2 = text[i + 1];
            let ghost j = i - start;
            proof {
                assert(s.take(j).push(b1) =~= s.take(j + 1));
                assert(s.take(j).push(b1).push(b2) =~= s.take(j + 2));
                lemma_longest_step(toks, s, j);
                lemma_longest_step(toks, s, j + 1);
            }
            match self.step2(trie, node, b1, b2, Ghost(toks)) {
                Some(v) => {
                    if v.1 != RANK_MAX {
                        best = v.1;
                    }
                    node = v.0;
                    i = i + 2;
                },
                None => {
                    let o = self.odd(trie, node, b1, Ghost(toks));
                    if o != RANK_MAX {
                        best = o;
                    }
                    proof {
                        crate::vocab::lemma_find_tok(toks, s.take(j + 2));
                        if find_tok(toks, s.take(j + 2)) != RANK_MAX {
                            let id = find_tok(toks, s.take(j + 2)) as int;
                            assert(prefix_of(s.take(j + 2), toks[id])) by {
                                assert(toks[id].take(j + 2) =~= toks[id]);
                            }
                        }
                        lemma_dead_start(toks, s, j + 2);
                    }
                    return best;
                },
            }
        }
        if i < end {
            let o = self.odd(trie, node, text[i], Ghost(toks));
            proof {
                let j = i - start;
                assert(s.take(j).push(text@[i as int]) =~= s.take(j + 1));
                lemma_longest_step(toks, s, j);
            }
            if o != RANK_MAX {
                best = o;
            }
        }
        best
    }
}

/// The walk over all of `x` from the root.
fn walk_start(trie: &Trie, x: &[u8], Ghost(toks): Ghost<Seq<Seq<u8>>>) -> (r: (u32, u32))
    requires
        trie.inv(toks, toks.len() as int, Seq::empty()),
        x@.len() >= 1,
    ensures
        start_ok(trie, toks, x@, r.0, r.1),
{
    proof {
        assert(x@.subrange(0, x@.len() as int) =~= x@);
        assert(x@.take(0) =~= Seq::<u8>::empty());
    }
    trie.walk_from(x, 0, x.len(), 0, 0, RANK_MAX, Ghost(toks))
}

} // verus!
