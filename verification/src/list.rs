//! The ordered index: a skip list of arena-backed nodes. Each node
//! holds its key and value as arena offsets and a tower of forward
//! links; level 0 is the canonical membership chain, strictly
//! increasing per the configured comparator. Deletion is logical: a
//! removed node keeps its place in every tower and is merely marked a
//! tombstone, hidden from reads and iteration.

use vstd::prelude::*;

use crate::arena::Arena;
use crate::key::{KeyComparator, KeyOrd};
use crate::memory_control::MemoryLimiter;

verus! {

/// The hard cap on tower height; no node ever exceeds it.
pub const MAX_HEIGHT: usize = 20;

/// Nominal per-node byte charge for tower links and bookkeeping,
/// requested from the limiter on top of the key and value bytes.
pub const NODE_OVERHEAD: usize = 64;

/// A key/value record inside the index: key and value bytes live in
/// the arena at the recorded offsets; the tower occupies `height`
/// consecutive slots of the link store starting at `tower_off`.
/// Height is fixed at creation and never changes.
#[derive(Clone, Copy)]
pub struct Node {
    key_off: usize,
    key_len: usize,
    val_off: usize,
    val_len: usize,
    dead: bool,
    tower_off: usize,
    height: usize,
}

/// The concurrent-in-spirit ordered index: owns the arena, the head
/// tower, the comparator and the memory-control handle.
pub struct Skiplist<C: KeyComparator, M: MemoryLimiter> {
    arena: Arena,
    nodes: Vec<Node>,
    links: Vec<usize>,
    comparator: C,
    limiter: M,
    rng: u64,
    chain: Ghost<Seq<usize>>,
}

impl<C: KeyComparator, M: MemoryLimiter> Skiplist<C, M> {
    /// Number of nodes, the head included; node 0 is the head.
    pub closed spec fn node_count(self) -> int {
        self.nodes@.len() as int
    }

    spec fn node(self, u: int) -> Node {
        self.nodes@[u]
    }

    /// The key bytes of node `u`.
    pub closed spec fn key_at(self, u: int) -> Seq<u8> {
        self.arena.bytes().subrange(
            self.node(u).key_off as int,
            self.node(u).key_off + self.node(u).key_len,
        )
    }

    /// The value bytes of node `u`.
    pub closed spec fn val_at(self, u: int) -> Seq<u8> {
        self.arena.bytes().subrange(
            self.node(u).val_off as int,
            self.node(u).val_off + self.node(u).val_len,
        )
    }

    /// The tower height of node `u`.
    pub closed spec fn height_of(self, u: int) -> int {
        self.node(u).height as int
    }

    /// Whether node `u` is a tombstone.
    pub closed spec fn is_dead(self, u: int) -> bool {
        self.node(u).dead
    }

    /// The level-`i` forward link of node `u`: a node index, or 0 for
    /// "no successor".
    spec fn slot(self, u: int, i: int) -> int {
        self.links@[self.node(u).tower_off + i] as int
    }

    /// Strict "sorts below" per the configured comparator.
    pub closed spec fn spec_lt(self, a: Seq<u8>, b: Seq<u8>) -> bool {
        self.comparator.spec_compare(a, b) == KeyOrd::Less
    }

    spec fn node_ok(self, u: int) -> bool {
        &&& self.node(u).key_off + self.node(u).key_len <= self.arena.bytes().len()
        &&& self.node(u).val_off + self.node(u).val_len <= self.arena.bytes().len()
        &&& 1 <= self.node(u).height <= MAX_HEIGHT
        &&& self.node(u).tower_off + self.node(u).height <= self.links@.len()
    }

    spec fn link_ok(self, u: int, i: int) -> bool {
        self.slot(u, i) == 0 || {
            &&& 1 <= self.slot(u, i) < self.node_count()
            &&& self.height_of(self.slot(u, i)) > i
            &&& u != 0 ==> self.spec_lt(self.key_at(u), self.key_at(self.slot(u, i)))
        }
    }

    /// Node `u` appears in the level-0 chain.
    spec fn in_chain(self, u: int) -> bool {
        exists|j: int| 0 <= j < self.chain@.len() && self.chain@[j] as int == u
    }

    spec fn chain_ok(self) -> bool {
        let ch = self.chain@;
        &&& ch.len() == self.node_count() - 1
        &&& forall|j: int|
            #![trigger ch[j]]
            0 <= j < ch.len() ==> 1 <= ch[j] as int && (ch[j] as int) < self.node_count()
        &&& forall|j: int, l: int|
            #![trigger ch[j], ch[l]]
            0 <= j < l < ch.len() ==> self.spec_lt(self.key_at(ch[j] as int), self.key_at(ch[l] as int))
        &&& forall|u: int| 1 <= u < self.node_count() ==> #[trigger] self.in_chain(u)
        &&& self.slot(0, 0) == (if ch.len() == 0 {
            0int
        } else {
            ch[0] as int
        })
        &&& forall|j: int|
            0 <= j < ch.len() ==> self.slot(#[trigger] ch[j] as int, 0) == (if j + 1 < ch.len() {
                ch[j + 1] as int
            } else {
                0int
            })
    }

    /// The structural invariant: a well-formed head, every tower
    /// inside the link store and pairwise disjoint, every link
    /// pointing forward (strictly larger key, tall-enough target), and
    /// the level-0 chain spanning all nodes in strictly increasing key
    /// order.
    pub closed spec fn wf(self) -> bool {
        &&& 1 <= self.node_count()
        &&& self.node(0).height == MAX_HEIGHT
        &&& self.node(0).key_len == 0
        &&& forall|u: int| 0 <= u < self.node_count() ==> #[trigger] self.node_ok(u)
        &&& forall|u: int, v: int|
            #![trigger self.node(u), self.node(v)]
            0 <= u < v < self.node_count() ==> self.node(u).tower_off + self.node(u).height
                <= self.node(v).tower_off
        &&& forall|u: int, i: int|
            0 <= u < self.node_count() && 0 <= i < self.height_of(u) ==> #[trigger] self.link_ok(
                u,
                i,
            )
        &&& self.chain_ok()
    }

    /// Some node (live or tombstoned) holds key `k`.
    spec fn has_node(self, k: Seq<u8>) -> bool {
        exists|u: int| 1 <= u < self.node_count() && #[trigger] self.key_at(u) == k
    }

    /// The node holding key `k` (unique under `wf`).
    spec fn node_of(self, k: Seq<u8>) -> int {
        choose|u: int| 1 <= u < self.node_count() && #[trigger] self.key_at(u) == k
    }

    /// A live (non-tombstoned) entry for key `k` exists.
    pub closed spec fn spec_contains(self, k: Seq<u8>) -> bool {
        exists|u: int|
            1 <= u < self.node_count() && #[trigger] self.key_at(u) == k && !self.is_dead(u)
    }

    /// The value of the live entry for key `k`.
    pub closed spec fn spec_value(self, k: Seq<u8>) -> Seq<u8> {
        self.val_at(self.node_of(k))
    }

    /// The limiter's committed total.
    pub closed spec fn spec_mem_usage(self) -> usize {
        self.limiter.spec_usage()
    }

    /// Total bytes carved from the arena so far.
    pub closed spec fn spec_used_bytes(self) -> int {
        self.arena.bytes().len() as int
    }

    /// The position of node `u` in the level-0 chain; the head sits
    /// before position 0.
    spec fn pos_of(self, u: int) -> int {
        if u == 0 {
            -1
        } else {
            choose|j: int| 0 <= j < self.chain@.len() && self.chain@[j] as int == u
        }
    }

    /// No key sorts below itself.
    proof fn lemma_irrefl(self, k: Seq<u8>)
        ensures
            !self.spec_lt(k, k),
    {
        self.comparator.law_equal(k, k);
    }

    /// Every non-head node has a chain position, and the chain reads
    /// back the node there.
    proof fn lemma_pos(self, u: int)
        requires
            self.wf(),
            1 <= u < self.node_count(),
        ensures
            0 <= self.pos_of(u) < self.chain@.len(),
            self.chain@[self.pos_of(u)] as int == u,
    {
        assert(self.in_chain(u));
    }

    /// Chain positions respect the key order: a strictly smaller key
    /// sits strictly earlier.
    proof fn lemma_pos_increases(self, u: int, v: int)
        requires
            self.wf(),
            1 <= u < self.node_count(),
            1 <= v < self.node_count(),
            self.spec_lt(self.key_at(u), self.key_at(v)),
        ensures
            self.pos_of(u) < self.pos_of(v),
    {
        self.lemma_pos(u);
        self.lemma_pos(v);
        let ju = self.pos_of(u);
        let jv = self.pos_of(v);
        if jv < ju {
            assert(self.spec_lt(self.key_at(v), self.key_at(u)));
            self.comparator.law_trans(self.key_at(u), self.key_at(v), self.key_at(u));
            self.lemma_irrefl(self.key_at(u));
        } else if jv == ju {
            self.lemma_irrefl(self.key_at(u));
        }
    }

    /// Two nodes with the same key are the same node.
    proof fn lemma_key_unique(self, u: int, v: int)
        requires
            self.wf(),
            1 <= u < self.node_count(),
            1 <= v < self.node_count(),
            self.key_at(u) == self.key_at(v),
        ensures
            u == v,
    {
        self.lemma_pos(u);
        self.lemma_pos(v);
        if self.pos_of(u) < self.pos_of(v) {
            self.lemma_irrefl(self.key_at(u));
        } else if self.pos_of(v) < self.pos_of(u) {
            self.lemma_irrefl(self.key_at(u));
        }
    }

    /// A walk predecessor for target `k` at level `i`: the head or a
    /// node strictly below `k`, tall enough for level `i`, whose
    /// level-`i` successor (if any) no longer sorts below `k`.
    spec fn pred_ok(self, u: int, i: int, k: Seq<u8>) -> bool {
        &&& 0 <= u < self.node_count()
        &&& u != 0 ==> self.spec_lt(self.key_at(u), k)
        &&& self.height_of(u) > i
        &&& (self.slot(u, i) == 0 || (1 <= self.slot(u, i) < self.node_count() && !self.spec_lt(
            self.key_at(self.slot(u, i)),
            k,
        )))
    }

    fn read_slot(&self, u: usize, lvl: usize) -> (t: usize)
        requires
            self.wf(),
            u < self.node_count(),
            lvl < self.height_of(u as int),
        ensures
            t as int == self.slot(u as int, lvl as int),
    {
        let llen: usize = self.links.len();
        assert(self.node_ok(u as int));
        let nd = self.nodes[u];
        self.links[nd.tower_off + lvl]
    }

    fn read_key(&self, u: usize) -> (r: Vec<u8>)
        requires
            self.wf(),
            u < self.node_count(),
        ensures
            r@ == self.key_at(u as int),
    {
        assert(self.node_ok(u as int));
        let nd = self.nodes[u];
        self.arena.read(nd.key_off, nd.key_len)
    }

    /// Walks forward at level `lvl` from predecessor `u` while the
    /// next node still sorts below `key`.
    fn walk_level(&self, u: usize, lvl: usize, key: &[u8]) -> (r: usize)
        requires
            self.wf(),
            lvl < MAX_HEIGHT,
            u < self.node_count(),
            u != 0 ==> self.spec_lt(self.key_at(u as int), key@),
            self.height_of(u as int) > lvl,
        ensures
            self.pred_ok(r as int, lvl as int, key@),
        decreases self.chain@.len() + 1 - self.pos_of(u as int),
    {
        let t = self.read_slot(u, lvl);
        if t != 0 {
            assert(self.link_ok(u as int, lvl as int));
            let tk = self.read_key(t);
            let c = self.comparator.compare(tk.as_slice(), key);
            if c == KeyOrd::Equal || c == KeyOrd::Greater {
                return u;
            }
            proof {
                self.lemma_pos(t as int);
                if u != 0 {
                    self.lemma_pos_increases(u as int, t as int);
                }
            }
            return self.walk_level(t, lvl, key);
        }
        u
    }

    /// The full descent: from the head's top level down to level 0,
    /// recording the predecessor found at each level.
    fn find_splice(&self, key: &[u8]) -> (preds: Vec<usize>)
        requires
            self.wf(),
        ensures
            preds@.len() == MAX_HEIGHT,
            forall|i: int|
                0 <= i < MAX_HEIGHT ==> self.pred_ok(#[trigger] preds@[i] as int, i, key@),
    {
        let mut preds: Vec<usize> = Vec::new();
        let mut fill: usize = 0;
        while fill < MAX_HEIGHT
            invariant
                preds@.len() == fill,
                fill <= MAX_HEIGHT,
            decreases MAX_HEIGHT - fill,
        {
            preds.push(0);
            fill = fill + 1;
        }
        let mut u: usize = 0;
        let mut lvl: usize = MAX_HEIGHT;
        while lvl > 0
            invariant
                self.wf(),
                lvl <= MAX_HEIGHT,
                u < self.node_count(),
                u != 0 ==> self.spec_lt(self.key_at(u as int), key@),
                self.height_of(u as int) >= lvl,
                preds@.len() == MAX_HEIGHT,
                forall|i: int|
                    lvl <= i < MAX_HEIGHT ==> self.pred_ok(#[trigger] preds@[i] as int, i, key@),
            decreases lvl,
        {
            lvl = lvl - 1;
            let w = self.walk_level(u, lvl, key);
            preds.set(lvl, w);
            u = w;
        }
        preds
    }

    /// What the level-0 candidate after a walk means: if some node
    /// holds `k`, the candidate is that node; conversely a candidate
    /// holding `k` witnesses the key's presence.
    proof fn lemma_candidate(self, k: Seq<u8>, pred: int)
        requires
            self.wf(),
            self.pred_ok(pred, 0, k),
        ensures
            self.has_node(k) ==> self.slot(pred, 0) != 0 && self.key_at(self.slot(pred, 0)) == k
                && self.slot(pred, 0) == self.node_of(k),
            self.slot(pred, 0) != 0 && self.key_at(self.slot(pred, 0)) == k ==> self.has_node(k),
    {
        let ch = self.chain@;
        let t = self.slot(pred, 0);
        if self.has_node(k) {
            let us = self.node_of(k);
            assert(1 <= us < self.node_count() && self.key_at(us) == k);
            self.lemma_pos(us);
            let js = self.pos_of(us);
            if pred == 0 {
                assert(t == ch[0] as int);
                if js > 0 {
                    assert(self.spec_lt(self.key_at(ch[0] as int), self.key_at(ch[js] as int)));
                    assert(false);
                }
                assert(t == us);
            } else {
                self.lemma_pos(pred);
                let jp = self.pos_of(pred);
                self.lemma_pos_increases(pred, us);
                assert(jp < js);
                assert(t == ch[jp + 1] as int);
                if jp + 1 < js {
                    assert(self.spec_lt(
                        self.key_at(ch[jp + 1] as int),
                        self.key_at(ch[js] as int),
                    ));
                    assert(false);
                }
                assert(t == us);
            }
            self.lemma_key_unique(t, us);
        }
        if t != 0 && self.key_at(t) == k {
            assert(1 <= t < self.node_count());
            assert(self.has_node(k));
        }
    }

    /// No live key at or above `k` sorts below the candidate; with no
    /// candidate, every node's key sorts below `k`.
    proof fn lemma_candidate_floor(self, k: Seq<u8>, pred: int)
        requires
            self.wf(),
            self.pred_ok(pred, 0, k),
        ensures
            self.slot(pred, 0) == 0 ==> forall|w: int|
                1 <= w < self.node_count() ==> self.spec_lt(#[trigger] self.key_at(w), k),
            self.slot(pred, 0) != 0 ==> forall|w: int|
                1 <= w < self.node_count() && !self.spec_lt(#[trigger] self.key_at(w), k)
                    ==> !self.spec_lt(self.key_at(w), self.key_at(self.slot(pred, 0))),
    {
        let ch = self.chain@;
        let t = self.slot(pred, 0);
        if t == 0 {
            assert forall|w: int| 1 <= w < self.node_count() implies self.spec_lt(
                #[trigger] self.key_at(w),
                k,
            ) by {
                self.lemma_pos(w);
                let jw = self.pos_of(w);
                if pred == 0 {
                    assert(ch.len() == 0);
                    assert(false);
                } else {
                    self.lemma_pos(pred);
                    let jp = self.pos_of(pred);
                    assert(jp + 1 >= ch.len());
                    if !self.spec_lt(self.key_at(w), k) {
                        self.lemma_not_lt_ge(self.key_at(w), k);
                        if self.key_at(w) == k {
                            assert(self.spec_lt(self.key_at(pred), self.key_at(w)));
                        } else {
                            self.comparator.law_trans(
                                self.key_at(pred),
                                k,
                                self.key_at(w),
                            );
                        }
                        self.lemma_pos_increases(pred, w);
                        assert(jw > jp);
                        assert(false);
                    }
                }
            }
        } else {
            assert forall|w: int|
                1 <= w < self.node_count() && !self.spec_lt(#[trigger] self.key_at(w), k) implies !self.spec_lt(
                self.key_at(w),
                self.key_at(t),
            ) by {
                self.lemma_pos(w);
                self.lemma_pos(t);
                let jw = self.pos_of(w);
                let jt = self.pos_of(t);
                if pred == 0 {
                    assert(t == ch[0] as int);
                    self.lemma_key_unique(t, ch[0] as int);
                    assert(jt == 0 || ch[jt] as int == t);
                    if jt != 0 {
                        self.lemma_irrefl(self.key_at(t));
                        assert(self.spec_lt(self.key_at(ch[0] as int), self.key_at(ch[jt] as int)));
                        self.lemma_pos_increases(t, t);
                    }
                    assert(jt == 0);
                    if jw > jt {
                        assert(self.spec_lt(self.key_at(ch[jt] as int), self.key_at(ch[jw] as int)));
                        self.lemma_irrefl(self.key_at(w));
                        if self.spec_lt(self.key_at(w), self.key_at(t)) {
                            self.comparator.law_trans(
                                self.key_at(t),
                                self.key_at(w),
                                self.key_at(t),
                            );
                            self.lemma_irrefl(self.key_at(t));
                        }
                    } else {
                        assert(jw == jt);
                        self.lemma_irrefl(self.key_at(w));
                    }
                } else {
                    self.lemma_pos(pred);
                    let jp = self.pos_of(pred);
                    assert(t == ch[jp + 1] as int);
                    // w sits strictly after pred: pred's key is below k, w's is not.
                    if self.key_at(w) == k {
                        self.lemma_pos_increases(pred, w);
                    } else {
                        self.lemma_not_lt_ge(self.key_at(w), k);
                        self.comparator.law_trans(self.key_at(pred), k, self.key_at(w));
                        self.lemma_pos_increases(pred, w);
                    }
                    assert(jw >= jp + 1);
                    self.lemma_key_unique(t, ch[jp + 1] as int);
                    assert(jt == jp + 1 || ch[jt] as int == t);
                    if jt != jp + 1 {
                        if jt < jp + 1 {
                            assert(self.spec_lt(self.key_at(ch[jt] as int), self.key_at(ch[jp + 1] as int)));
                        } else {
                            assert(self.spec_lt(self.key_at(ch[jp + 1] as int), self.key_at(ch[jt] as int)));
                        }
                        self.lemma_irrefl(self.key_at(t));
                    }
                    assert(jt == jp + 1);
                    if jw > jt {
                        assert(self.spec_lt(self.key_at(ch[jt] as int), self.key_at(ch[jw] as int)));
                        if self.spec_lt(self.key_at(w), self.key_at(t)) {
                            self.comparator.law_trans(
                                self.key_at(t),
                                self.key_at(w),
                                self.key_at(t),
                            );
                            self.lemma_irrefl(self.key_at(t));
                        }
                    } else {
                        assert(jw == jt);
                        self.lemma_irrefl(self.key_at(w));
                    }
                }
            }
        }
    }

    /// Not sorting below means: equal, or sorting above.
    proof fn lemma_not_lt_ge(self, a: Seq<u8>, b: Seq<u8>)
        requires
            !self.spec_lt(a, b),
        ensures
            a == b || self.spec_lt(b, a),
    {
        self.comparator.law_equal(a, b);
        self.comparator.law_flip(b, a);
        if self.comparator.spec_compare(a, b) == KeyOrd::Greater {
            assert(self.spec_lt(b, a));
        }
    }

    /// Structural facts transfer across a step that keeps every
    /// node's key, tower and height, only appends to the arena and
    /// the link store, and leaves the chain and comparator alone.
    proof fn lemma_same_structure(pre: Self, post: Self)
        requires
            pre.wf(),
            post.node_count() == pre.node_count(),
            post.chain@ == pre.chain@,
            pre.links@.len() <= post.links@.len(),
            post.links@.subrange(0, pre.links@.len() as int) == pre.links@,
            pre.arena.bytes().len() <= post.arena.bytes().len(),
            post.arena.bytes().subrange(0, pre.arena.bytes().len() as int) == pre.arena.bytes(),
            post.comparator == pre.comparator,
            forall|u: int|
                0 <= u < pre.node_count() ==> {
                    &&& (#[trigger] post.node(u)).key_off == pre.node(u).key_off
                    &&& post.node(u).key_len == pre.node(u).key_len
                    &&& post.node(u).tower_off == pre.node(u).tower_off
                    &&& post.node(u).height == pre.node(u).height
                    &&& post.node(u).val_off + post.node(u).val_len <= post.arena.bytes().len()
                },
        ensures
            post.wf(),
            forall|u: int|
                0 <= u < pre.node_count() ==> #[trigger] post.key_at(u) == pre.key_at(u),
            forall|u: int|
                0 <= u < pre.node_count() ==> #[trigger] post.height_of(u) == pre.height_of(u),
            forall|u: int, i: int|
                0 <= u < pre.node_count() && 0 <= i < pre.height_of(u) ==> #[trigger] post.slot(
                    u,
                    i,
                ) == pre.slot(u, i),
            forall|a: Seq<u8>, b: Seq<u8>| #[trigger] post.spec_lt(a, b) == pre.spec_lt(a, b),
            forall|u: int|
                0 <= u < pre.node_count() && post.node(u).val_off == pre.node(u).val_off
                    && post.node(u).val_len == pre.node(u).val_len ==> #[trigger] post.val_at(u)
                    == pre.val_at(u),
    {
        assert forall|i: int| 0 <= i < pre.arena.bytes().len() implies post.arena.bytes()[i]
            == pre.arena.bytes()[i] by {
            assert(post.arena.bytes().subrange(0, pre.arena.bytes().len() as int)[i]
                == post.arena.bytes()[i]);
        }
        assert forall|i: int| 0 <= i < pre.links@.len() implies post.links@[i] == pre.links@[i] by {
            assert(post.links@.subrange(0, pre.links@.len() as int)[i] == post.links@[i]);
        }
        assert forall|u: int| 0 <= u < pre.node_count() implies #[trigger] post.key_at(u)
            == pre.key_at(u) by {
            assert(pre.node_ok(u));
            assert(post.key_at(u) =~= pre.key_at(u));
        }
        assert forall|u: int|
            0 <= u < pre.node_count() && post.node(u).val_off == pre.node(u).val_off
                && post.node(u).val_len == pre.node(u).val_len implies #[trigger] post.val_at(u)
            == pre.val_at(u) by {
            assert(pre.node_ok(u));
            assert(post.val_at(u) =~= pre.val_at(u));
        }
        assert forall|u: int, i: int|
            0 <= u < pre.node_count() && 0 <= i < pre.height_of(u) implies #[trigger] post.slot(
            u,
            i,
        ) == pre.slot(u, i) by {
            assert(pre.node_ok(u));
        }
        assert forall|u: int| 0 <= u < post.node_count() implies #[trigger] post.node_ok(u) by {
            assert(pre.node_ok(u));
        }
        assert forall|u: int, i: int|
            0 <= u < post.node_count() && 0 <= i < post.height_of(u) implies #[trigger] post.link_ok(
            u,
            i,
        ) by {
            assert(pre.link_ok(u, i));
            if pre.slot(u, i) != 0 {
                assert(post.slot(u, i) == pre.slot(u, i));
            }
        }
        assert forall|u: int| 1 <= u < post.node_count() implies #[trigger] post.in_chain(u) by {
            assert(pre.in_chain(u));
            let j = choose|j: int|
                0 <= j < pre.chain@.len() && pre.chain@[j] as int == u;
            assert(post.chain@[j] as int == u);
        }
        let ch = post.chain@;
        assert(pre.node_ok(0));
        assert forall|j: int| 0 <= j < ch.len() implies post.slot(#[trigger] ch[j] as int, 0)
            == pre.slot(ch[j] as int, 0) by {
            assert(pre.node_ok(ch[j] as int));
        }
        assert forall|j: int, l: int|
            #![trigger ch[j], ch[l]]
            0 <= j < l < ch.len() implies post.spec_lt(
            post.key_at(ch[j] as int),
            post.key_at(ch[l] as int),
        ) by {
            assert(pre.spec_lt(pre.key_at(ch[j] as int), pre.key_at(ch[l] as int)));
        }
        assert(post.chain_ok());
    }

    /// When keys, liveness and values agree node by node, the two
    /// states contain the same live entries with the same values.
    proof fn lemma_view_preserved(pre: Self, post: Self)
        requires
            pre.wf(),
            post.wf(),
            post.node_count() == pre.node_count(),
            forall|u: int| 1 <= u < pre.node_count() ==> #[trigger] post.key_at(u) == pre.key_at(u),
            forall|u: int| 1 <= u < pre.node_count() ==> #[trigger] post.is_dead(u) == pre.is_dead(u),
            forall|u: int| 1 <= u < pre.node_count() ==> #[trigger] post.val_at(u) == pre.val_at(u),
        ensures
            forall|k: Seq<u8>| #[trigger] post.spec_contains(k) <==> pre.spec_contains(k),
            forall|k: Seq<u8>|
                pre.has_node(k) ==> #[trigger] post.spec_value(k) == pre.spec_value(k),
    {
        assert forall|k: Seq<u8>| #[trigger] post.spec_contains(k) <==> pre.spec_contains(k) by {
            if pre.spec_contains(k) {
                let w = choose|u: int|
                    1 <= u < pre.node_count() && #[trigger] pre.key_at(u) == k && !pre.is_dead(u);
                assert(post.key_at(w) == k && !post.is_dead(w));
            }
            if post.spec_contains(k) {
                let w = choose|u: int|
                    1 <= u < post.node_count() && #[trigger] post.key_at(u) == k && !post.is_dead(
                        u,
                    );
                assert(pre.key_at(w) == k && !pre.is_dead(w));
            }
        }
        assert forall|k: Seq<u8>| pre.has_node(k) implies #[trigger] post.spec_value(k)
            == pre.spec_value(k) by {
            let w = pre.node_of(k);
            assert(pre.key_at(w) == k);
            assert(post.key_at(w) == k);
            assert(post.has_node(k));
            let w2 = post.node_of(k);
            post.lemma_key_unique(w, w2);
        }
    }

    /// After the new node is stored, its tower filled with the
    /// observed successors, the level-0 splice done and the chain
    /// extended at the insertion point, the whole structure is
    /// well-formed again and holds exactly the old entries plus the
    /// new one.
    #[verifier::rlimit(100)]
    #[verifier::spinoff_prover]
    proof fn lemma_insert_wf(
        s2: Self,
        s3: Self,
        preds: Seq<usize>,
        k: Seq<u8>,
        v: Seq<u8>,
        unew: usize,
        h: int,
        jins: int,
    )
        requires
            s2.wf(),
            !s2.has_node(k),
            preds.len() == MAX_HEIGHT,
            forall|i: int| 0 <= i < MAX_HEIGHT ==> s2.pred_ok(#[trigger] preds[i] as int, i, k),
            1 <= h <= MAX_HEIGHT,
            unew as int == s2.node_count(),
            s3.node_count() == s2.node_count() + 1,
            forall|u: int| 0 <= u < unew as int ==> #[trigger] s3.node(u) == s2.node(u),
            s3.node(unew as int).tower_off == s2.links@.len(),
            s3.node(unew as int).height == h,
            !s3.node(unew as int).dead,
            s3.node(unew as int).key_off + s3.node(unew as int).key_len <= s3.arena.bytes().len(),
            s3.node(unew as int).val_off + s3.node(unew as int).val_len <= s3.arena.bytes().len(),
            s3.key_at(unew as int) == k,
            s3.val_at(unew as int) == v,
            s2.arena.bytes().len() <= s3.arena.bytes().len(),
            s3.arena.bytes().subrange(0, s2.arena.bytes().len() as int) == s2.arena.bytes(),
            s3.links@.len() == s2.links@.len() + h,
            forall|x: int|
                0 <= x < s2.links@.len() && x != s2.node(preds[0] as int).tower_off
                    ==> #[trigger] s3.links@[x] == s2.links@[x],
            s3.links@[s2.node(preds[0] as int).tower_off as int] == unew,
            forall|j: int|
                0 <= j < h ==> #[trigger] s3.links@[s2.links@.len() + j] as int == s2.slot(
                    preds[j] as int,
                    j,
                ),
            s3.comparator == s2.comparator,
            jins == (if preds[0] as int == 0 {
                0int
            } else {
                s2.pos_of(preds[0] as int) + 1
            }),
            s3.chain@ == s2.chain@.subrange(0, jins) + seq![unew] + s2.chain@.subrange(
                jins,
                s2.chain@.len() as int,
            ),
        ensures
            s3.wf(),
            forall|u: int| 0 <= u < unew as int ==> #[trigger] s3.key_at(u) == s2.key_at(u),
            forall|u: int| 0 <= u < unew as int ==> #[trigger] s3.val_at(u) == s2.val_at(u),
            s3.spec_contains(k),
            s3.spec_value(k) == v,
            forall|k2: Seq<u8>|
                k2 != k ==> (#[trigger] s3.spec_contains(k2) <==> s2.spec_contains(k2)),
            forall|k2: Seq<u8>|
                k2 != k && s2.spec_contains(k2) ==> #[trigger] s3.spec_value(k2) == s2.spec_value(
                    k2,
                ),
    {
        let ch = s2.chain@;
        let ch2 = s3.chain@;
        let n2 = s2.node_count();
        let p0 = preds[0] as int;
        let t0 = s2.slot(p0, 0);
        assert(s2.pred_ok(p0, 0, k));
        // Bytes already in the arena are untouched.
        assert forall|x: int| 0 <= x < s2.arena.bytes().len() implies s3.arena.bytes()[x]
            == s2.arena.bytes()[x] by {
            assert(s3.arena.bytes().subrange(0, s2.arena.bytes().len() as int)[x]
                == s3.arena.bytes()[x]);
        }
        assert forall|u: int| 0 <= u < unew as int implies #[trigger] s3.key_at(u) == s2.key_at(u) by {
            assert(s2.node_ok(u));
            assert(s3.key_at(u) =~= s2.key_at(u));
        }
        assert forall|u: int| 0 <= u < unew as int implies #[trigger] s3.val_at(u) == s2.val_at(u) by {
            assert(s2.node_ok(u));
            assert(s3.val_at(u) =~= s2.val_at(u));
        }
        // Old slots other than the spliced one read back unchanged.
        assert forall|u: int, j: int|
            0 <= u < n2 && 0 <= j < s2.height_of(u) && !(u == p0 && j == 0) implies #[trigger] s3.slot(
            u,
            j,
        ) == s2.slot(u, j) by {
            assert(s2.node_ok(u));
            assert(s2.node_ok(p0));
            if u != p0 {
                if u < p0 {
                    assert(s2.node(u).tower_off + s2.node(u).height <= s2.node(p0).tower_off);
                } else {
                    assert(s2.node(p0).tower_off + s2.node(p0).height <= s2.node(u).tower_off);
                    assert(0 < s2.height_of(p0));
                }
            }
            assert(s2.node(u).tower_off + j != s2.node(p0).tower_off);
        }
        assert(s2.node_ok(p0));
        assert(s3.slot(p0, 0) == unew as int);
        assert forall|j: int| 0 <= j < h implies #[trigger] s3.slot(unew as int, j) == s2.slot(
            preds[j] as int,
            j,
        ) by {}
        // Chain positions are unique.
        assert forall|m1: int, m2: int|
            #![trigger ch[m1], ch[m2]]
            0 <= m1 < m2 < ch.len() implies ch[m1] != ch[m2] by {
            if ch[m1] == ch[m2] {
                s2.lemma_irrefl(s2.key_at(ch[m1] as int));
            }
        }
        // Insertion point bounds and the candidate at it.
        if p0 != 0 {
            s2.lemma_pos(p0);
            assert(1 <= jins <= ch.len());
            assert(ch[jins - 1] as int == p0);
        }
        assert(0 <= jins <= ch.len());
        if jins < ch.len() {
            assert(t0 == ch[jins] as int);
        } else {
            assert(t0 == 0);
        }
        // Indexing the extended chain.
        assert(ch2.len() == ch.len() + 1);
        assert forall|m: int| 0 <= m < jins implies ch2[m] == ch[m] by {
            assert(ch2[m] == ch.subrange(0, jins)[m]);
        }
        assert(ch2[jins] == unew);
        assert forall|m: int| jins < m < ch2.len() implies ch2[m] == ch[m - 1] by {
            assert(ch2[m] == ch.subrange(jins, ch.len() as int)[m - jins - 1]);
        }
        // Keys before the insertion point sort below `k` ...
        assert forall|m: int| 0 <= m < jins implies s2.spec_lt(
            s2.key_at(#[trigger] ch[m] as int),
            k,
        ) by {
            assert(s2.spec_lt(s2.key_at(p0), k));
            if m < jins - 1 {
                assert(s2.spec_lt(s2.key_at(ch[m] as int), s2.key_at(ch[jins - 1] as int)));
                s2.comparator.law_trans(s2.key_at(ch[m] as int), s2.key_at(p0), k);
            }
        }
        // ... and keys from it on sort above `k`.
        assert forall|m: int| jins <= m < ch.len() implies s2.spec_lt(
            k,
            s2.key_at(#[trigger] ch[m] as int),
        ) by {
            assert(t0 == ch[jins] as int);
            assert(!s2.spec_lt(s2.key_at(t0), k));
            s2.lemma_not_lt_ge(s2.key_at(t0), k);
            if s2.key_at(t0) == k {
                assert(s2.has_node(k));
            }
            assert(s2.spec_lt(k, s2.key_at(t0)));
            if m > jins {
                assert(s2.spec_lt(s2.key_at(ch[jins] as int), s2.key_at(ch[m] as int)));
                s2.comparator.law_trans(k, s2.key_at(t0), s2.key_at(ch[m] as int));
            }
        }
        // Well-formedness of the new state, piece by piece.
        assert forall|u: int| 0 <= u < s3.node_count() implies #[trigger] s3.node_ok(u) by {
            if u < unew {
                assert(s2.node_ok(u));
            }
        }
        assert forall|u: int, vv: int|
            #![trigger s3.node(u), s3.node(vv)]
            0 <= u < vv < s3.node_count() implies s3.node(u).tower_off + s3.node(u).height
            <= s3.node(vv).tower_off by {
            if vv < unew {
                assert(s2.node(u).tower_off + s2.node(u).height <= s2.node(vv).tower_off);
            } else {
                assert(s2.node_ok(u));
            }
        }
        assert forall|u: int, j: int|
            0 <= u < s3.node_count() && 0 <= j < s3.height_of(u) implies #[trigger] s3.link_ok(
            u,
            j,
        ) by {
            if u == unew as int {
                let sj = s2.slot(preds[j] as int, j);
                assert(s2.pred_ok(preds[j] as int, j, k));
                assert(s3.slot(unew as int, j) == sj);
                if sj != 0 {
                    assert(s2.link_ok(preds[j] as int, j));
                    s2.lemma_not_lt_ge(s2.key_at(sj), k);
                    if s2.key_at(sj) == k {
                        assert(s2.has_node(k));
                    }
                    assert(s2.spec_lt(k, s2.key_at(sj)));
                    assert(s3.spec_lt(s3.key_at(unew as int), s3.key_at(sj)));
                }
            } else if u == p0 && j == 0 {
                assert(s3.slot(p0, 0) == unew as int);
                if p0 != 0 {
                    assert(s2.spec_lt(s2.key_at(p0), k));
                    assert(s3.spec_lt(s3.key_at(p0), s3.key_at(unew as int)));
                }
            } else {
                assert(s2.link_ok(u, j));
                assert(s3.slot(u, j) == s2.slot(u, j));
            }
        }
        // The rebuilt chain.
        assert(ch2.len() == s3.node_count() - 1);
        assert forall|m: int|
            #![trigger ch2[m]]
            0 <= m < ch2.len() implies 1 <= ch2[m] as int && (ch2[m] as int) < s3.node_count() by {}
        assert forall|m: int, l: int|
            #![trigger ch2[m], ch2[l]]
            0 <= m < l < ch2.len() implies s3.spec_lt(
            s3.key_at(ch2[m] as int),
            s3.key_at(ch2[l] as int),
        ) by {
            if l < jins {
                assert(s2.spec_lt(s2.key_at(ch[m] as int), s2.key_at(ch[l] as int)));
            } else if l == jins {
                assert(s2.spec_lt(s2.key_at(ch[m] as int), k));
            } else if m < jins {
                assert(s2.spec_lt(s2.key_at(ch[m] as int), k));
                assert(s2.spec_lt(k, s2.key_at(ch[l - 1] as int)));
                s2.comparator.law_trans(s2.key_at(ch[m] as int), k, s2.key_at(ch[l - 1] as int));
            } else if m == jins {
                assert(s2.spec_lt(k, s2.key_at(ch[l - 1] as int)));
            } else {
                assert(s2.spec_lt(s2.key_at(ch[m - 1] as int), s2.key_at(ch[l - 1] as int)));
            }
        }
        assert forall|u: int| 1 <= u < s3.node_count() implies #[trigger] s3.in_chain(u) by {
            if u == unew as int {
                assert(s3.chain@[jins] as int == u);
            } else {
                assert(s2.in_chain(u));
                let j = choose|j: int| 0 <= j < ch.len() && ch[j] as int == u;
                if j < jins {
                    assert(s3.chain@[j] as int == u);
                } else {
                    assert(s3.chain@[j + 1] as int == u);
                }
            }
        }
        // Level-0 links follow the new chain.
        assert(s3.node(0) == s2.node(0));
        if p0 == 0 {
            assert(s3.slot(0, 0) == unew as int);
            assert(jins == 0);
        } else {
            assert(0 < s2.height_of(0));
            assert(s3.slot(0, 0) == s2.slot(0, 0));
            assert(ch.len() > 0);
            assert(s3.slot(0, 0) == ch[0] as int);
            assert(ch2[0] == ch[0]);
        }
        assert forall|m: int| 0 <= m < ch2.len() implies s3.slot(#[trigger] ch2[m] as int, 0) == (
        if m + 1 < ch2.len() {
            ch2[m + 1] as int
        } else {
            0int
        }) by {
            assert(0 < s2.height_of(p0));
            if m < jins - 1 {
                assert(ch2[m] == ch[m]);
                assert(ch[m] as int != p0);
                assert(0 < s2.height_of(ch[m] as int)) by {
                    assert(s2.node_ok(ch[m] as int));
                }
                assert(s3.slot(ch[m] as int, 0) == s2.slot(ch[m] as int, 0));
                assert(s2.slot(ch[m] as int, 0) == ch[m + 1] as int);
                assert(ch2[m + 1] == ch[m + 1]);
            } else if m == jins - 1 {
                assert(ch2[m] as int == p0);
                assert(s3.slot(p0, 0) == unew as int);
                assert(ch2[m + 1] == unew);
            } else if m == jins {
                assert(ch2[m] == unew);
                assert(s3.slot(unew as int, 0) == t0);
                if jins < ch.len() {
                    assert(ch2[m + 1] == ch[jins]);
                } else {
                    assert(m + 1 == ch2.len());
                }
            } else {
                assert(ch2[m] == ch[m - 1]);
                assert(ch[m - 1] as int != p0);
                assert(0 < s2.height_of(ch[m - 1] as int)) by {
                    assert(s2.node_ok(ch[m - 1] as int));
                }
                assert(s3.slot(ch[m - 1] as int, 0) == s2.slot(ch[m - 1] as int, 0));
                if m + 1 < ch2.len() {
                    assert(ch2[m + 1] == ch[m]);
                    assert(s2.slot(ch[m - 1] as int, 0) == ch[m] as int);
                } else {
                    assert(m - 1 == ch.len() - 1);
                }
            }
        }
        assert(s3.chain_ok());
        assert(s3.wf());
        // The new state holds the old entries plus the new one.
        assert(s3.spec_contains(k)) by {
            assert(s3.key_at(unew as int) == k && !s3.is_dead(unew as int));
        }
        assert forall|u: int| 1 <= u < s3.node_count() && #[trigger] s3.key_at(u) == k implies u
            == unew as int by {
            if u != unew as int {
                assert(s2.key_at(u) == k);
                assert(s2.has_node(k));
            }
        }
        assert(s3.spec_value(k) == v) by {
            let w = s3.node_of(k);
            assert(s3.key_at(w) == k);
        }
        assert forall|k2: Seq<u8>| k2 != k implies (#[trigger] s3.spec_contains(k2)
            <==> s2.spec_contains(k2)) by {
            if s2.spec_contains(k2) {
                let w = choose|u: int|
                    1 <= u < s2.node_count() && #[trigger] s2.key_at(u) == k2 && !s2.is_dead(u);
                assert(s3.key_at(w) == k2 && !s3.is_dead(w));
            }
            if s3.spec_contains(k2) {
                let w = choose|u: int|
                    1 <= u < s3.node_count() && #[trigger] s3.key_at(u) == k2 && !s3.is_dead(u);
                assert(w != unew as int);
                assert(s2.key_at(w) == k2 && !s2.is_dead(w));
            }
        }
        assert forall|k2: Seq<u8>| k2 != k && s2.spec_contains(k2) implies #[trigger] s3.spec_value(
            k2,
        ) == s2.spec_value(k2) by {
            let w = s2.node_of(k2);
            assert(s2.key_at(w) == k2);
            assert(s3.key_at(w) == k2);
            assert(s3.has_node(k2));
            let w2 = s3.node_of(k2);
            assert(s3.key_at(w2) == k2);
            s3.lemma_key_unique(w, w2);
        }
    }

    /// A single tower-slot write changes that slot and nothing else:
    /// towers are pairwise disjoint ranges of the link store.
    proof fn lemma_slots_after_update(pre: Self, post: Self, p: int, i: int, w: usize)
        requires
            pre.wf(),
            0 <= p < pre.node_count(),
            0 <= i < pre.height_of(p),
            post.nodes@ == pre.nodes@,
            post.links@ == pre.links@.update(pre.node(p).tower_off + i, w),
        ensures
            forall|u: int, j: int|
                0 <= u < pre.node_count() && 0 <= j < pre.height_of(u) && !(u == p && j == i)
                    ==> #[trigger] post.slot(u, j) == pre.slot(u, j),
            post.slot(p, i) == w as int,
            post.links@.len() == pre.links@.len(),
    {
        assert(pre.node_ok(p));
        assert forall|u: int, j: int|
            0 <= u < pre.node_count() && 0 <= j < pre.height_of(u) && !(u == p && j == i) implies #[trigger] post.slot(
            u,
            j,
        ) == pre.slot(u, j) by {
            assert(pre.node_ok(u));
            if u != p {
                if u < p {
                    assert(pre.node(u).tower_off + pre.node(u).height <= pre.node(p).tower_off);
                } else {
                    assert(pre.node(p).tower_off + pre.node(p).height <= pre.node(u).tower_off);
                }
            }
            assert(pre.node(u).tower_off + j != pre.node(p).tower_off + i);
        }
    }

    /// Towers stay well-linked across the single-slot write.
    #[verifier::rlimit(100)]
    proof fn lemma_splice_links(pre: Self, post: Self, p: int, i: int, unew: usize)
        requires
            pre.wf(),
            1 <= unew as int && (unew as int) < pre.node_count(),
            0 <= p < pre.node_count(),
            0 < i < pre.height_of(p),
            i < pre.height_of(unew as int),
            p != 0 ==> pre.spec_lt(pre.key_at(p), pre.key_at(unew as int)),
            post.nodes@ == pre.nodes@,
            post.arena == pre.arena,
            post.comparator == pre.comparator,
            post.links@ == pre.links@.update(pre.node(p).tower_off + i, unew),
        ensures
            forall|u: int| 0 <= u < post.node_count() ==> #[trigger] post.node_ok(u),
            forall|u: int, j: int|
                0 <= u < post.node_count() && 0 <= j < post.height_of(u) ==> #[trigger] post.link_ok(
                    u,
                    j,
                ),
    {
        Self::lemma_slots_after_update(pre, post, p, i, unew);
        assert forall|u: int| 0 <= u < post.node_count() implies #[trigger] post.node_ok(u) by {
            assert(pre.node_ok(u));
        }
        assert forall|u: int, j: int|
            0 <= u < post.node_count() && 0 <= j < post.height_of(u) implies #[trigger] post.link_ok(
            u,
            j,
        ) by {
            if u == p && j == i {
                assert(post.slot(p, i) == unew as int);
                assert(pre.node_ok(unew as int));
            } else {
                assert(pre.link_ok(u, j));
                assert(post.slot(u, j) == pre.slot(u, j));
            }
        }
    }

    /// Re-linking one higher level of the new node's predecessors
    /// preserves well-formedness: the write lands in the predecessor's
    /// own tower slot and points at the already-linked new node.
    #[verifier::rlimit(100)]
    #[verifier::spinoff_prover]
    proof fn lemma_splice_level(pre: Self, post: Self, p: int, i: int, unew: usize)
        requires
            pre.wf(),
            1 <= unew as int && (unew as int) < pre.node_count(),
            0 <= p < pre.node_count(),
            0 < i < pre.height_of(p),
            i < pre.height_of(unew as int),
            p != 0 ==> pre.spec_lt(pre.key_at(p), pre.key_at(unew as int)),
            post.nodes@ == pre.nodes@,
            post.arena == pre.arena,
            post.chain@ == pre.chain@,
            post.comparator == pre.comparator,
            post.links@ == pre.links@.update(pre.node(p).tower_off + i, unew),
        ensures
            post.wf(),
    {
        Self::lemma_splice_links(pre, post, p, i, unew);
        Self::lemma_splice_chain(pre, post, p, i, unew);
        assert forall|u: int, v: int|
            #![trigger post.node(u), post.node(v)]
            0 <= u < v < post.node_count() implies post.node(u).tower_off + post.node(u).height
            <= post.node(v).tower_off by {
            assert(pre.node(u).tower_off + pre.node(u).height <= pre.node(v).tower_off);
        }
        assert(post.node(0).height == MAX_HEIGHT);
        assert(post.node(0).key_len == 0);
        assert(post.wf());
    }

    /// The level-0 chain is untouched by a write to a higher slot.
    #[verifier::rlimit(100)]
    proof fn lemma_splice_chain(pre: Self, post: Self, p: int, i: int, unew: usize)
        requires
            pre.wf(),
            0 <= p < pre.node_count(),
            0 < i < pre.height_of(p),
            post.nodes@ == pre.nodes@,
            post.arena == pre.arena,
            post.chain@ == pre.chain@,
            post.comparator == pre.comparator,
            post.links@ == pre.links@.update(pre.node(p).tower_off + i, unew),
        ensures
            post.chain_ok(),
    {
        Self::lemma_slots_after_update(pre, post, p, i, unew);
        let ch = post.chain@;
        assert forall|m: int| 0 <= m < ch.len() implies post.slot(#[trigger] ch[m] as int, 0) == (
        if m + 1 < ch.len() {
            ch[m + 1] as int
        } else {
            0int
        }) by {
            assert(0 < pre.height_of(ch[m] as int)) by {
                assert(pre.node_ok(ch[m] as int));
            }
            assert(post.slot(ch[m] as int, 0) == pre.slot(ch[m] as int, 0));
        }
        assert(0 < pre.height_of(0));
        assert(post.slot(0, 0) == pre.slot(0, 0));
        assert forall|u: int| 1 <= u < post.node_count() implies #[trigger] post.in_chain(u) by {
            assert(pre.in_chain(u));
            let j = choose|j: int| 0 <= j < pre.chain@.len() && pre.chain@[j] as int == u;
            assert(post.chain@[j] as int == u);
        }
        assert forall|m: int, l: int|
            #![trigger ch[m], ch[l]]
            0 <= m < l < ch.len() implies post.spec_lt(
            post.key_at(ch[m] as int),
            post.key_at(ch[l] as int),
        ) by {
            assert(pre.spec_lt(pre.key_at(ch[m] as int), pre.key_at(ch[l] as int)));
        }
        assert(post.chain_ok());
    }

    /// Nothing structural moved at all: the two states are the same
    /// index (only the limiter or the height-draw state may differ).
    proof fn lemma_unchanged_frame(pre: Self, post: Self)
        requires
            pre.wf(),
            post.nodes@ == pre.nodes@,
            post.links@ == pre.links@,
            post.arena == pre.arena,
            post.chain@ == pre.chain@,
            post.comparator == pre.comparator,
        ensures
            post.wf(),
            forall|k: Seq<u8>| #[trigger] post.spec_contains(k) <==> pre.spec_contains(k),
            forall|k: Seq<u8>|
                pre.has_node(k) ==> #[trigger] post.spec_value(k) == pre.spec_value(k),
            forall|k: Seq<u8>| #[trigger] pre.spec_contains(k) ==> pre.has_node(k),
    {
        assert(post.links@.subrange(0, pre.links@.len() as int) =~= pre.links@);
        assert(post.arena.bytes().subrange(0, pre.arena.bytes().len() as int) =~= pre
            .arena.bytes());
        assert forall|u: int| 0 <= u < pre.node_count() implies {
            &&& (#[trigger] post.node(u)).key_off == pre.node(u).key_off
            &&& post.node(u).key_len == pre.node(u).key_len
            &&& post.node(u).tower_off == pre.node(u).tower_off
            &&& post.node(u).height == pre.node(u).height
            &&& post.node(u).val_off + post.node(u).val_len <= post.arena.bytes().len()
        } by {
            assert(pre.node_ok(u));
        }
        Self::lemma_same_structure(pre, post);
        Self::lemma_view_preserved(pre, post);
        assert forall|k: Seq<u8>| #[trigger] pre.spec_contains(k) implies pre.has_node(k) by {
            let w = choose|u: int|
                1 <= u < pre.node_count() && #[trigger] pre.key_at(u) == k && !pre.is_dead(u);
        }
    }

    /// Chains the view across an insertion: the state before the
    /// insert, the staged state, the spliced state and the final
    /// state all hold the same entries apart from the new key.
    #[verifier::rlimit(100)]
    proof fn lemma_insert_final(
        old_s: Self,
        s2: Self,
        s3: Self,
        sf: Self,
        k: Seq<u8>,
        v: Seq<u8>,
    )
        requires
            old_s.wf(),
            s2.wf(),
            s3.wf(),
            sf.wf(),
            !old_s.has_node(k),
            s2.node_count() == old_s.node_count(),
            forall|u: int|
                1 <= u < old_s.node_count() ==> #[trigger] s2.key_at(u) == old_s.key_at(u),
            forall|u: int|
                1 <= u < old_s.node_count() ==> #[trigger] s2.is_dead(u) == old_s.is_dead(u),
            forall|u: int|
                1 <= u < old_s.node_count() ==> #[trigger] s2.val_at(u) == old_s.val_at(u),
            s3.spec_contains(k),
            s3.spec_value(k) == v,
            forall|k2: Seq<u8>|
                k2 != k ==> (#[trigger] s3.spec_contains(k2) <==> s2.spec_contains(k2)),
            forall|k2: Seq<u8>|
                k2 != k && s2.spec_contains(k2) ==> #[trigger] s3.spec_value(k2) == s2.spec_value(
                    k2,
                ),
            sf.node_count() == s3.node_count(),
            forall|u: int| 1 <= u < s3.node_count() ==> #[trigger] sf.key_at(u) == s3.key_at(u),
            forall|u: int| 1 <= u < s3.node_count() ==> #[trigger] sf.is_dead(u) == s3.is_dead(u),
            forall|u: int| 1 <= u < s3.node_count() ==> #[trigger] sf.val_at(u) == s3.val_at(u),
        ensures
            sf.spec_contains(k),
            sf.spec_value(k) == v,
            forall|k2: Seq<u8>|
                k2 != k ==> (#[trigger] sf.spec_contains(k2) <==> old_s.spec_contains(k2)),
            forall|k2: Seq<u8>|
                k2 != k && old_s.spec_contains(k2) ==> #[trigger] sf.spec_value(k2)
                    == old_s.spec_value(k2),
    {
        Self::lemma_view_preserved(old_s, s2);
        Self::lemma_view_preserved(s3, sf);
        assert(sf.spec_contains(k));
        assert(s3.has_node(k)) by {
            let w = choose|u: int|
                1 <= u < s3.node_count() && #[trigger] s3.key_at(u) == k && !s3.is_dead(u);
        }
        assert(sf.spec_value(k) == v);
        assert forall|k2: Seq<u8>|
            k2 != k && old_s.spec_contains(k2) implies #[trigger] sf.spec_value(k2)
            == old_s.spec_value(k2) by {
            assert(old_s.has_node(k2)) by {
                let w = choose|u: int|
                    1 <= u < old_s.node_count() && #[trigger] old_s.key_at(u) == k2
                        && !old_s.is_dead(u);
            }
            assert(s2.spec_value(k2) == old_s.spec_value(k2));
            assert(s2.spec_contains(k2));
            assert(s3.spec_value(k2) == s2.spec_value(k2));
            assert(s3.spec_contains(k2));
            assert(s3.has_node(k2)) by {
                let w = choose|u: int|
                    1 <= u < s3.node_count() && #[trigger] s3.key_at(u) == k2 && !s3.is_dead(u);
            }
            assert(sf.spec_value(k2) == s3.spec_value(k2));
        }
    }

    /// Update in place: fresh value bytes are carved from the arena,
    /// then the node's value reference is swapped over to them; the
    /// old bytes are abandoned in the arena. A tombstoned node comes
    /// back to life with the new value.
    #[verifier::rlimit(100)]
    fn put_update(&mut self, t: usize, value: &[u8], Ghost(k): Ghost<Seq<u8>>)
        requires
            old(self).wf(),
            1 <= t as int && (t as int) < old(self).node_count(),
            old(self).key_at(t as int) == k,
            old(self).spec_used_bytes() + value@.len() <= usize::MAX,
        ensures
            final(self).wf(),
            final(self).spec_contains(k),
            final(self).spec_value(k) == value@,
            forall|k2: Seq<u8>|
                k2 != k ==> (#[trigger] final(self).spec_contains(k2) <==> old(self).spec_contains(
                    k2,
                )),
            forall|k2: Seq<u8>|
                k2 != k && old(self).spec_contains(k2) ==> #[trigger] final(self).spec_value(k2)
                    == old(self).spec_value(k2),
            final(self).limiter == old(self).limiter,
    {
        let vlen = value.len();
        let voff = self.arena.alloc_bytes(value);
        assert(old(self).node_ok(t as int));
        let nd = self.nodes[t];
        let mut nd2 = nd;
        nd2.val_off = voff;
        nd2.val_len = vlen;
        nd2.dead = false;
        self.nodes.set(t, nd2);
        proof {
            assert(self.nodes@ == old(self).nodes@.update(t as int, nd2));
            assert(self.links@.subrange(0, old(self).links@.len() as int) =~= old(self).links@);
            assert(self.arena.bytes().subrange(0, old(self).arena.bytes().len() as int) =~= old(
                self,
            ).arena.bytes());
            assert forall|u: int| 0 <= u < old(self).node_count() implies {
                &&& (#[trigger] self.node(u)).key_off == old(self).node(u).key_off
                &&& self.node(u).key_len == old(self).node(u).key_len
                &&& self.node(u).tower_off == old(self).node(u).tower_off
                &&& self.node(u).height == old(self).node(u).height
                &&& self.node(u).val_off + self.node(u).val_len <= self.arena.bytes().len()
            } by {
                assert(old(self).node_ok(u));
            }
            Self::lemma_same_structure(*old(self), *self);
            assert(self.key_at(t as int) == k);
            assert(self.spec_contains(k));
            assert(self.val_at(t as int) =~= value@);
            assert forall|u: int|
                1 <= u < self.node_count() && #[trigger] self.key_at(u) == k implies u
                == t as int by {
                self.lemma_key_unique(u, t as int);
            }
            assert(self.spec_value(k) == value@) by {
                let w = self.node_of(k);
                assert(self.key_at(w) == k);
            }
            assert forall|k2: Seq<u8>| k2 != k implies (#[trigger] self.spec_contains(k2)
                <==> old(self).spec_contains(k2)) by {
                if old(self).spec_contains(k2) {
                    let w = choose|u: int|
                        1 <= u < old(self).node_count() && #[trigger] old(self).key_at(u) == k2
                            && !old(self).is_dead(u);
                    assert(w != t as int);
                    assert(self.key_at(w) == k2 && !self.is_dead(w));
                }
                if self.spec_contains(k2) {
                    let w = choose|u: int|
                        1 <= u < self.node_count() && #[trigger] self.key_at(u) == k2
                            && !self.is_dead(u);
                    assert(w != t as int);
                    assert(old(self).key_at(w) == k2 && !old(self).is_dead(w));
                }
            }
            assert forall|k2: Seq<u8>|
                k2 != k && old(self).spec_contains(k2) implies #[trigger] self.spec_value(k2)
                == old(self).spec_value(k2) by {
                let w = old(self).node_of(k2);
                assert(old(self).key_at(w) == k2);
                assert(w != t as int);
                assert(self.key_at(w) == k2);
                assert(self.has_node(k2));
                let w2 = self.node_of(k2);
                self.lemma_key_unique(w, w2);
                assert(self.node(w).val_off == old(self).node(w).val_off && self.node(w).val_len
                    == old(self).node(w).val_len);
            }
        }
    }

    /// Fresh-node insertion: draws a height, copies key and value
    /// into the arena, stages the tower with the observed successors,
    /// then links level 0 first — the canonical membership chain —
    /// and the higher levels after it, bottom-up.
    #[verifier::rlimit(100)]
    #[verifier::spinoff_prover]
    fn put_insert(&mut self, preds: &Vec<usize>, key: &[u8], value: &[u8])
        requires
            old(self).wf(),
            preds@.len() == MAX_HEIGHT,
            forall|i: int|
                0 <= i < MAX_HEIGHT ==> old(self).pred_ok(#[trigger] preds@[i] as int, i, key@),
            !old(self).has_node(key@),
            old(self).spec_used_bytes() + key@.len() + value@.len() <= usize::MAX,
            old(self).links@.len() + MAX_HEIGHT <= usize::MAX,
        ensures
            final(self).wf(),
            final(self).spec_contains(key@),
            final(self).spec_value(key@) == value@,
            forall|k2: Seq<u8>|
                k2 != key@ ==> (#[trigger] final(self).spec_contains(k2) <==> old(
                    self,
                ).spec_contains(k2)),
            forall|k2: Seq<u8>|
                k2 != key@ && old(self).spec_contains(k2) ==> #[trigger] final(self).spec_value(k2)
                    == old(self).spec_value(k2),
            final(self).limiter == old(self).limiter,
    {
        let klen = key.len();
        let vlen = value.len();
        let h = self.draw_height();
        let koff = self.arena.alloc_bytes(key);
        let voff = self.arena.alloc_bytes(value);
        proof {
            assert(self.links@.subrange(0, old(self).links@.len() as int) =~= old(self).links@);
            assert(self.arena.bytes().subrange(0, old(self).arena.bytes().len() as int) =~= old(
                self,
            ).arena.bytes());
            assert forall|u: int| 0 <= u < old(self).node_count() implies {
                &&& (#[trigger] self.node(u)).key_off == old(self).node(u).key_off
                &&& self.node(u).key_len == old(self).node(u).key_len
                &&& self.node(u).tower_off == old(self).node(u).tower_off
                &&& self.node(u).height == old(self).node(u).height
                &&& self.node(u).val_off + self.node(u).val_len <= self.arena.bytes().len()
            } by {
                assert(old(self).node_ok(u));
            }
            Self::lemma_same_structure(*old(self), *self);
            assert forall|i: int| 0 <= i < MAX_HEIGHT implies self.pred_ok(
                #[trigger] preds@[i] as int,
                i,
                key@,
            ) by {
                assert(old(self).pred_ok(preds@[i] as int, i, key@));
                assert(old(self).node_ok(preds@[i] as int));
                if old(self).slot(preds@[i] as int, i) != 0 {
                    assert(self.slot(preds@[i] as int, i) == old(self).slot(preds@[i] as int, i));
                }
            }
            if self.has_node(key@) {
                let w = choose|u: int|
                    1 <= u < self.node_count() && #[trigger] self.key_at(u) == key@;
                assert(old(self).key_at(w) == key@);
                assert(old(self).has_node(key@));
            }
            assert(self.arena.bytes().subrange(koff as int, koff + klen) =~= key@);
            assert(self.arena.bytes().subrange(voff as int, voff + vlen) =~= value@);
        }
        let toff = self.links.len();
        let ghost s2 = *self;
        let mut i: usize = 0;
        while i < h
            invariant
                i <= h,
                1 <= h <= MAX_HEIGHT,
                s2.wf(),
                !s2.has_node(key@),
                klen == key@.len(),
                vlen == value@.len(),
                self.nodes@ == s2.nodes@,
                self.arena == s2.arena,
                self.chain@ == s2.chain@,
                self.comparator == s2.comparator,
                self.limiter == s2.limiter,
                toff as int == s2.links@.len(),
                self.links@.len() == toff + i,
                self.links@.subrange(0, toff as int) == s2.links@,
                forall|j: int|
                    0 <= j < i ==> #[trigger] self.links@[toff + j] as int == s2.slot(
                        preds@[j] as int,
                        j,
                    ),
                preds@.len() == MAX_HEIGHT,
                forall|j: int|
                    0 <= j < MAX_HEIGHT ==> s2.pred_ok(#[trigger] preds@[j] as int, j, key@),
            decreases h - i,
        {
            proof {
                assert forall|u: int| 0 <= u < s2.node_count() implies {
                    &&& (#[trigger] self.node(u)).key_off == s2.node(u).key_off
                    &&& self.node(u).key_len == s2.node(u).key_len
                    &&& self.node(u).tower_off == s2.node(u).tower_off
                    &&& self.node(u).height == s2.node(u).height
                    &&& self.node(u).val_off + self.node(u).val_len <= self.arena.bytes().len()
                } by {
                    assert(s2.node_ok(u));
                }
                assert(self.arena.bytes().subrange(0, s2.arena.bytes().len() as int) =~= s2
                    .arena.bytes());
                Self::lemma_same_structure(s2, *self);
                assert(s2.pred_ok(preds@[i as int] as int, i as int, key@));
                assert(s2.node_ok(preds@[i as int] as int));
            }
            let pi = preds[i];
            let s = self.read_slot(pi, i);
            self.links.push(s);
            proof {
                assert(self.links@.subrange(0, toff as int) =~= s2.links@);
                assert(s2.node_ok(preds@[i as int] as int));
                assert(self.links@[toff + i as int] as int == s2.slot(
                    preds@[i as int] as int,
                    i as int,
                ));
            }
            i = i + 1;
        }
        let unew = self.nodes.len();
        self.nodes.push(
            Node {
                key_off: koff,
                key_len: klen,
                val_off: voff,
                val_len: vlen,
                dead: false,
                tower_off: toff,
                height: h,
            },
        );
        let pred0 = preds[0];
        assert(s2.node_ok(pred0 as int));
        let p0off = self.nodes[pred0].tower_off;
        self.links.set(p0off, unew);
        let ghost jins = if pred0 as int == 0 {
            0int
        } else {
            s2.pos_of(pred0 as int) + 1
        };
        self.chain = Ghost(
            s2.chain@.subrange(0, jins) + seq![unew] + s2.chain@.subrange(
                jins,
                s2.chain@.len() as int,
            ),
        );
        proof {
            assert(self.arena.bytes().subrange(0, s2.arena.bytes().len() as int) =~= s2
                .arena.bytes());
            assert(self.key_at(unew as int) =~= s2.arena.bytes().subrange(
                koff as int,
                koff + klen,
            ));
            assert(self.key_at(unew as int) == key@);
            assert(self.val_at(unew as int) =~= s2.arena.bytes().subrange(
                voff as int,
                voff + vlen,
            ));
            assert(self.val_at(unew as int) == value@);
            assert forall|x: int|
                0 <= x < s2.links@.len() && x != s2.node(pred0 as int).tower_off
                    implies #[trigger] self.links@[x] == s2.links@[x] by {}
            Self::lemma_insert_wf(s2, *self, preds@, key@, value@, unew, h as int, jins);
        }
        let ghost s3 = *self;
        let mut i2: usize = 1;
        while i2 < h
            invariant
                1 <= i2 <= h,
                h == s3.height_of(unew as int),
                1 <= h <= MAX_HEIGHT,
                self.wf(),
                s2.wf(),
                1 <= unew as int && (unew as int) < self.node_count(),
                self.nodes@ == s3.nodes@,
                self.arena == s3.arena,
                self.chain@ == s3.chain@,
                self.comparator == s3.comparator,
                self.limiter == s3.limiter,
                self.node_count() == s3.node_count(),
                preds@.len() == MAX_HEIGHT,
                forall|j: int|
                    0 <= j < MAX_HEIGHT ==> s2.pred_ok(#[trigger] preds@[j] as int, j, key@),
                s2.node_count() == unew as int,
                forall|u: int| 0 <= u < unew as int ==> #[trigger] s3.node(u) == s2.node(u),
                self.key_at(unew as int) == key@,
                s3.comparator == s2.comparator,
                forall|u: int|
                    0 <= u < unew as int ==> #[trigger] s3.key_at(u) == s2.key_at(u),
            decreases h - i2,
        {
            let ghost prev = *self;
            assert(s2.pred_ok(preds@[i2 as int] as int, i2 as int, key@));
            assert(s2.node_ok(preds@[i2 as int] as int));
            let pi = preds[i2];
            let ll: usize = self.links.len();
            let poff = self.nodes[pi].tower_off;
            proof {
                assert(self.node(pi as int) == s3.node(pi as int));
                assert(s3.node(pi as int) == s2.node(pi as int));
                assert(self.node_ok(pi as int));
                assert(poff + i2 < ll);
            }
            self.links.set(poff + i2, unew);
            proof {
                assert(prev.node(pi as int) == s2.node(pi as int));
                assert(prev.height_of(pi as int) == s2.height_of(pi as int));
                assert(prev.height_of(unew as int) == h);
                if pi as int != 0 {
                    assert(s2.spec_lt(s2.key_at(pi as int), key@));
                    assert(prev.key_at(pi as int) == s3.key_at(pi as int));
                    assert(s3.key_at(pi as int) == s2.key_at(pi as int));
                    assert(prev.key_at(unew as int) == key@);
                    assert(prev.spec_lt(prev.key_at(pi as int), prev.key_at(unew as int))) by {
                        assert(prev.comparator == s2.comparator);
                    }
                }
                Self::lemma_splice_level(prev, *self, pi as int, i2 as int, unew);
            }
            i2 = i2 + 1;
        }
        proof {
            assert forall|u: int| 1 <= u < s3.node_count() implies #[trigger] self.key_at(u)
                == s3.key_at(u) && self.is_dead(u) == s3.is_dead(u) && self.val_at(u) == s3.val_at(
                u,
            ) by {}
            assert forall|u: int| 1 <= u < old(self).node_count() implies #[trigger] s2.key_at(u)
                == old(self).key_at(u) && s2.is_dead(u) == old(self).is_dead(u) && s2.val_at(u)
                == old(self).val_at(u) by {}
            Self::lemma_insert_final(*old(self), s2, s3, *self, key@, value@);
        }
    }

    /// Insert or update: requests budget for the key, the value and
    /// the node overhead; on denial nothing observable changes and no
    /// node becomes reachable. On a grant, the entry for `key`
    /// afterwards holds `value` — an existing node (live or
    /// tombstoned) has its value reference swapped, and a missing key
    /// gets a fresh node linked in. Every other entry is untouched.
    #[verifier::rlimit(100)]
    pub fn put(&mut self, key: &[u8], value: &[u8]) -> (r: bool)
        requires
            old(self).wf(),
            key@.len() + value@.len() + NODE_OVERHEAD <= usize::MAX,
        ensures
            final(self).wf(),
            r ==> final(self).spec_contains(key@) && final(self).spec_value(key@) == value@,
            r ==> final(self).spec_mem_usage() == old(self).spec_mem_usage() + key@.len()
                + value@.len() + NODE_OVERHEAD,
            forall|k2: Seq<u8>|
                k2 != key@ ==> (#[trigger] final(self).spec_contains(k2) <==> old(
                    self,
                ).spec_contains(k2)),
            forall|k2: Seq<u8>|
                k2 != key@ && old(self).spec_contains(k2) ==> #[trigger] final(self).spec_value(k2)
                    == old(self).spec_value(k2),
            !r ==> final(self).spec_mem_usage() == old(self).spec_mem_usage()
                && final(self).node_count() == old(self).node_count()
                && final(self).spec_used_bytes() == old(self).spec_used_bytes()
                && (final(self).spec_contains(key@) <==> old(self).spec_contains(key@))
                && (old(self).spec_contains(key@) ==> final(self).spec_value(key@) == old(
                self,
            ).spec_value(key@)),
    {
        let klen = key.len();
        let vlen = value.len();
        let charge = klen + vlen + NODE_OVERHEAD;
        let granted = self.limiter.acquire(charge);
        proof {
            Self::lemma_unchanged_frame(*old(self), *self);
        }
        if !granted {
            proof {
                assert forall|k2: Seq<u8>| old(self).spec_contains(k2) implies #[trigger] self.spec_value(
                    k2,
                ) == old(self).spec_value(k2) by {
                    assert(old(self).has_node(k2));
                }
            }
            return false;
        }
        let used = self.arena.used_bytes();
        let llen = self.links.len();
        if used > usize::MAX - charge || llen > usize::MAX - MAX_HEIGHT {
            // The address space itself cannot take another node; give
            // the reservation straight back and report denial.
            let ghost sacq = *self;
            self.limiter.reclaim(charge);
            proof {
                Self::lemma_unchanged_frame(sacq, *self);
                assert forall|k2: Seq<u8>| old(self).spec_contains(k2) implies #[trigger] self.spec_value(
                    k2,
                ) == old(self).spec_value(k2) by {
                    assert(old(self).has_node(k2));
                    assert(sacq.spec_value(k2) == old(self).spec_value(k2));
                    assert(sacq.spec_contains(k2));
                    assert(sacq.has_node(k2));
                    assert(self.spec_value(k2) == sacq.spec_value(k2));
                }
            }
            return false;
        }
        let preds = self.find_splice(key);
        let pred0 = preds[0];
        let t = self.read_slot(pred0, 0);
        proof {
            self.lemma_candidate(key@, pred0 as int);
        }
        let ghost sacq = *self;
        let mut found = false;
        if t != 0 {
            let tk = self.read_key(t);
            let c = self.comparator.compare(tk.as_slice(), key);
            proof {
                self.comparator.law_equal(self.key_at(t as int), key@);
            }
            if c == KeyOrd::Equal {
                found = true;
            }
        }
        if found {
            self.put_update(t, value, Ghost(key@));
            proof {
                assert forall|k2: Seq<u8>| k2 != key@ implies (#[trigger] self.spec_contains(k2)
                    <==> old(self).spec_contains(k2)) by {
                    assert(self.spec_contains(k2) <==> sacq.spec_contains(k2));
                    assert(sacq.spec_contains(k2) <==> old(self).spec_contains(k2));
                }
                assert forall|k2: Seq<u8>|
                    k2 != key@ && old(self).spec_contains(k2) implies #[trigger] self.spec_value(
                    k2,
                ) == old(self).spec_value(k2) by {
                    assert(old(self).has_node(k2));
                    assert(sacq.spec_contains(k2));
                    assert(sacq.spec_value(k2) == old(self).spec_value(k2));
                    assert(self.spec_value(k2) == sacq.spec_value(k2));
                }
            }
            return true;
        }
        proof {
            if self.has_node(key@) {
                assert(false);
            }
        }
        self.put_insert(&preds, key, value);
        proof {
            assert forall|k2: Seq<u8>| k2 != key@ implies (#[trigger] self.spec_contains(k2)
                <==> old(self).spec_contains(k2)) by {
                assert(self.spec_contains(k2) <==> sacq.spec_contains(k2));
                assert(sacq.spec_contains(k2) <==> old(self).spec_contains(k2));
            }
            assert forall|k2: Seq<u8>|
                k2 != key@ && old(self).spec_contains(k2) implies #[trigger] self.spec_value(k2)
                == old(self).spec_value(k2) by {
                assert(old(self).has_node(k2));
                assert(sacq.spec_contains(k2));
                assert(sacq.spec_value(k2) == old(self).spec_value(k2));
                assert(self.spec_value(k2) == sacq.spec_value(k2));
            }
        }
        true
    }

    /// A fresh, empty index owning a fresh arena, with the given
    /// comparator and memory-control handle.
    pub fn new(comparator: C, limiter: M) -> (r: Skiplist<C, M>)
        ensures
            r.wf(),
            forall|k: Seq<u8>| !r.spec_contains(k),
            r.spec_mem_usage() == limiter.spec_usage(),
    {
        let mut links: Vec<usize> = Vec::new();
        let mut i: usize = 0;
        while i < MAX_HEIGHT
            invariant
                links@.len() == i,
                i <= MAX_HEIGHT,
                forall|j: int| 0 <= j < i ==> #[trigger] links@[j] == 0usize,
            decreases MAX_HEIGHT - i,
        {
            links.push(0);
            i = i + 1;
        }
        let mut nodes: Vec<Node> = Vec::new();
        nodes.push(
            Node {
                key_off: 0,
                key_len: 0,
                val_off: 0,
                val_len: 0,
                dead: true,
                tower_off: 0,
                height: MAX_HEIGHT,
            },
        );
        let r = Skiplist {
            arena: Arena::new(),
            nodes,
            links,
            comparator,
            limiter,
            rng: 0x9E3779B97F4A7C15u64,
            chain: Ghost(Seq::empty()),
        };
        proof {
            assert(r.node_ok(0));
            assert forall|u: int, i2: int|
                0 <= u < r.node_count() && 0 <= i2 < r.height_of(u) implies #[trigger] r.link_ok(
                u,
                i2,
            ) by {
                assert(r.slot(u, i2) == 0);
            }
            assert(r.chain_ok());
        }
        r
    }

    /// The committed memory total, as reported by the limiter.
    pub fn mem_usage(&self) -> (r: usize)
        ensures
            r == self.spec_mem_usage(),
    {
        self.limiter.mem_usage()
    }

    /// Draws a tower height from a bounded geometric distribution
    /// (success probability 1/4 per extra level), capped at
    /// [`MAX_HEIGHT`]. The draw never exceeds the cap.
    pub fn random_height(&mut self) -> (h: usize)
        ensures
            1 <= h <= MAX_HEIGHT,
    {
        self.draw_height()
    }

    fn draw_height(&mut self) -> (h: usize)
        ensures
            1 <= h <= MAX_HEIGHT,
            final(self).arena == old(self).arena,
            final(self).nodes == old(self).nodes,
            final(self).links == old(self).links,
            final(self).comparator == old(self).comparator,
            final(self).limiter == old(self).limiter,
            final(self).chain == old(self).chain,
    {
        let mut x: u64 = self.rng;
        x = x ^ (x << 13);
        x = x ^ (x >> 7);
        x = x ^ (x << 17);
        self.rng = x;
        let mut h: usize = 1;
        while h < MAX_HEIGHT && (x & 3) == 0
            invariant
                1 <= h <= MAX_HEIGHT,
            decreases MAX_HEIGHT - h,
        {
            h = h + 1;
            x = x >> 2;
        }
        h
    }

    /// Logical delete: marks the live entry for `key` a tombstone and
    /// returns its value bytes to the limiter. The node keeps its
    /// place in every tower; no unlinking occurs. On an absent or
    /// already-tombstoned key, reports not-found and changes nothing
    /// observable.
    pub fn remove(&mut self, key: &[u8]) -> (r: bool)
        requires
            old(self).wf(),
        ensures
            final(self).wf(),
            r <==> old(self).spec_contains(key@),
            !final(self).spec_contains(key@),
            forall|k2: Seq<u8>|
                k2 != key@ ==> (#[trigger] final(self).spec_contains(k2) <==> old(
                    self,
                ).spec_contains(k2)),
            forall|k2: Seq<u8>|
                k2 != key@ && old(self).spec_contains(k2) ==> #[trigger] final(self).spec_value(k2)
                    == old(self).spec_value(k2),
            r ==> final(self).spec_mem_usage() == (if old(self).spec_value(key@).len() <= old(
                self,
            ).spec_mem_usage() {
                (old(self).spec_mem_usage() - old(self).spec_value(key@).len()) as usize
            } else {
                0usize
            }),
            !r ==> final(self).spec_mem_usage() == old(self).spec_mem_usage()
                && final(self).node_count() == old(self).node_count()
                && final(self).spec_used_bytes() == old(self).spec_used_bytes(),
    {
        let preds = self.find_splice(key);
        let pred = preds[0];
        let t = self.read_slot(pred, 0);
        proof {
            self.lemma_candidate(key@, pred as int);
        }
        if t == 0 {
            proof {
                if self.spec_contains(key@) {
                    assert(self.has_node(key@));
                }
            }
            return false;
        }
        let tk = self.read_key(t);
        let c = self.comparator.compare(tk.as_slice(), key);
        proof {
            self.comparator.law_equal(self.key_at(t as int), key@);
        }
        if c == KeyOrd::Equal {
            assert(self.node_ok(t as int));
            let nd = self.nodes[t];
            if nd.dead {
                proof {
                    if self.spec_contains(key@) {
                        let w = choose|u: int|
                            1 <= u < self.node_count() && #[trigger] self.key_at(u) == key@
                                && !self.is_dead(u);
                        self.lemma_key_unique(w, t as int);
                    }
                }
                return false;
            }
            let mut nd2 = nd;
            nd2.dead = true;
            self.nodes.set(t, nd2);
            self.limiter.reclaim(nd.val_len);
            proof {
                assert(self.nodes@ == old(self).nodes@.update(t as int, nd2));
                assert(self.links@.subrange(0, old(self).links@.len() as int) =~= old(
                    self,
                ).links@);
                assert(self.arena.bytes().subrange(0, old(self).arena.bytes().len() as int) =~= old(
                    self,
                ).arena.bytes());
                assert forall|u: int| 0 <= u < old(self).node_count() implies {
                    &&& (#[trigger] self.node(u)).key_off == old(self).node(u).key_off
                    &&& self.node(u).key_len == old(self).node(u).key_len
                    &&& self.node(u).tower_off == old(self).node(u).tower_off
                    &&& self.node(u).height == old(self).node(u).height
                    &&& self.node(u).val_off + self.node(u).val_len <= self.arena.bytes().len()
                } by {
                    assert(old(self).node_ok(u));
                }
                Self::lemma_same_structure(*old(self), *self);
                assert(old(self).spec_contains(key@));
                assert(old(self).node_of(key@) == t as int) by {
                    let w = old(self).node_of(key@);
                    assert(old(self).has_node(key@));
                    old(self).lemma_key_unique(w, t as int);
                }
                assert(old(self).spec_value(key@) == old(self).val_at(t as int));
                assert(old(self).val_at(t as int).len() == nd.val_len) by {
                    assert(old(self).node_ok(t as int));
                }
                if self.spec_contains(key@) {
                    let w = choose|u: int|
                        1 <= u < self.node_count() && #[trigger] self.key_at(u) == key@
                            && !self.is_dead(u);
                    self.lemma_key_unique(w, t as int);
                }
                assert forall|k2: Seq<u8>| k2 != key@ implies (#[trigger] self.spec_contains(k2)
                    <==> old(self).spec_contains(k2)) by {
                    if old(self).spec_contains(k2) {
                        let w = choose|u: int|
                            1 <= u < old(self).node_count() && #[trigger] old(self).key_at(u) == k2
                                && !old(self).is_dead(u);
                        assert(w != t as int);
                        assert(self.key_at(w) == k2 && !self.is_dead(w));
                    }
                    if self.spec_contains(k2) {
                        let w = choose|u: int|
                            1 <= u < self.node_count() && #[trigger] self.key_at(u) == k2
                                && !self.is_dead(u);
                        assert(w != t as int);
                        assert(old(self).key_at(w) == k2 && !old(self).is_dead(w));
                    }
                }
                assert forall|k2: Seq<u8>|
                    k2 != key@ && old(self).spec_contains(k2) implies #[trigger] self.spec_value(
                    k2,
                ) == old(self).spec_value(k2) by {
                    let w = old(self).node_of(k2);
                    assert(old(self).has_node(k2));
                    assert(self.key_at(w) == k2);
                    assert(self.has_node(k2));
                    let w2 = self.node_of(k2);
                    self.lemma_key_unique(w, w2);
                    assert(self.node(w).val_off == old(self).node(w).val_off
                        && self.node(w).val_len == old(self).node(w).val_len);
                }
            }
            true
        } else {
            proof {
                if self.spec_contains(key@) {
                    assert(self.has_node(key@));
                }
            }
            false
        }
    }

    /// A strictly smaller key cannot sort above: the order is
    /// asymmetric.
    proof fn lemma_asym(self, a: Seq<u8>, b: Seq<u8>)
        requires
            self.spec_lt(a, b),
        ensures
            !self.spec_lt(b, a),
    {
        if self.spec_lt(b, a) {
            self.comparator.law_trans(a, b, a);
            self.lemma_irrefl(a);
        }
    }

    /// A chain index pins the position: the chain holds each node at
    /// exactly one place.
    proof fn lemma_pos_unique(self, j: int, u: int)
        requires
            self.wf(),
            0 <= j < self.chain@.len(),
            self.chain@[j] as int == u,
        ensures
            self.pos_of(u) == j,
    {
        self.lemma_pos(u);
        let jp = self.pos_of(u);
        if jp < j {
            self.lemma_irrefl(self.key_at(u));
        } else if j < jp {
            self.lemma_irrefl(self.key_at(u));
        }
    }

    /// The level-0 successor of a chain node is its chain neighbour.
    proof fn lemma_chain_next(self, u: int)
        requires
            self.wf(),
            1 <= u < self.node_count(),
        ensures
            self.slot(u, 0) == 0 ==> self.pos_of(u) == self.chain@.len() - 1,
            self.slot(u, 0) != 0 ==> {
                &&& self.pos_of(u) + 1 < self.chain@.len()
                &&& self.slot(u, 0) == self.chain@[self.pos_of(u) + 1] as int
                &&& self.pos_of(self.slot(u, 0)) == self.pos_of(u) + 1
                &&& self.spec_lt(self.key_at(u), self.key_at(self.slot(u, 0)))
            },
    {
        self.lemma_pos(u);
        let j = self.pos_of(u);
        if self.slot(u, 0) != 0 {
            assert(j + 1 < self.chain@.len());
            self.lemma_pos_unique(j + 1, self.slot(u, 0));
        }
    }

    /// What one level-0 step means for every other node's key: a
    /// missing successor makes `u` the largest key; otherwise every
    /// key at or above `u`'s sits at or above the successor's, and
    /// every key below the successor's (other than `u`'s) sits below
    /// `u`'s.
    #[verifier::rlimit(100)]
    #[verifier::spinoff_prover]
    proof fn lemma_chain_step(self, u: int)
        requires
            self.wf(),
            1 <= u < self.node_count(),
        ensures
            self.slot(u, 0) == 0 ==> forall|w: int|
                1 <= w < self.node_count() && w != u ==> self.spec_lt(
                    #[trigger] self.key_at(w),
                    self.key_at(u),
                ),
            self.slot(u, 0) != 0 ==> {
                &&& 1 <= self.slot(u, 0) < self.node_count()
                &&& self.spec_lt(self.key_at(u), self.key_at(self.slot(u, 0)))
                &&& forall|w: int|
                    1 <= w < self.node_count() && w != u && !self.spec_lt(
                        #[trigger] self.key_at(w),
                        self.key_at(u),
                    ) ==> !self.spec_lt(self.key_at(w), self.key_at(self.slot(u, 0)))
                &&& forall|w: int|
                    1 <= w < self.node_count() && w != u && self.spec_lt(
                        #[trigger] self.key_at(w),
                        self.key_at(self.slot(u, 0)),
                    ) ==> self.spec_lt(self.key_at(w), self.key_at(u))
            },
    {
        self.lemma_chain_next(u);
        assert(self.node_ok(u));
        assert(self.link_ok(u, 0));
        if self.slot(u, 0) == 0 {
            assert forall|w: int|
                1 <= w < self.node_count() && w != u implies self.spec_lt(
                #[trigger] self.key_at(w),
                self.key_at(u),
            ) by {
                self.lemma_chain_step_rank(u, w);
            }
        } else {
            assert forall|w: int|
                1 <= w < self.node_count() && w != u && !self.spec_lt(
                    #[trigger] self.key_at(w),
                    self.key_at(u),
                ) implies !self.spec_lt(self.key_at(w), self.key_at(self.slot(u, 0))) by {
                self.lemma_chain_step_rank(u, w);
            }
            assert forall|w: int|
                1 <= w < self.node_count() && w != u && self.spec_lt(
                    #[trigger] self.key_at(w),
                    self.key_at(self.slot(u, 0)),
                ) implies self.spec_lt(self.key_at(w), self.key_at(u)) by {
                self.lemma_chain_step_rank(u, w);
            }
        }
    }

    /// Where one other node's key stands relative to `u`'s and to
    /// `u`'s level-0 successor's: below `u`'s, or at/above the
    /// successor's — never in between.
    #[verifier::rlimit(100)]
    #[verifier::spinoff_prover]
    proof fn lemma_chain_step_rank(self, u: int, w: int)
        requires
            self.wf(),
            1 <= u < self.node_count(),
            1 <= w < self.node_count(),
            w != u,
        ensures
            self.slot(u, 0) == 0 ==> self.spec_lt(self.key_at(w), self.key_at(u)),
            self.slot(u, 0) != 0 ==> self.spec_lt(self.key_at(w), self.key_at(u)) || (w
                == self.slot(u, 0) && !self.spec_lt(self.key_at(w), self.key_at(self.slot(u, 0))))
                || (self.spec_lt(self.key_at(self.slot(u, 0)), self.key_at(w)) && !self.spec_lt(
                self.key_at(w),
                self.key_at(self.slot(u, 0)),
            )),
    {
        self.lemma_chain_next(u);
        self.lemma_pos(w);
        self.lemma_pos(u);
        let ju = self.pos_of(u);
        let jw = self.pos_of(w);
        let s = self.slot(u, 0);
        if jw == ju {
            assert(w == u);
        }
        if s == 0 {
            assert(jw < ju);
            assert(self.spec_lt(
                self.key_at(self.chain@[jw] as int),
                self.key_at(self.chain@[ju] as int),
            ));
        } else {
            let js = self.pos_of(s);
            if jw < ju {
                assert(self.spec_lt(
                    self.key_at(self.chain@[jw] as int),
                    self.key_at(self.chain@[ju] as int),
                ));
            } else {
                assert(jw >= js);
                if jw == js {
                    assert(w == s);
                    self.lemma_irrefl(self.key_at(w));
                } else {
                    assert(self.spec_lt(
                        self.key_at(self.chain@[js] as int),
                        self.key_at(self.chain@[jw] as int),
                    ));
                    self.lemma_asym(self.key_at(s), self.key_at(w));
                }
            }
        }
    }

    /// Walks the level-0 chain from node `u` (inclusive) to the first
    /// live node; 0 (and any head argument) means the walk is over.
    #[verifier::rlimit(100)]
    #[verifier::spinoff_prover]
    fn first_live_at_or_after(&self, u: usize) -> (r: usize)
        requires
            self.wf(),
            (u as int) < self.node_count(),
        ensures
            u as int == 0 ==> r as int == 0,
            r as int != 0 ==> {
                &&& 1 <= r as int && (r as int) < self.node_count()
                &&& !self.is_dead(r as int)
                &&& !self.spec_lt(self.key_at(r as int), self.key_at(u as int))
                &&& forall|w: int|
                    1 <= w < self.node_count() && !self.is_dead(w) && !self.spec_lt(
                        #[trigger] self.key_at(w),
                        self.key_at(u as int),
                    ) ==> !self.spec_lt(self.key_at(w), self.key_at(r as int))
            },
            u as int != 0 && r as int == 0 ==> forall|w: int|
                1 <= w < self.node_count() && !self.is_dead(w) ==> self.spec_lt(
                    #[trigger] self.key_at(w),
                    self.key_at(u as int),
                ),
        decreases self.chain@.len() + 1 - self.pos_of(u as int),
    {
        if u == 0 {
            return 0;
        }
        assert(self.node_ok(u as int));
        let nd = self.nodes[u];
        if !nd.dead {
            proof {
                self.lemma_irrefl(self.key_at(u as int));
            }
            return u;
        }
        let s = self.read_slot(u, 0);
        proof {
            self.lemma_chain_next(u as int);
            self.lemma_chain_step(u as int);
        }
        if s == 0 {
            proof {
                assert forall|w: int|
                    1 <= w < self.node_count() && !self.is_dead(w) implies self.spec_lt(
                    #[trigger] self.key_at(w),
                    self.key_at(u as int),
                ) by {
                    assert(w != u as int);
                }
            }
            return 0;
        }
        let r = self.first_live_at_or_after(s);
        proof {
            assert(self.spec_lt(self.key_at(u as int), self.key_at(s as int)));
            if r as int != 0 {
                if self.spec_lt(self.key_at(r as int), self.key_at(u as int)) {
                    self.comparator.law_trans(
                        self.key_at(r as int),
                        self.key_at(u as int),
                        self.key_at(s as int),
                    );
                }
                assert forall|w: int|
                    1 <= w < self.node_count() && !self.is_dead(w) && !self.spec_lt(
                        #[trigger] self.key_at(w),
                        self.key_at(u as int),
                    ) implies !self.spec_lt(self.key_at(w), self.key_at(r as int)) by {
                    assert(w != u as int);
                    assert(!self.spec_lt(self.key_at(w), self.key_at(s as int)));
                }
            } else {
                assert forall|w: int|
                    1 <= w < self.node_count() && !self.is_dead(w) implies self.spec_lt(
                    #[trigger] self.key_at(w),
                    self.key_at(u as int),
                ) by {
                    assert(w != u as int);
                    assert(self.spec_lt(self.key_at(w), self.key_at(s as int)));
                }
            }
        }
        r
    }

    /// A fresh cursor over this index; position it with `seek` or
    /// `seek_to_first`.
    pub fn iter(&self) -> (r: IterRef)
        ensures
            r.wf_for(self),
            !r.spec_valid(self),
    {
        IterRef { cursor: 0 }
    }

    /// No node's tower, the head's included, exceeds the configured
    /// maximum height.
    pub proof fn lemma_height_bound(&self)
        requires
            self.wf(),
        ensures
            forall|u: int|
                0 <= u < self.node_count() ==> 1 <= #[trigger] self.height_of(u) && self.height_of(
                    u,
                ) <= MAX_HEIGHT,
    {
        assert forall|u: int|
            0 <= u < self.node_count() implies 1 <= #[trigger] self.height_of(u) && self.height_of(
            u,
        ) <= MAX_HEIGHT by {
            assert(self.node_ok(u));
        }
    }

    /// Lock-free-style read: returns the value of the live entry for
    /// `key`, or nothing when the key is absent or tombstoned. Never
    /// mutates.
    pub fn get(&self, key: &[u8]) -> (r: Option<Vec<u8>>)
        requires
            self.wf(),
        ensures
            match r {
                Some(v) => self.spec_contains(key@) && v@ == self.spec_value(key@),
                None => !self.spec_contains(key@),
            },
    {
        let preds = self.find_splice(key);
        let pred = preds[0];
        let t = self.read_slot(pred, 0);
        proof {
            self.lemma_candidate(key@, pred as int);
        }
        if t == 0 {
            proof {
                if self.spec_contains(key@) {
                    assert(self.has_node(key@));
                }
            }
            return None;
        }
        let tk = self.read_key(t);
        let c = self.comparator.compare(tk.as_slice(), key);
        proof {
            self.comparator.law_equal(self.key_at(t as int), key@);
        }
        if c == KeyOrd::Equal {
            assert(self.node_ok(t as int));
            let nd = self.nodes[t];
            if nd.dead {
                proof {
                    if self.spec_contains(key@) {
                        let w = choose|u: int|
                            1 <= u < self.node_count() && #[trigger] self.key_at(u) == key@
                                && !self.is_dead(u);
                        self.lemma_key_unique(w, t as int);
                    }
                }
                None
            } else {
                let v = self.arena.read(nd.val_off, nd.val_len);
                proof {
                    assert(self.spec_contains(key@));
                    assert(self.node_of(key@) == t as int);
                }
                Some(v)
            }
        } else {
            proof {
                if self.spec_contains(key@) {
                    assert(self.has_node(key@));
                }
            }
            None
        }
    }
}

/// A traversal cursor over a [`Skiplist`]: an independent position
/// that never mutates the list. It visits live entries only, in
/// strictly increasing key order, and never yields a key twice.
pub struct IterRef {
    cursor: usize,
}

impl IterRef {
    /// The cursor is either exhausted or parked on a live node of
    /// `list`. Mutating the list may tombstone the node under the
    /// cursor; re-seek afterwards.
    pub closed spec fn wf_for<C: KeyComparator, M: MemoryLimiter>(
        self,
        list: &Skiplist<C, M>,
    ) -> bool {
        self.cursor == 0 || (1 <= self.cursor as int && (self.cursor as int) < list.node_count()
            && !list.is_dead(self.cursor as int))
    }

    /// The cursor points at a live entry.
    pub closed spec fn spec_valid<C: KeyComparator, M: MemoryLimiter>(
        self,
        list: &Skiplist<C, M>,
    ) -> bool {
        self.wf_for(list) && self.cursor != 0
    }

    /// The key under the cursor.
    pub closed spec fn spec_key<C: KeyComparator, M: MemoryLimiter>(
        self,
        list: &Skiplist<C, M>,
    ) -> Seq<u8> {
        list.key_at(self.cursor as int)
    }

    /// Whether the cursor is on an entry.
    pub fn valid<C: KeyComparator, M: MemoryLimiter>(&self, list: &Skiplist<C, M>) -> (b: bool)
        requires
            self.wf_for(list),
        ensures
            b == self.spec_valid(list),
    {
        self.cursor != 0
    }

    /// Positions the cursor on the first live entry whose key is at
    /// or after `key`; past the end when every live key sorts below
    /// `key`.
    #[verifier::rlimit(100)]
    #[verifier::spinoff_prover]
    pub fn seek<C: KeyComparator, M: MemoryLimiter>(
        &mut self,
        list: &Skiplist<C, M>,
        key: &[u8],
    )
        requires
            list.wf(),
        ensures
            final(self).wf_for(list),
            final(self).spec_valid(list) ==> {
                &&& list.spec_contains(final(self).spec_key(list))
                &&& !list.spec_lt(final(self).spec_key(list), key@)
                &&& forall|k2: Seq<u8>|
                    #[trigger] list.spec_contains(k2) && !list.spec_lt(k2, key@)
                        ==> !list.spec_lt(k2, final(self).spec_key(list))
            },
            !final(self).spec_valid(list) ==> forall|k2: Seq<u8>|
                #[trigger] list.spec_contains(k2) ==> list.spec_lt(k2, key@),
    {
        let preds = list.find_splice(key);
        let pred = preds[0];
        let t = list.read_slot(pred, 0);
        proof {
            list.lemma_candidate_floor(key@, pred as int);
        }
        if t == 0 {
            self.cursor = 0;
            proof {
                assert forall|k2: Seq<u8>| #[trigger] list.spec_contains(k2) implies list.spec_lt(
                    k2,
                    key@,
                ) by {
                    let w = choose|u: int|
                        1 <= u < list.node_count() && #[trigger] list.key_at(u) == k2
                            && !list.is_dead(u);
                    assert(list.spec_lt(list.key_at(w), key@));
                }
            }
            return;
        }
        let c = list.first_live_at_or_after(t);
        self.cursor = c;
        proof {
            if c != 0 {
                assert(list.spec_contains(self.spec_key(list))) by {
                    assert(list.key_at(c as int) == self.spec_key(list));
                    assert(!list.is_dead(c as int));
                }
                assert(!list.spec_lt(list.key_at(c as int), key@)) by {
                    list.lemma_not_lt_ge(list.key_at(c as int), list.key_at(t as int));
                    list.lemma_not_lt_ge(list.key_at(t as int), key@);
                    if list.key_at(c as int) != list.key_at(t as int) && list.key_at(t as int)
                        != key@ {
                        list.comparator.law_trans(key@, list.key_at(t as int), list.key_at(
                            c as int,
                        ));
                        list.lemma_asym(key@, list.key_at(c as int));
                    } else if list.key_at(t as int) == key@ {
                        if list.key_at(c as int) != list.key_at(t as int) {
                            list.lemma_asym(key@, list.key_at(c as int));
                        } else {
                            list.lemma_irrefl(key@);
                        }
                    }
                }
                assert forall|k2: Seq<u8>|
                    #[trigger] list.spec_contains(k2) && !list.spec_lt(k2, key@) implies !list.spec_lt(
                    k2,
                    self.spec_key(list),
                ) by {
                    let w = choose|u: int|
                        1 <= u < list.node_count() && #[trigger] list.key_at(u) == k2
                            && !list.is_dead(u);
                    assert(!list.spec_lt(list.key_at(w), list.key_at(t as int)));
                    assert(!list.spec_lt(list.key_at(w), list.key_at(c as int)));
                }
            } else {
                assert forall|k2: Seq<u8>| #[trigger] list.spec_contains(k2) implies list.spec_lt(
                    k2,
                    key@,
                ) by {
                    let w = choose|u: int|
                        1 <= u < list.node_count() && #[trigger] list.key_at(u) == k2
                            && !list.is_dead(u);
                    if !list.spec_lt(list.key_at(w), key@) {
                        assert(!list.spec_lt(list.key_at(w), list.key_at(t as int)));
                        assert(list.spec_lt(list.key_at(w), list.key_at(t as int)));
                    }
                }
            }
        }
    }

    /// Positions the cursor on the first live entry of the list; past
    /// the end when the list holds no live entry.
    #[verifier::rlimit(100)]
    #[verifier::spinoff_prover]
    pub fn seek_to_first<C: KeyComparator, M: MemoryLimiter>(&mut self, list: &Skiplist<C, M>)
        requires
            list.wf(),
        ensures
            final(self).wf_for(list),
            final(self).spec_valid(list) ==> {
                &&& list.spec_contains(final(self).spec_key(list))
                &&& forall|k2: Seq<u8>|
                    #[trigger] list.spec_contains(k2) ==> !list.spec_lt(
                        k2,
                        final(self).spec_key(list),
                    )
            },
            !final(self).spec_valid(list) ==> forall|k2: Seq<u8>| !list.spec_contains(k2),
    {
        let t = list.read_slot(0, 0);
        proof {
            if t != 0 {
                list.lemma_pos_unique(0, t as int);
            }
        }
        if t == 0 {
            self.cursor = 0;
            proof {
                assert forall|k2: Seq<u8>| !list.spec_contains(k2) by {
                    if list.spec_contains(k2) {
                        let w = choose|u: int|
                            1 <= u < list.node_count() && #[trigger] list.key_at(u) == k2
                                && !list.is_dead(u);
                        list.lemma_pos(w);
                    }
                }
            }
            return;
        }
        let c = list.first_live_at_or_after(t);
        self.cursor = c;
        proof {
            assert forall|w: int|
                1 <= w < list.node_count() && !list.is_dead(w) implies !list.spec_lt(
                #[trigger] list.key_at(w),
                list.key_at(t as int),
            ) by {
                list.lemma_pos(w);
                let jw = list.pos_of(w);
                if jw == 0 {
                    assert(w == t as int);
                    list.lemma_irrefl(list.key_at(w));
                } else {
                    assert(list.spec_lt(
                        list.key_at(list.chain@[0] as int),
                        list.key_at(list.chain@[jw] as int),
                    ));
                    list.lemma_asym(list.key_at(t as int), list.key_at(w));
                }
            }
            if c != 0 {
                assert forall|k2: Seq<u8>| #[trigger] list.spec_contains(k2) implies !list.spec_lt(
                    k2,
                    self.spec_key(list),
                ) by {
                    let w = choose|u: int|
                        1 <= u < list.node_count() && #[trigger] list.key_at(u) == k2
                            && !list.is_dead(u);
                    assert(!list.spec_lt(list.key_at(w), list.key_at(c as int)));
                }
            } else {
                assert forall|k2: Seq<u8>| !list.spec_contains(k2) by {
                    if list.spec_contains(k2) {
                        let w = choose|u: int|
                            1 <= u < list.node_count() && #[trigger] list.key_at(u) == k2
                                && !list.is_dead(u);
                        assert(list.spec_lt(list.key_at(w), list.key_at(t as int)));
                    }
                }
            }
        }
    }

    /// Advances to the next live entry in key order; past the end
    /// when none is left. The sequence of keys a cursor yields is
    /// strictly increasing per the comparator, so no key is ever
    /// yielded twice.
    #[verifier::rlimit(100)]
    #[verifier::spinoff_prover]
    pub fn next<C: KeyComparator, M: MemoryLimiter>(&mut self, list: &Skiplist<C, M>)
        requires
            list.wf(),
            old(self).wf_for(list),
            old(self).spec_valid(list),
        ensures
            final(self).wf_for(list),
            final(self).spec_valid(list) ==> {
                &&& list.spec_contains(final(self).spec_key(list))
                &&& list.spec_lt(old(self).spec_key(list), final(self).spec_key(list))
                &&& forall|k2: Seq<u8>|
                    #[trigger] list.spec_contains(k2) && list.spec_lt(
                        old(self).spec_key(list),
                        k2,
                    ) ==> !list.spec_lt(k2, final(self).spec_key(list))
            },
            !final(self).spec_valid(list) ==> forall|k2: Seq<u8>|
                #[trigger] list.spec_contains(k2) ==> !list.spec_lt(old(self).spec_key(list), k2),
    {
        let cur = self.cursor;
        proof {
            assert(list.node_ok(cur as int));
        }
        let s = list.read_slot(cur, 0);
        proof {
            list.lemma_chain_step(cur as int);
            assert(list.link_ok(cur as int, 0));
        }
        if s == 0 {
            self.cursor = 0;
            proof {
                assert forall|k2: Seq<u8>| #[trigger] list.spec_contains(k2) implies !list.spec_lt(
                    old(self).spec_key(list),
                    k2,
                ) by {
                    let w = choose|u: int|
                        1 <= u < list.node_count() && #[trigger] list.key_at(u) == k2
                            && !list.is_dead(u);
                    if w == cur as int {
                        list.lemma_irrefl(list.key_at(w));
                    } else {
                        assert(list.spec_lt(list.key_at(w), list.key_at(cur as int)));
                        list.lemma_asym(list.key_at(w), list.key_at(cur as int));
                    }
                }
            }
            return;
        }
        let c = list.first_live_at_or_after(s);
        self.cursor = c;
        proof {
            assert(list.spec_lt(list.key_at(cur as int), list.key_at(s as int)));
            assert forall|w: int|
                1 <= w < list.node_count() && !list.is_dead(w) && list.spec_lt(
                    list.key_at(cur as int),
                    #[trigger] list.key_at(w),
                ) implies !list.spec_lt(list.key_at(w), list.key_at(s as int)) by {
                if w == cur as int {
                    list.lemma_irrefl(list.key_at(w));
                } else {
                    list.lemma_asym(list.key_at(cur as int), list.key_at(w));
                    if list.spec_lt(list.key_at(w), list.key_at(s as int)) {
                        assert(list.spec_lt(list.key_at(w), list.key_at(cur as int)));
                    }
                }
            }
            if c != 0 {
                assert(list.spec_contains(self.spec_key(list))) by {
                    assert(list.key_at(c as int) == self.spec_key(list));
                    assert(!list.is_dead(c as int));
                }
                assert(list.spec_lt(list.key_at(cur as int), list.key_at(c as int))) by {
                    list.lemma_not_lt_ge(list.key_at(c as int), list.key_at(s as int));
                    if list.key_at(c as int) != list.key_at(s as int) {
                        list.comparator.law_trans(
                            list.key_at(cur as int),
                            list.key_at(s as int),
                            list.key_at(c as int),
                        );
                    }
                }
                assert forall|k2: Seq<u8>|
                    #[trigger] list.spec_contains(k2) && list.spec_lt(
                        old(self).spec_key(list),
                        k2,
                    ) implies !list.spec_lt(k2, self.spec_key(list)) by {
                    let w = choose|u: int|
                        1 <= u < list.node_count() && #[trigger] list.key_at(u) == k2
                            && !list.is_dead(u);
                    assert(!list.spec_lt(list.key_at(w), list.key_at(s as int)));
                    assert(!list.spec_lt(list.key_at(w), list.key_at(c as int)));
                }
            } else {
                assert forall|k2: Seq<u8>| #[trigger] list.spec_contains(k2) implies !list.spec_lt(
                    old(self).spec_key(list),
                    k2,
                ) by {
                    let w = choose|u: int|
                        1 <= u < list.node_count() && #[trigger] list.key_at(u) == k2
                            && !list.is_dead(u);
                    if list.spec_lt(list.key_at(cur as int), list.key_at(w)) {
                        assert(!list.spec_lt(list.key_at(w), list.key_at(s as int)));
                        assert(list.spec_lt(list.key_at(w), list.key_at(s as int)));
                    }
                }
            }
        }
    }

    /// The key under the cursor; it is a live entry of the list.
    pub fn key<C: KeyComparator, M: MemoryLimiter>(&self, list: &Skiplist<C, M>) -> (r: Vec<u8>)
        requires
            list.wf(),
            self.wf_for(list),
            self.spec_valid(list),
        ensures
            r@ == self.spec_key(list),
            list.spec_contains(r@),
    {
        let r = list.read_key(self.cursor);
        proof {
            assert(list.spec_contains(r@)) by {
                assert(list.key_at(self.cursor as int) == r@);
                assert(!list.is_dead(self.cursor as int));
            }
        }
        r
    }

    /// The value under the cursor: exactly the stored value of the
    /// key under the cursor.
    pub fn value<C: KeyComparator, M: MemoryLimiter>(&self, list: &Skiplist<C, M>) -> (r: Vec<u8>)
        requires
            list.wf(),
            self.wf_for(list),
            self.spec_valid(list),
        ensures
            r@ == list.spec_value(self.spec_key(list)),
    {
        assert(list.node_ok(self.cursor as int));
        let nd = list.nodes[self.cursor];
        let r = list.arena.read(nd.val_off, nd.val_len);
        proof {
            let k = self.spec_key(list);
            assert(list.has_node(k)) by {
                assert(list.key_at(self.cursor as int) == k);
            }
            let w = list.node_of(k);
            list.lemma_key_unique(w, self.cursor as int);
        }
        r
    }
}

} // verus!
