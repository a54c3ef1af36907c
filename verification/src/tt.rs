//! Transposition table: a bounded map from position keys to scored entries
//! with bound flags, evicting the oldest half of its entries when full.

use std::collections::HashMap;

use vstd::prelude::*;

use crate::board::BoardState;
use crate::board::board_wf;
use crate::fingerprint::board_key;
use crate::fingerprint::fingerprint;
use crate::fingerprint::spec_board_key;
use crate::fingerprint::spec_fingerprint;
use crate::moves::Move;

verus! {

broadcast use vstd::std_specs::hash::group_hash_axioms;

/// Bound flag of a stored score: exact value, lower bound (fail high), or
/// upper bound (fail low).
#[derive(Debug, Clone, Copy, PartialEq, Eq, Structural)]
pub enum TTEntryType {
    Exact,
    Lower,
    Upper,
}

/// Transposition table entry.
#[derive(Debug, Clone, Copy, PartialEq, Eq)]
pub struct TTEntry {
    pub score: i32,
    pub depth: i32,
    pub entry_type: TTEntryType,
    pub best_move: Option<Move>,
}

/// Entries kept after making room: when the table is at capacity, the
/// oldest half of the keys (by insertion order) is dropped.
pub open spec fn evicted_entries(
    entries: Map<u64, TTEntry>,
    order: Seq<u64>,
    cap: int,
) -> Map<u64, TTEntry> {
    if order.len() >= cap {
        entries.remove_keys(order.take(cap / 2).to_set())
    } else {
        entries
    }
}

/// Insertion order kept after making room.
pub open spec fn evicted_order(order: Seq<u64>, cap: int) -> Seq<u64> {
    if order.len() >= cap {
        order.skip(cap / 2)
    } else {
        order
    }
}

/// A store happens only when the key is new or the incoming depth is at
/// least the recorded depth.
pub open spec fn store_takes(
    entries: Map<u64, TTEntry>,
    order: Seq<u64>,
    cap: int,
    k: u64,
    depth: int,
) -> bool {
    let kept = evicted_entries(entries, order, cap);
    !kept.contains_key(k) || kept[k].depth <= depth
}

/// The entry map after a store.
pub open spec fn spec_store_entries(
    entries: Map<u64, TTEntry>,
    order: Seq<u64>,
    cap: int,
    k: u64,
    e: TTEntry,
) -> Map<u64, TTEntry> {
    let kept = evicted_entries(entries, order, cap);
    if store_takes(entries, order, cap, k, e.depth as int) {
        kept.insert(k, e)
    } else {
        kept
    }
}

/// The insertion order after a store.
pub open spec fn spec_store_order(
    entries: Map<u64, TTEntry>,
    order: Seq<u64>,
    cap: int,
    k: u64,
    e: TTEntry,
) -> Seq<u64> {
    let kept = evicted_entries(entries, order, cap);
    let korder = evicted_order(order, cap);
    if store_takes(entries, order, cap, k, e.depth as int) && !kept.contains_key(k) {
        korder.push(k)
    } else {
        korder
    }
}

/// What a probe of the entry map returns.
pub open spec fn spec_probe(entries: Map<u64, TTEntry>, k: u64) -> Option<TTEntry> {
    if entries.contains_key(k) {
        Some(entries[k])
    } else {
        None
    }
}

/// Storing an entry and probing the same key returns exactly the stored
/// score, depth, and bound, whenever the store takes (the key is new after
/// eviction or the incoming depth is at least the recorded one).
pub proof fn lemma_store_then_probe(
    entries: Map<u64, TTEntry>,
    order: Seq<u64>,
    cap: int,
    k: u64,
    e: TTEntry,
)
    requires
        store_takes(entries, order, cap, k, e.depth as int),
    ensures
        spec_probe(spec_store_entries(entries, order, cap, k, e), k) == Some(e),
{
}

/// Transposition table: caches position evaluations under 64-bit position
/// keys, with insertion order tracked for eviction.
#[derive(Debug)]
pub struct TranspositionTable {
    table: HashMap<u64, TTEntry>,
    order: Vec<u64>,
    max_size: usize,
}

impl TranspositionTable {
    /// The current entries.
    pub closed spec fn entries(&self) -> Map<u64, TTEntry> {
        self.table@
    }

    /// The keys in insertion order.
    pub closed spec fn key_order(&self) -> Seq<u64> {
        self.order@
    }

    /// The configured maximum entry count.
    pub closed spec fn capacity(&self) -> int {
        self.max_size as int
    }

    /// Internal consistency: the tracked order holds each key exactly once.
    pub closed spec fn wf(&self) -> bool {
        &&& forall|i: int, j: int|
            0 <= i < j < self.order@.len() ==> self.order@[i] != self.order@[j]
        &&& forall|k: u64| self.table@.contains_key(k) <==> #[trigger] self.order@.contains(k)
    }

    /// Create a new transposition table with the given maximum size.
    pub fn new(max_size: usize) -> (tt: Self)
        ensures
            tt.wf(),
            tt.entries() == Map::<u64, TTEntry>::empty(),
            tt.key_order() == Seq::<u64>::empty(),
            tt.capacity() == max_size,
    {
        let tt = TranspositionTable { table: HashMap::new(), order: Vec::new(), max_size };
        proof {
            assert(tt.entries() =~= Map::<u64, TTEntry>::empty());
            assert(tt.key_order() =~= Seq::<u64>::empty());
        }
        tt
    }

    /// The canonical fingerprint string of a board position.
    pub fn generate_hash(board: &BoardState) -> (s: String)
        requires
            board_wf(board@),
        ensures
            s@ == spec_fingerprint(board@),
    {
        fingerprint(board)
    }

    /// Store a position's entry. When the table is full, the oldest half of
    /// the entries is evicted first; an existing deeper entry for the same
    /// key is kept.
    #[verifier::rlimit(100)]
    pub fn store(
        &mut self,
        board: &BoardState,
        depth: i32,
        score: i32,
        entry_type: TTEntryType,
        best_move: Option<Move>,
    )
        requires
            old(self).wf(),
            board_wf(board@),
        ensures
            final(self).wf(),
            final(self).capacity() == old(self).capacity(),
            final(self).entries() == spec_store_entries(
                old(self).entries(),
                old(self).key_order(),
                old(self).capacity(),
                spec_board_key(board@),
                TTEntry { score, depth, entry_type, best_move },
            ),
            final(self).key_order() == spec_store_order(
                old(self).entries(),
                old(self).key_order(),
                old(self).capacity(),
                spec_board_key(board@),
                TTEntry { score, depth, entry_type, best_move },
            ),
    {
        let ghost entries0 = self.table@;
        let ghost order0 = self.order@;
        let ghost cap = self.max_size as int;
        // Make room: drop the oldest half of the entries when full.
        if self.order.len() >= self.max_size {
            let half = self.max_size / 2;
            let mut j: usize = 0;
            proof {
                assert(entries0.remove_keys(order0.take(0).to_set()) =~= entries0) by {
                    assert(order0.take(0).to_set() =~= Set::<u64>::empty());
                }
            }
            while j < half
                invariant
                    j <= half <= order0.len(),
                    self.order@ == order0,
                    self.max_size as int == cap,
                    self.table@ == entries0.remove_keys(order0.take(j as int).to_set()),
                decreases half - j,
            {
                let key = self.order[j];
                self.table.remove(&key);
                proof {
                    assert(self.table@ =~= entries0.remove_keys(
                        order0.take(j + 1 as int).to_set(),
                    )) by {
                        assert forall|x: u64|
                            order0.take(j + 1 as int).to_set().contains(x)
                                <==> order0.take(j as int).to_set().contains(x) || x == key by {
                            if order0.take(j + 1 as int).contains(x) {
                                let t = choose|t: int|
                                    0 <= t < j + 1 && #[trigger] order0.take(j + 1 as int)[t]
                                        == x;
                                if t < j {
                                    assert(order0.take(j as int)[t] == x);
                                }
                            }
                            if order0.take(j as int).contains(x) {
                                let t = choose|t: int|
                                    0 <= t < j && #[trigger] order0.take(j as int)[t] == x;
                                assert(order0.take(j + 1 as int)[t] == x);
                            }
                            if x == key {
                                assert(order0.take(j + 1 as int)[j as int] == x);
                            }
                        }
                    }
                }
                j = j + 1;
            }
            // Keep only the newer half of the insertion order.
            let mut new_order: Vec<u64> = Vec::new();
            let mut t: usize = half;
            let total = self.order.len();
            while t < total
                invariant
                    half <= t <= total == order0.len(),
                    self.order@ == order0,
                    new_order@ == order0.subrange(half as int, t as int),
                decreases total - t,
            {
                let key = self.order[t];
                new_order.push(key);
                proof {
                    assert(new_order@ =~= order0.subrange(half as int, t + 1 as int));
                }
                t = t + 1;
            }
            self.order = new_order;
            proof {
                assert(self.order@ =~= evicted_order(order0, cap));
                assert(self.table@ =~= evicted_entries(entries0, order0, cap));
                // Internal consistency survives eviction.
                assert forall|k: u64|
                    self.table@.contains_key(k) <==> #[trigger] self.order@.contains(k) by {
                    if self.table@.contains_key(k) {
                        assert(entries0.contains_key(k));
                        assert(order0.contains(k));
                        let t0 = choose|t0: int|
                            0 <= t0 < order0.len() && #[trigger] order0[t0] == k;
                        assert(!order0.take(cap / 2).to_set().contains(k));
                        if t0 < cap / 2 {
                            assert(order0.take(cap / 2)[t0] == k);
                        }
                        assert(t0 >= cap / 2);
                        assert(self.order@[t0 - cap / 2] == k);
                    }
                    if self.order@.contains(k) {
                        let t1 = choose|t1: int|
                            0 <= t1 < self.order@.len() && #[trigger] self.order@[t1] == k;
                        assert(order0[t1 + cap / 2] == k);
                        assert(order0.contains(k)) by {
                            assert(order0[t1 + cap / 2] == k);
                        }
                        assert(entries0.contains_key(k));
                        if order0.take(cap / 2).to_set().contains(k) {
                            let t2 = choose|t2: int|
                                0 <= t2 < cap / 2 && #[trigger] order0.take(cap / 2)[t2] == k;
                            assert(order0[t2] == k);
                            assert(t2 < t1 + cap / 2);
                        }
                    }
                }
                assert forall|x: int, y: int|
                    0 <= x < y < self.order@.len() implies self.order@[x] != self.order@[y] by {
                    assert(self.order@[x] == order0[x + cap / 2]);
                    assert(self.order@[y] == order0[y + cap / 2]);
                }
            }
        }
        let ghost kept = evicted_entries(entries0, order0, cap);
        let ghost korder = evicted_order(order0, cap);
        proof {
            assert(self.table@ == kept);
            assert(self.order@ == korder);
        }
        let hash = board_key(board);
        let entry = TTEntry { score, depth, entry_type, best_move };
        // Only replace when the new entry has at least the recorded depth.
        let existing_depth: Option<i32> = match self.table.get(&hash) {
            Some(e) => Some(e.depth),
            None => None,
        };
        match existing_depth {
            None => {
                self.table.insert(hash, entry);
                self.order.push(hash);
                proof {
                    assert forall|i: int|
                        0 <= i < korder.len() implies #[trigger] korder[i] != hash by {
                        if korder[i] == hash {
                            assert(korder.contains(hash));
                        }
                    }
                    assert forall|k: u64|
                        self.table@.contains_key(k) <==> #[trigger] self.order@.contains(k) by {
                        if self.table@.contains_key(k) {
                            if k == hash {
                                assert(self.order@[self.order@.len() - 1] == k);
                            } else {
                                assert(kept.contains_key(k));
                                assert(korder.contains(k));
                                let t0 = choose|t0: int|
                                    0 <= t0 < korder.len() && #[trigger] korder[t0] == k;
                                assert(self.order@[t0] == k);
                            }
                        }
                        if self.order@.contains(k) {
                            let t1 = choose|t1: int|
                                0 <= t1 < self.order@.len() && #[trigger] self.order@[t1] == k;
                            if t1 < korder.len() {
                                assert(korder[t1] == k);
                                assert(korder.contains(k));
                                assert(kept.contains_key(k));
                                assert(self.table@.contains_key(k));
                            } else {
                                assert(self.order@[t1] == hash);
                                assert(self.table@.contains_key(k));
                            }
                        }
                    }
                }
            },
            Some(d) => {
                if d <= depth {
                    self.table.insert(hash, entry);
                    proof {
                        assert forall|k: u64|
                            self.table@.contains_key(k) <==> #[trigger] self.order@.contains(
                                k,
                            ) by {
                            if k != hash && self.table@.contains_key(k) {
                                assert(kept.contains_key(k));
                            }
                            if k == hash && self.table@.contains_key(k) {
                                assert(kept.contains_key(hash));
                                assert(korder.contains(hash));
                            }
                            if self.order@.contains(k) {
                                assert(kept.contains_key(k));
                                assert(self.table@.contains_key(k));
                            }
                        }
                    }
                }
            },
        }
    }

    /// Probe the table for a position's entry.
    pub fn probe(&self, board: &BoardState) -> (r: Option<TTEntry>)
        requires
            self.wf(),
            board_wf(board@),
        ensures
            r == spec_probe(self.entries(), spec_board_key(board@)),
    {
        let hash = board_key(board);
        match self.table.get(&hash) {
            Some(e) => Some(*e),
            None => None,
        }
    }

    /// Empty the table.
    pub fn clear(&mut self)
        requires
            old(self).wf(),
        ensures
            final(self).wf(),
            final(self).entries() == Map::<u64, TTEntry>::empty(),
            final(self).key_order() == Seq::<u64>::empty(),
            final(self).capacity() == old(self).capacity(),
    {
        self.table.clear();
        self.order.clear();
        proof {
            assert(self.entries() =~= Map::<u64, TTEntry>::empty());
            assert(self.key_order() =~= Seq::<u64>::empty());
        }
    }

    /// Number of stored entries.
    pub fn size(&self) -> (n: usize)
        requires
            self.wf(),
        ensures
            n == self.key_order().len(),
    {
        self.order.len()
    }
}

impl Default for TranspositionTable {
    /// The default table holds up to 100000 entries.
    fn default() -> (tt: Self)
        ensures
            tt.wf(),
            tt.entries() == Map::<u64, TTEntry>::empty(),
            tt.key_order() == Seq::<u64>::empty(),
            tt.capacity() == 100000,
    {
        TranspositionTable::new(100000)
    }
}

} // verus!
