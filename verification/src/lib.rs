//! A consistent-hashing ring with virtual nodes.
//!
//! A ring maps arbitrary hashable keys to a dynamic set of logical nodes so
//! that each key always resolves to the same node while the node set is
//! unchanged, and adding or removing a node only remaps a small share of the
//! keys. Each node is inserted with a weight: the number of virtual nodes —
//! ring positions — standing for it.
//!
//! A key is served by the node owning the first ring position at or above
//! the key's digest, wrapping around to the smallest position; that single
//! successor rule is the whole placement policy. Digest collisions are never
//! errors: candidate positions of one node are deduplicated, and across
//! nodes the later write wins, so a node's effective weight can come out
//! below the weight asked for.
//!
//! The ring is a pure, synchronous, in-memory structure: no I/O, no
//! networking, and a single-threaded contract — wrap it in a lock to share
//! it. The position bookkeeping is the verified [`table::RingTable`];
//! hashing goes through the caller-chosen build-hasher capability, which
//! must be deterministic and stable across calls within one ring.

use vstd::prelude::*;

mod digest;
pub mod hashring;
pub mod laws;
pub mod table;

use core::hash::BuildHasher;
use core::hash::BuildHasherDefault;
use core::hash::Hash;
use std::collections::hash_map::DefaultHasher;

use crate::table::installed;
use crate::table::probe_removed;
use crate::table::RingTable;

verus! {

/// A hash ring for consistent hashing, generic over the node type `N` and
/// the build-hasher capability `B`.
pub struct HashRing<N, B> {
    table: RingTable<N>,
    hash_builder: B,
}

/// What one insertion of `node` with requested `weight` does to the ring's
/// table: the node's candidate positions are deduplicated into `cand`; the
/// record found at the node's probe position `cand[0]`, if any, is removed
/// first — its node value handed back as `prev` when it falls entirely —
/// and a fresh record then takes every position in `cand`.
pub open spec fn inserted<N>(
    pre: RingTable<N>,
    post: RingTable<N>,
    node: N,
    weight: u64,
    cand: Seq<u64>,
    prev: Option<N>,
) -> bool {
    &&& 1 <= cand.len() <= weight
    &&& cand.no_duplicates()
    &&& exists|mid: RingTable<N>, rid: usize, evicted: u64|
        #![trigger probe_removed(pre, mid, cand[0], prev, evicted), installed(
            mid,
            post,
            node,
            cand.len() as u64,
            cand,
            rid,
        )]
        probe_removed(pre, mid, cand[0], prev, evicted) && installed(
            mid,
            post,
            node,
            cand.len() as u64,
            cand,
            rid,
        )
}

impl<N, B> HashRing<N, B> {
    /// The verified position table the ring's contracts speak about.
    pub closed spec fn ring_table(self) -> RingTable<N> {
        self.table
    }

    /// The ring's hash capability.
    pub closed spec fn capability(self) -> B {
        self.hash_builder
    }

    /// The ring's well-formedness: that of its position table.
    pub open spec fn well_formed(self) -> bool {
        self.ring_table().well_formed()
    }
}

impl<N> HashRing<N, BuildHasherDefault<DefaultHasher>> {
    /// Creates an empty `HashRing` using the default hasher.
    pub fn new() -> (ring: Self)
        ensures
            ring.well_formed(),
            ring.ring_table().position_count() == 0,
            ring.ring_table().arena().len() == 0,
    {
        HashRing { table: RingTable::new(), hash_builder: digest::default_build_hasher() }
    }
}

impl<N> Default for HashRing<N, BuildHasherDefault<DefaultHasher>> {
    /// An empty `HashRing` using the default hasher.
    fn default() -> (ring: Self)
        ensures
            ring.well_formed(),
            ring.ring_table().position_count() == 0,
            ring.ring_table().arena().len() == 0,
    {
        HashRing { table: RingTable::new(), hash_builder: digest::default_build_hasher() }
    }
}

impl<N, B> HashRing<N, B> where N: Hash, B: BuildHasher {
    /// Creates an empty `HashRing` which will use the given `hash_builder`
    /// to hash nodes and keys.
    pub fn with_hasher(hash_builder: B) -> (ring: Self)
        ensures
            ring.well_formed(),
            ring.ring_table().position_count() == 0,
            ring.ring_table().arena().len() == 0,
            ring.capability() == hash_builder,
    {
        HashRing { table: RingTable::new(), hash_builder }
    }

    /// A reference to the ring's build hasher.
    pub fn hasher(&self) -> (r: &B)
        ensures
            *r == self.capability(),
    {
        &self.hash_builder
    }

    /// The candidate ring positions of `node`: the digest of `(node, i)` for
    /// each virtual-node index `i` below `weight`.
    fn compute_virtual_node_hashes(&self, node: &N, weight: u64) -> (r: Vec<u64>)
        ensures
            r@.len() == weight,
    {
        let mut hashes: Vec<u64> = Vec::new();
        let mut i: u64 = 0;
        while i < weight
            invariant
                i <= weight,
                hashes@.len() == i,
            decreases weight - i,
        {
            hashes.push(digest::vnode_digest(&self.hash_builder, node, i));
            i = i + 1;
        }
        hashes
    }

    /// Inserts a node with `weight` virtual nodes.
    ///
    /// A zero weight is a deliberate no-op. Digest collisions among the
    /// node's own candidates shrink its effective weight; a candidate
    /// already held by another node is overwritten, the later writer
    /// winning. When the node's probe position is already held, the record
    /// there is removed first and its node value returned, so re-inserting
    /// a node replaces it and hands the previous value back.
    pub fn insert(&mut self, node: N, weight: u64) -> (prev: Option<N>)
        requires
            old(self).well_formed(),
        ensures
            final(self).well_formed(),
            final(self).capability() == old(self).capability(),
            weight == 0 ==> prev is None && *final(self) == *old(self),
            weight >= 1 ==> exists|cand: Seq<u64>|
                #[trigger] inserted(
                    old(self).ring_table(),
                    final(self).ring_table(),
                    node,
                    weight,
                    cand,
                    prev,
                ),
    {
        if weight == 0 {
            return None;
        }
        let raw = self.compute_virtual_node_hashes(&node, weight);
        let cand = dedup_positions(&raw);
        let (prev, evicted) = self.remove_inner(cand[0]);
        let ghost mid = self.table;
        let rid = self.table.install(node, cand.len() as u64, &cand);
        proof {
            assert(probe_removed(old(self).ring_table(), mid, cand@[0], prev, evicted));
            assert(inserted(
                old(self).ring_table(),
                self.ring_table(),
                node,
                weight,
                cand@,
                prev,
            ));
        }
        prev
    }

    /// Returns a reference to the node owning the key: the node at the
    /// first ring position at or above the key's digest, wrapping around to
    /// the smallest position. `None` exactly on an empty ring.
    #[inline]
    pub fn get<K: Hash>(&self, key: K) -> (r: Option<&N>)
        requires
            self.well_formed(),
        ensures
            r is None <==> self.ring_table().position_count() == 0,
            self.ring_table().position_count() > 0 ==> (r matches Some(n) && exists|d: u64|
                *n == #[trigger] self.ring_table().owner_node(d)),
    {
        let d = digest::key_digest(&self.hash_builder, &key);
        let r = self.table.lookup(d);
        proof {
            if self.ring_table().position_count() > 0 {
                assert(*r->Some_0 == self.ring_table().owner_node(d));
            }
        }
        r
    }

    /// The number of distinct nodes in the ring — not the number of virtual
    /// nodes.
    pub fn len(&self) -> (n: usize)
        requires
            self.well_formed(),
        ensures
            n == self.ring_table().record_count(),
    {
        self.table.num_records()
    }

    /// The number of virtual nodes (ring positions) currently stored.
    pub fn virtual_node_count(&self) -> (n: usize)
        ensures
            n == self.ring_table().position_count(),
    {
        self.table.num_positions()
    }

    /// Whether the ring holds no node at all.
    pub fn is_empty(&self) -> (r: bool)
        ensures
            r <==> self.ring_table().position_count() == 0,
    {
        self.table.is_empty()
    }

    /// Whether the ring contains the node, judged — as removal does — by
    /// the node's probe position being stored.
    pub fn contains_node(&self, node: &N) -> (r: bool)
        requires
            self.well_formed(),
        ensures
            self.ring_table().position_count() == 0 ==> r == false,
            exists|d: u64| r == self.ring_table().pos_map().contains_key(d),
    {
        let r = self.get_master_node(node).is_some();
        r
    }

    /// The record the node's probe position points at, if any.
    fn get_master_node(&self, node: &N) -> (r: Option<usize>)
        requires
            self.well_formed(),
        ensures
            exists|d: u64|
                match r {
                    Some(rid) => #[trigger] self.ring_table().pos_map().contains_key(d)
                        && self.ring_table().pos_map()[d] == rid && self.ring_table().live(
                        rid as int,
                    ),
                    None => !self.ring_table().pos_map().contains_key(d),
                },
            r is Some ==> self.ring_table().position_count() > 0,
    {
        let probe = digest::vnode_digest(&self.hash_builder, node, 0);
        let r = self.table.record_at(probe);
        proof {
            if r is Some {
                table::lemma_entries_map_contains(self.ring_table().entries(), probe);
            }
        }
        r
    }

    /// Removes a node, returning how many virtual nodes (its effective
    /// weight) were removed — zero when the node is absent, which is an
    /// idempotent no-op.
    pub fn remove(&mut self, node: &N) -> (removed: u64)
        requires
            old(self).well_formed(),
        ensures
            final(self).well_formed(),
            final(self).capability() == old(self).capability(),
            exists|probe: u64, reclaimed: Option<N>|
                #[trigger] probe_removed(
                    old(self).ring_table(),
                    final(self).ring_table(),
                    probe,
                    reclaimed,
                    removed,
                ),
            removed == 0 ==> final(self).ring_table().pos_map() == old(
                self,
            ).ring_table().pos_map() && final(self).ring_table().arena() == old(
                self,
            ).ring_table().arena(),
    {
        let probe = digest::vnode_digest(&self.hash_builder, node, 0);
        let (_reclaimed, removed) = self.remove_inner(probe);
        removed
    }

    /// Removes whatever record holds the probe position: recomputes its
    /// candidate positions at its stored weight and clears those still
    /// pointing at it, reclaiming the node value when the record falls
    /// entirely. Does nothing when the probe position is absent.
    fn remove_inner(&mut self, probe: u64) -> (res: (Option<N>, u64))
        requires
            old(self).well_formed(),
        ensures
            final(self).well_formed(),
            final(self).capability() == old(self).capability(),
            probe_removed(
                old(self).ring_table(),
                final(self).ring_table(),
                probe,
                res.0,
                res.1,
            ),
            res.1 == 0 ==> final(self).ring_table().pos_map() == old(
                self,
            ).ring_table().pos_map() && final(self).ring_table().arena() == old(
                self,
            ).ring_table().arena() && res.0 is None,
    {
        match self.table.record_at(probe) {
            Some(rid) => {
                let stored_weight = self.table.weight_of(rid);
                let mut cand: Vec<u64> = Vec::new();
                let mut i: u64 = 0;
                while i < stored_weight
                    invariant
                        i <= stored_weight,
                        cand@.len() == i,
                        self.well_formed(),
                        self.ring_table().live(rid as int),
                    decreases stored_weight - i,
                {
                    cand.push(digest::vnode_digest(&self.hash_builder, self.table.node_of(rid), i));
                    i = i + 1;
                }
                let (count, reclaimed) = self.table.remove_positions(rid, &cand);
                proof {
                    if count == 0 {
                        crate::laws::lemma_zero_removed_changes_nothing(
                            old(self).ring_table(),
                            self.ring_table(),
                            probe,
                            reclaimed,
                        );
                    }
                }
                (reclaimed, count)
            },
            None => (None, 0),
        }
    }
}

/// Keeps the first occurrence of each position, in order: the deduplicated
/// candidate set of one node.
fn dedup_positions(xs: &Vec<u64>) -> (r: Vec<u64>)
    ensures
        r@.no_duplicates(),
        forall|q: u64| #[trigger] r@.contains(q) <==> xs@.contains(q),
        r@.len() <= xs@.len(),
        xs@.len() >= 1 ==> r@.len() >= 1 && r@[0] == xs@[0],
{
    let mut out: Vec<u64> = Vec::new();
    let mut k: usize = 0;
    while k < xs.len()
        invariant
            k <= xs@.len(),
            out@.no_duplicates(),
            forall|q: u64| #[trigger] out@.contains(q) <==> xs@.take(k as int).contains(q),
            out@.len() <= k,
            k >= 1 ==> out@.len() >= 1 && out@[0] == xs@[0],
        decreases xs@.len() - k,
    {
        let x = xs[k];
        let mut seen = false;
        let mut j: usize = 0;
        while j < out.len()
            invariant
                j <= out@.len(),
                seen <==> exists|m: int| 0 <= m < j && out@[m] == x,
            decreases out@.len() - j,
        {
            if out[j] == x {
                seen = true;
            }
            j = j + 1;
        }
        proof {
            assert(seen <==> out@.contains(x));
            assert(xs@.take(k as int + 1) =~= xs@.take(k as int).push(xs@[k as int]));
        }
        if !seen {
            let ghost out_before = out@;
            out.push(x);
            proof {
                assert forall|q: u64| #[trigger]
                    out@.contains(q) <==> xs@.take(k as int + 1).contains(q) by {
                    table::lemma_push_contains(out_before, x, q);
                    table::lemma_push_contains(xs@.take(k as int), x, q);
                }
                assert forall|m: int, n: int| 0 <= m < n < out@.len() implies out@[m]
                    != out@[n] by {
                    if n == out@.len() - 1 {
                        assert(out_before.contains(out_before[m]));
                    }
                }
            }
        } else {
            proof {
                assert forall|q: u64| #[trigger]
                    out@.contains(q) <==> xs@.take(k as int + 1).contains(q) by {
                    table::lemma_push_contains(xs@.take(k as int), x, q);
                }
            }
        }
        k = k + 1;
    }
    proof {
        assert(xs@.take(xs@.len() as int) =~= xs@);
        if xs@.len() >= 1 {
            assert(out@.len() >= 1);
        }
    }
    out
}

} // verus!
