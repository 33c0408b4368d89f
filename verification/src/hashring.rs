//! A plain consistent-hashing ring fixed to the standard library's default
//! hasher.
//!
//! This is the ring in its simplest shape: `add` writes every candidate
//! position of a node — duplicates and all — over whatever held them, `get_by_key`
//! resolves a key by the successor rule, and `remove` clears a node's
//! candidate positions at its stored weight. The generic ring at the crate
//! root adds a pluggable hash capability, candidate deduplication and
//! replacement bookkeeping on top of the same verified table.

use vstd::prelude::*;

use core::hash::Hash;

use crate::digest;
use crate::table::installed;
use crate::table::probe_removed;
use crate::table::RingTable;

verus! {

/// A hash ring for consistent hashing over nodes of type `N`, hashed with
/// the default hasher.
pub struct HashRing<N> {
    table: RingTable<N>,
}

impl<N> HashRing<N> {
    /// The verified position table the ring's contracts speak about.
    pub closed spec fn ring_table(self) -> RingTable<N> {
        self.table
    }

    /// The ring's well-formedness: that of its position table.
    pub open spec fn well_formed(self) -> bool {
        self.ring_table().well_formed()
    }
}

impl<N> Default for HashRing<N> {
    /// An empty ring.
    fn default() -> (ring: Self)
        ensures
            ring.well_formed(),
            ring.ring_table().position_count() == 0,
            ring.ring_table().arena().len() == 0,
    {
        HashRing { table: RingTable::new() }
    }
}

impl<N> HashRing<N> where N: Hash {
    /// Creates an empty ring.
    pub fn new() -> (ring: Self)
        ensures
            ring.well_formed(),
            ring.ring_table().position_count() == 0,
            ring.ring_table().arena().len() == 0,
    {
        HashRing { table: RingTable::new() }
    }

    /// The candidate ring positions of `node`: the digest of `(node, i)` for
    /// each virtual-node index `i` below `weight`.
    fn compute_virtual_node_hashes(node: &N, weight: u64) -> (r: Vec<u64>)
        ensures
            r@.len() == weight,
    {
        let builder = digest::default_build_hasher();
        let mut hashes: Vec<u64> = Vec::new();
        let mut i: u64 = 0;
        while i < weight
            invariant
                i <= weight,
                hashes@.len() == i,
            decreases weight - i,
        {
            hashes.push(digest::vnode_digest(&builder, node, i));
            i = i + 1;
        }
        hashes
    }

    /// Adds a node with `weight` virtual nodes, writing every candidate
    /// position over whatever held it. Digest collisions can leave fewer
    /// than `weight` distinct positions standing.
    pub fn add(&mut self, node: N, weight: u64)
        requires
            old(self).well_formed(),
            weight >= 1,
        ensures
            final(self).well_formed(),
            exists|cand: Seq<u64>, rid: usize|
                cand.len() == weight && #[trigger] installed(
                    old(self).ring_table(),
                    final(self).ring_table(),
                    node,
                    weight,
                    cand,
                    rid,
                ),
    {
        let cand = Self::compute_virtual_node_hashes(&node, weight);
        let rid = self.table.install(node, weight, &cand);
        proof {
            assert(installed(
                old(self).ring_table(),
                self.ring_table(),
                node,
                weight,
                cand@,
                rid,
            ));
        }
    }

    /// Returns a reference to the node owning the key: the node at the
    /// first ring position at or above the key's digest, wrapping around to
    /// the smallest position. `None` exactly on an empty ring.
    #[inline]
    pub fn get_by_key<K: Hash>(&self, key: K) -> (r: Option<&N>)
        requires
            self.well_formed(),
        ensures
            r is None <==> self.ring_table().position_count() == 0,
            self.ring_table().position_count() > 0 ==> (r matches Some(n) && exists|d: u64|
                *n == #[trigger] self.ring_table().owner_node(d)),
    {
        let builder = digest::default_build_hasher();
        let d = digest::key_digest(&builder, &key);
        let r = self.table.lookup(d);
        proof {
            if self.ring_table().position_count() > 0 {
                assert(*r->Some_0 == self.ring_table().owner_node(d));
            }
        }
        r
    }

    /// The number of virtual nodes (ring positions) currently stored.
    pub fn virtual_node_count(&self) -> (n: usize)
        ensures
            n == self.ring_table().position_count(),
    {
        self.table.num_positions()
    }

    /// The record the position `p` points at, if any.
    fn get_master_node_by_hash(&self, p: u64) -> (r: Option<usize>)
        requires
            self.well_formed(),
        ensures
            match r {
                Some(rid) => self.ring_table().pos_map().contains_key(p)
                    && self.ring_table().pos_map()[p] == rid && self.ring_table().live(rid as int),
                None => !self.ring_table().pos_map().contains_key(p),
            },
    {
        self.table.record_at(p)
    }

    /// Removes a node, returning how many virtual nodes were removed —
    /// zero when the node is absent, which is an idempotent no-op. The
    /// node's record is located through its probe position, and its
    /// candidate positions are recomputed at its stored weight.
    pub fn remove(&mut self, node: N) -> (removed: u64)
        requires
            old(self).well_formed(),
        ensures
            final(self).well_formed(),
            exists|probe: u64, reclaimed: Option<N>|
                #[trigger] probe_removed(
                    old(self).ring_table(),
                    final(self).ring_table(),
                    probe,
                    reclaimed,
                    removed,
                ),
            removed == 0 ==> final(self).ring_table().pos_map() == old(
                self,
            ).ring_table().pos_map() && final(self).ring_table().arena() == old(
                self,
            ).ring_table().arena(),
    {
        let builder = digest::default_build_hasher();
        let probe = digest::vnode_digest(&builder, &node, 0);
        match self.get_master_node_by_hash(probe) {
            Some(rid) => {
                let stored_weight = self.table.weight_of(rid);
                let mut cand: Vec<u64> = Vec::new();
                let mut i: u64 = 0;
                while i < stored_weight
                    invariant
                        i <= stored_weight,
                        cand@.len() == i,
                        self.well_formed(),
                        self.ring_table().live(rid as int),
                    decreases stored_weight - i,
                {
                    cand.push(digest::vnode_digest(&builder, self.table.node_of(rid), i));
                    i = i + 1;
                }
                let (count, reclaimed) = self.table.remove_positions(rid, &cand);
                proof {
                    assert(probe_removed(
                        old(self).ring_table(),
                        self.ring_table(),
                        probe,
                        reclaimed,
                        count,
                    ));
                    if count == 0 {
                        crate::laws::lemma_zero_removed_changes_nothing(
                            old(self).ring_table(),
                            self.ring_table(),
                            probe,
                            reclaimed,
                        );
                    }
                }
                count
            },
            None => {
                proof {
                    assert(probe_removed(
                        old(self).ring_table(),
                        self.ring_table(),
                        probe,
                        None::<N>,
                        0u64,
                    ));
                }
                0
            },
        }
    }
}

} // verus!
