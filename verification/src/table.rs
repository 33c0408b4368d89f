//! The verified core of the ring: an ordered table of ring positions.
//!
//! A `RingTable` owns a vector of `(position, record)` pairs kept strictly
//! sorted by position, together with an arena of master-node records. Every
//! position maps to one live record; one record is usually shared by many
//! positions (its virtual nodes). A record is freed exactly when its last
//! referencing position goes away.
//!
//! The table works on bare 64-bit positions; hashing keys and nodes down to
//! positions is the caller's business. All operations here are verified
//! against the map model [`RingTable::pos_map`] and the arena model
//! [`RingTable::arena`].

use vstd::prelude::*;

verus! {

/// A master-node record: the caller's node value together with the weight
/// (virtual-node count) it was stored with.
struct Record<N> {
    node: N,
    weight: u64,
}

/// An ordered position table plus the arena of master-node records.
pub struct RingTable<N> {
    /// `(position, record index)` pairs, strictly sorted by position.
    slots: Vec<(u64, usize)>,
    /// Arena of records; a slot is `None` once its record has been freed.
    records: Vec<Option<Record<N>>>,
}

impl<N> RingTable<N> {
    /// The ordered `(position, record index)` pairs, the table's primary view.
    pub closed spec fn entries(self) -> Seq<(u64, usize)> {
        self.slots@
    }

    /// The record arena: index `r` holds `Some((node, weight))` while record
    /// `r` is live, `None` once it has been freed.
    pub closed spec fn arena(self) -> Seq<Option<(N, u64)>> {
        self.records@.map_values(
            |rec: Option<Record<N>>|
                match rec {
                    Some(r) => Some((r.node, r.weight)),
                    None => None,
                },
        )
    }

    /// Whether record `r` is live.
    pub open spec fn live(self, r: int) -> bool {
        0 <= r < self.arena().len() && self.arena()[r] is Some
    }

    /// The node value of live record `r`.
    pub open spec fn node_at(self, r: int) -> N {
        self.arena()[r]->Some_0.0
    }

    /// The stored weight of live record `r`.
    pub open spec fn weight_at(self, r: int) -> u64 {
        self.arena()[r]->Some_0.1
    }

    /// The table as a map from position to record index.
    pub open spec fn pos_map(self) -> Map<u64, usize> {
        entries_map(self.entries())
    }

    /// Whether record `r` owns some position other than `p`.
    pub open spec fn owns_besides(self, r: int, p: u64) -> bool {
        exists|q: u64|
            #[trigger] self.pos_map().contains_key(q) && self.pos_map()[q] == r && q != p
    }

    /// Whether record `r` owns some position outside `ps`.
    pub open spec fn owns_outside(self, r: int, ps: Seq<u64>) -> bool {
        exists|q: u64|
            #[trigger] self.pos_map().contains_key(q) && self.pos_map()[q] == r && !ps.contains(q)
    }

    /// How many positions the table holds.
    pub open spec fn position_count(self) -> nat {
        self.entries().len()
    }

    /// How many live records the table holds: its distinct-node count.
    pub open spec fn record_count(self) -> nat {
        count_live(self.arena())
    }

    /// Well-formedness: positions strictly sorted; every slot points at a
    /// live record; every live record is pointed at by some slot (a node
    /// with no surviving virtual node is fully absent); stored weights are
    /// at least 1.
    pub open spec fn well_formed(self) -> bool {
        &&& sorted_entries(self.entries())
        &&& forall|i: int|
            0 <= i < self.entries().len() ==> self.live(#[trigger] self.entries()[i].1 as int)
        &&& forall|r: int|
            self.live(r) ==> exists|i: int|
                0 <= i < self.entries().len() && (#[trigger] self.entries()[i]).1 == r
        &&& forall|r: int| self.live(r) ==> self.weight_at(r) >= 1
    }

    /// Well-formedness during an update, while record `r0` is allowed to
    /// stand live without a referencing slot.
    spec fn wf_except(self, r0: int) -> bool {
        &&& sorted_entries(self.entries())
        &&& forall|i: int|
            0 <= i < self.entries().len() ==> self.live(#[trigger] self.entries()[i].1 as int)
        &&& forall|r: int|
            self.live(r) && r != r0 ==> exists|i: int|
                0 <= i < self.entries().len() && (#[trigger] self.entries()[i]).1 == r
        &&& forall|r: int| self.live(r) ==> self.weight_at(r) >= 1
    }

    /// Creates an empty table.
    pub fn new() -> (t: Self)
        ensures
            t.well_formed(),
            t.entries() == Seq::<(u64, usize)>::empty(),
            t.arena() == Seq::<Option<(N, u64)>>::empty(),
    {
        let t = RingTable { slots: Vec::new(), records: Vec::new() };
        proof {
            assert(t.entries() =~= Seq::<(u64, usize)>::empty());
            assert(t.arena() =~= Seq::<Option<(N, u64)>>::empty());
        }
        t
    }

    /// The number of positions (virtual nodes) currently stored.
    pub fn num_positions(&self) -> (n: usize)
        ensures
            n == self.position_count(),
    {
        self.slots.len()
    }

    /// Whether the table holds no position at all.
    pub fn is_empty(&self) -> (b: bool)
        ensures
            b <==> self.position_count() == 0,
    {
        self.slots.len() == 0
    }

    /// The number of live records: the count of distinct nodes present.
    pub fn num_records(&self) -> (n: usize)
        ensures
            n == self.record_count(),
    {
        let mut n: usize = 0;
        let mut i: usize = 0;
        while i < self.records.len()
            invariant
                i <= self.records.len(),
                n == count_live(self.arena().take(i as int)),
                n <= i,
            decreases self.records.len() - i,
        {
            if self.records[i].is_some() {
                n = n + 1;
            }
            proof {
                assert(self.arena().take(i + 1).drop_last() =~= self.arena().take(i as int));
                assert(self.arena().take(i + 1).last() == self.arena()[i as int]);
            }
            i = i + 1;
        }
        proof {
            assert(self.arena().take(self.records@.len() as int) =~= self.arena());
        }
        n
    }

    /// A reference to the node value of live record `r`.
    pub fn node_of(&self, r: usize) -> (node: &N)
        requires
            self.live(r as int),
        ensures
            *node == self.node_at(r as int),
    {
        &self.records[r].as_ref().unwrap().node
    }

    /// The stored weight of live record `r`.
    pub fn weight_of(&self, r: usize) -> (w: u64)
        requires
            self.live(r as int),
        ensures
            w == self.weight_at(r as int),
    {
        self.records[r].as_ref().unwrap().weight
    }
}

impl<N> RingTable<N> {
    /// Whether some stored position is at or above `d`.
    pub open spec fn has_ceiling(self, d: u64) -> bool {
        exists|i: int| 0 <= i < self.entries().len() && (#[trigger] self.entries()[i]).0 >= d
    }

    /// The index of the slot owning digest `d`: the first position at or
    /// above `d`, wrapping around to the smallest position when none is.
    /// Meaningful only on a non-empty table.
    pub open spec fn owner_index(self, d: u64) -> int {
        if self.has_ceiling(d) {
            ceiling_index(self.entries(), d)
        } else {
            0
        }
    }

    /// The record owning digest `d`.
    pub open spec fn owner_record(self, d: u64) -> usize {
        self.entries()[self.owner_index(d)].1
    }

    /// The node owning digest `d`: the single placement rule of the ring.
    pub open spec fn owner_node(self, d: u64) -> N {
        self.node_at(self.owner_record(d) as int)
    }

    /// The first index whose position is at or above `d`, by binary search;
    /// `slots.len()` when every position is below `d`.
    fn find_ceiling(&self, d: u64) -> (r: usize)
        requires
            sorted_entries(self.entries()),
        ensures
            r == ceiling_index(self.entries(), d),
            r <= self.entries().len(),
            forall|j: int| 0 <= j < r ==> (#[trigger] self.entries()[j]).0 < d,
            r < self.entries().len() ==> self.entries()[r as int].0 >= d,
    {
        let mut lo: usize = 0;
        let mut hi: usize = self.slots.len();
        while lo < hi
            invariant
                lo <= hi <= self.entries().len(),
                sorted_entries(self.entries()),
                forall|j: int| 0 <= j < lo ==> (#[trigger] self.entries()[j]).0 < d,
                forall|j: int|
                    hi <= j < self.entries().len() ==> (#[trigger] self.entries()[j]).0 >= d,
            decreases hi - lo,
        {
            let mid = lo + (hi - lo) / 2;
            if self.slots[mid].0 < d {
                lo = mid + 1;
            } else {
                hi = mid;
            }
        }
        proof {
            lemma_ceiling_index_props(self.entries(), d);
            let ci = ceiling_index(self.entries(), d);
            if ci < lo {
                assert(self.entries()[ci].0 < d);
            }
            if lo < ci {
                assert(self.entries()[lo as int].0 >= d);
            }
        }
        lo
    }

    /// Whether any slot still points at record `r`.
    fn has_ref(&self, r: usize) -> (b: bool)
        ensures
            b <==> exists|i: int|
                0 <= i < self.entries().len() && (#[trigger] self.entries()[i]).1 == r,
    {
        let mut k: usize = 0;
        while k < self.slots.len()
            invariant
                k <= self.entries().len(),
                forall|i: int| 0 <= i < k ==> (#[trigger] self.entries()[i]).1 != r,
            decreases self.entries().len() - k,
        {
            if self.slots[k].1 == r {
                return true;
            }
            k = k + 1;
        }
        false
    }

    /// Writes position `p` to point at record `rid`, inserting or
    /// overwriting its slot, and frees a record that thereby loses its last
    /// referencing slot.
    fn set_position(&mut self, p: u64, rid: usize)
        requires
            old(self).wf_except(rid as int),
            old(self).live(rid as int),
        ensures
            final(self).wf_except(rid as int),
            final(self).live(rid as int),
            final(self).pos_map() == old(self).pos_map().insert(p, rid),
            final(self).arena().len() == old(self).arena().len(),
            final(self).arena()[rid as int] == old(self).arena()[rid as int],
            forall|r: int|
                0 <= r < old(self).arena().len() ==> #[trigger] final(self).arena()[r] == (
                if r == rid || (old(self).live(r) && old(self).owns_besides(r, p)) {
                    old(self).arena()[r]
                } else {
                    None::<(N, u64)>
                }),
    {
        let ghost pre = *old(self);
        let i = self.find_ceiling(p);
        if i < self.slots.len() && self.slots[i].0 == p {
            let old_rid = self.slots[i].1;
            proof {
                lemma_sorted_distinct(pre.entries());
                lemma_entries_map_value(pre.entries(), i as int);
            }
            if old_rid != rid {
                self.slots[i] = (p, rid);
                proof {
                    assert(self.entries() =~= pre.entries().update(i as int, (p, rid)));
                    lemma_map_after_update(pre.entries(), i as int, p, rid);
                }
                let still_referenced = self.has_ref(old_rid);
                if !still_referenced {
                    self.records[old_rid] = None;
                    proof {
                        assert(self.arena() =~= pre.arena().update(old_rid as int, None));
                    }
                }
                proof {
                    let post = *self;
                    assert forall|r: int| 0 <= r < pre.arena().len() implies #[trigger] post
                        .arena()[r] == (if r == rid || (pre.live(r) && pre.owns_besides(r, p)) {
                        pre.arena()[r]
                    } else {
                        None::<(N, u64)>
                    }) by {
                        if r == old_rid {
                            lemma_besides_iff_slot(pre, r, p, i as int);
                            if still_referenced {
                                let j = choose|j: int|
                                    0 <= j < post.entries().len() && (#[trigger] post.entries()[
                                    j]).1 == r;
                                assert(j != i && pre.entries()[j].1 == r);
                            } else {
                                assert forall|j: int|
                                    0 <= j < pre.entries().len() && j != i implies (
                                #[trigger] pre.entries()[j]).1 != r by {
                                    assert(post.entries()[j].1 == pre.entries()[j].1);
                                }
                            }
                        } else if r != rid && pre.live(r) {
                            let j = choose|j: int|
                                0 <= j < pre.entries().len() && (#[trigger] pre.entries()[j]).1
                                    == r;
                            assert(j != i);
                            lemma_entries_map_value(pre.entries(), j);
                            assert(pre.entries()[j].0 != p);
                            assert(pre.pos_map().contains_key(pre.entries()[j].0)
                                && pre.pos_map()[pre.entries()[j].0] == r);
                            assert(pre.owns_besides(r, p));
                        }
                    }
                    assert forall|r: int| post.live(r) && r != rid implies exists|j: int|
                        0 <= j < post.entries().len() && (#[trigger] post.entries()[j]).1
                            == r by {
                        if r == old_rid {
                            assert(still_referenced);
                        } else {
                            let j = choose|j: int|
                                0 <= j < pre.entries().len() && (#[trigger] pre.entries()[j]).1
                                    == r;
                            assert(post.entries()[j].1 == r);
                        }
                    }
                }
            } else {
                proof {
                    assert(self.pos_map() =~= pre.pos_map().insert(p, rid));
                    assert forall|r: int| 0 <= r < pre.arena().len() implies #[trigger] self
                        .arena()[r] == (if r == rid || (pre.live(r) && pre.owns_besides(r, p)) {
                        pre.arena()[r]
                    } else {
                        None::<(N, u64)>
                    }) by {
                        if r != rid && pre.live(r) {
                            let j = choose|j: int|
                                0 <= j < pre.entries().len() && (#[trigger] pre.entries()[j]).1
                                    == r;
                            assert(j != i);
                            lemma_entries_map_value(pre.entries(), j);
                            assert(pre.entries()[j].0 != p);
                            assert(pre.pos_map().contains_key(pre.entries()[j].0)
                                && pre.pos_map()[pre.entries()[j].0] == r);
                            assert(pre.owns_besides(r, p));
                        }
                    }
                }
            }
        } else {
            self.slots.insert(i, (p, rid));
            proof {
                pre.entries().insert_ensures(i as int, (p, rid));
                assert(self.entries() == pre.entries().insert(i as int, (p, rid)));
                lemma_map_after_insert(pre.entries(), i as int, p, rid);
                lemma_entries_map_contains(pre.entries(), p);
                let post = *self;
                assert forall|r: int| 0 <= r < pre.arena().len() implies #[trigger] post.arena()[r]
                    == (if r == rid || (pre.live(r) && pre.owns_besides(r, p)) {
                    pre.arena()[r]
                } else {
                    None::<(N, u64)>
                }) by {
                    if r != rid && pre.live(r) {
                        let j = choose|j: int|
                            0 <= j < pre.entries().len() && (#[trigger] pre.entries()[j]).1 == r;
                        lemma_sorted_distinct(pre.entries());
                        lemma_entries_map_value(pre.entries(), j);
                        assert(pre.entries()[j].0 != p);
                        assert(pre.pos_map().contains_key(pre.entries()[j].0)
                            && pre.pos_map()[pre.entries()[j].0] == r);
                        assert(pre.owns_besides(r, p));
                    }
                }
                assert forall|r: int| post.live(r) && r != rid implies exists|j: int|
                    0 <= j < post.entries().len() && (#[trigger] post.entries()[j]).1 == r by {
                    let j = choose|j: int|
                        0 <= j < pre.entries().len() && (#[trigger] pre.entries()[j]).1 == r;
                    if j < i {
                        assert(post.entries()[j].1 == r);
                    } else {
                        assert(post.entries()[j + 1].1 == r);
                    }
                }
            }
        }
    }

    /// Writes a fresh record for `node` with stored weight `weight` and
    /// points every position in `positions` at it, overwriting whatever held
    /// those positions before. An overwritten record that thereby loses its
    /// last position is freed. `positions` may repeat a position; later
    /// writes are no-ops.
    pub fn install(&mut self, node: N, weight: u64, positions: &Vec<u64>) -> (rid: usize)
        requires
            old(self).well_formed(),
            positions@.len() >= 1,
            weight >= 1,
        ensures
            final(self).well_formed(),
            installed(*old(self), *final(self), node, weight, positions@, rid),
    {
        let ghost pre = *old(self);
        let ghost gnode = node;
        let rid = self.records.len();
        self.records.push(Some(Record { node, weight }));
        proof {
            assert(self.arena() =~= pre.arena().push(Some((gnode, weight))));
            assert forall|r: int| 0 <= r < pre.arena().len() implies #[trigger] self.arena()[r]
                == (if pre.live(r) && pre.owns_outside(r, positions@.take(0)) {
                pre.arena()[r]
            } else {
                None::<(N, u64)>
            }) by {
                if pre.live(r) {
                    let j = choose|j: int|
                        0 <= j < pre.entries().len() && (#[trigger] pre.entries()[j]).1 == r;
                    lemma_sorted_distinct(pre.entries());
                    lemma_entries_map_value(pre.entries(), j);
                    assert(pre.pos_map().contains_key(pre.entries()[j].0)
                        && pre.pos_map()[pre.entries()[j].0] == r);
                    assert(!positions@.take(0).contains(pre.entries()[j].0));
                    assert(pre.owns_outside(r, positions@.take(0)));
                }
            }
            assert(self.entries() == pre.entries());
            assert forall|i: int| 0 <= i < self.entries().len() implies self.live(
                #[trigger] self.entries()[i].1 as int) by {
                assert(pre.live(pre.entries()[i].1 as int));
            }
            assert forall|r: int| self.live(r) && r != rid implies exists|j: int|
                0 <= j < self.entries().len() && (#[trigger] self.entries()[j]).1 == r by {
                assert(0 <= r < pre.arena().len());
                assert(pre.live(r));
            }
            assert(self.wf_except(rid as int));
        }
        let mut k: usize = 0;
        while k < positions.len()
            invariant
                k <= positions@.len(),
                pre.well_formed(),
                rid == pre.arena().len(),
                weight >= 1,
                self.wf_except(rid as int),
                self.live(rid as int),
                self.node_at(rid as int) == gnode,
                self.weight_at(rid as int) == weight,
                self.arena().len() == pre.arena().len() + 1,
                forall|p: u64| #[trigger]
                    positions@.take(k as int).contains(p) ==> self.pos_map().contains_key(p)
                        && self.pos_map()[p] == rid,
                forall|p: u64|
                    !(#[trigger] positions@.take(k as int).contains(p)) ==> (
                    self.pos_map().contains_key(p) <==> pre.pos_map().contains_key(p)) && (
                    pre.pos_map().contains_key(p) ==> self.pos_map()[p] == pre.pos_map()[p]),
                forall|r: int|
                    0 <= r < pre.arena().len() ==> #[trigger] self.arena()[r] == (if pre.live(r)
                        && pre.owns_outside(r, positions@.take(k as int)) {
                        pre.arena()[r]
                    } else {
                        None::<(N, u64)>
                    }),
            decreases positions@.len() - k,
        {
            let p = positions[k];
            let ghost mid = *self;
            self.set_position(p, rid);
            proof {
                let take_k = positions@.take(k as int);
                let take_k1 = positions@.take(k as int + 1);
                assert(take_k1 =~= take_k.push(p));
                assert forall|q: u64| #[trigger]
                    take_k1.contains(q) <==> take_k.contains(q) || q == p by {
                    lemma_push_contains(take_k, p, q);
                }
                assert forall|q: u64| #[trigger]
                    take_k1.contains(q) implies self.pos_map().contains_key(q)
                    && self.pos_map()[q] == rid by {
                    if q != p {
                        assert(mid.pos_map().contains_key(q) && mid.pos_map()[q] == rid);
                    }
                }
                assert forall|r: int| 0 <= r < pre.arena().len() implies #[trigger] self.arena()[r]
                    == (if pre.live(r) && pre.owns_outside(r, take_k1) {
                    pre.arena()[r]
                } else {
                    None::<(N, u64)>
                }) by {
                    assert(r != rid);
                    if mid.live(r) && mid.owns_besides(r, p) {
                        // The step keeps `r`: it still owns a position away
                        // from everything written so far.
                        let q = choose|q: u64|
                            #[trigger] mid.pos_map().contains_key(q) && mid.pos_map()[q] == r && q
                                != p;
                        assert(!take_k.contains(q));
                        assert(pre.pos_map().contains_key(q) && pre.pos_map()[q] == r);
                        assert(!take_k1.contains(q));
                        assert(pre.owns_outside(r, take_k1));
                        assert(pre.live(r));
                    } else {
                        if pre.live(r) && pre.owns_outside(r, take_k1) {
                            let q = choose|q: u64|
                                #[trigger] pre.pos_map().contains_key(q) && pre.pos_map()[q] == r
                                    && !take_k1.contains(q);
                            assert(!take_k.contains(q));
                            assert(pre.owns_outside(r, take_k));
                            assert(mid.pos_map().contains_key(q) && mid.pos_map()[q] == r);
                            assert(mid.live(r));
                            assert(q != p);
                            assert(mid.owns_besides(r, p));
                        }
                    }
                }
            }
            k = k + 1;
        }
        proof {
            assert(positions@.take(positions@.len() as int) =~= positions@);
            let p0 = positions@[0];
            assert(positions@.contains(p0));
            assert(self.pos_map().contains_key(p0) && self.pos_map()[p0] == rid);
            lemma_entries_map_contains(self.entries(), p0);
            let j = choose|j: int|
                0 <= j < self.entries().len() && (#[trigger] self.entries()[j]).0 == p0;
            lemma_sorted_distinct(self.entries());
            lemma_entries_map_value(self.entries(), j);
            assert(self.entries()[j].1 == rid);
        }
        rid
    }

    /// Removes every position in `cand` that still points at record `rid`,
    /// returning how many distinct positions went away, and — when the
    /// record thereby loses its last position anywhere — frees it and hands
    /// its node value back. `cand` may repeat positions; repeats count once.
    pub fn remove_positions(&mut self, rid: usize, cand: &Vec<u64>) -> (res: (u64, Option<N>))
        requires
            old(self).well_formed(),
            old(self).live(rid as int),
        ensures
            final(self).well_formed(),
            positions_removed(*old(self), *final(self), rid, cand@, res.0, res.1),
    {
        let ghost pre = *old(self);
        let mut count: u64 = 0;
        let mut k: usize = 0;
        proof {
            assert(removed_set(pre, rid, cand@.take(0)) =~= Set::<u64>::empty());
        }
        while k < cand.len()
            invariant
                k <= cand@.len(),
                pre.well_formed(),
                pre.live(rid as int),
                self.wf_except(rid as int),
                self.arena() == pre.arena(),
                removed_set(pre, rid, cand@.take(k as int)).finite(),
                count == removed_set(pre, rid, cand@.take(k as int)).len(),
                count <= k,
                forall|p: u64|
                    #![trigger self.pos_map().contains_key(p)]
                    #![trigger pre.pos_map().contains_key(p)]
                    self.pos_map().contains_key(p) <==> (pre.pos_map().contains_key(p) && !(
                    cand@.take(k as int).contains(p) && pre.pos_map()[p] == rid)),
                forall|p: u64| #[trigger]
                    self.pos_map().contains_key(p) ==> self.pos_map()[p] == pre.pos_map()[p],
            decreases cand@.len() - k,
        {
            let p = cand[k];
            let ghost mid = *self;
            let ghost take_k = cand@.take(k as int);
            let ghost take_k1 = cand@.take(k as int + 1);
            let ghost rem_k = removed_set(pre, rid, take_k);
            let ghost rem_k1 = removed_set(pre, rid, take_k1);
            proof {
                assert(take_k1 =~= take_k.push(p));
                assert forall|q: u64| #[trigger]
                    take_k1.contains(q) <==> take_k.contains(q) || q == p by {
                    lemma_push_contains(take_k, p, q);
                }
                lemma_sorted_distinct(mid.entries());
            }
            let i = self.find_ceiling(p);
            if i < self.slots.len() && self.slots[i].0 == p && self.slots[i].1 == rid {
                proof {
                    lemma_entries_map_value(mid.entries(), i as int);
                }
                self.slots.remove(i);
                count = count + 1;
                proof {
                    assert(self.entries() == mid.entries().remove(i as int));
                    mid.entries().remove_ensures(i as int);
                    assert forall|m: int, n: int|
                        0 <= m < n < self.entries().len() implies (#[trigger] self.entries()[
                    m]).0 < (#[trigger] self.entries()[n]).0 by {
                        if n < i {
                        } else if m < i {
                            assert(self.entries()[n] == mid.entries()[n + 1]);
                        } else {
                            assert(self.entries()[m] == mid.entries()[m + 1]);
                            assert(self.entries()[n] == mid.entries()[n + 1]);
                        }
                    }
                    lemma_sorted_distinct(self.entries());
                    assert forall|q: u64|
                        #![trigger self.pos_map().contains_key(q)]
                        #![trigger pre.pos_map().contains_key(q)]
                        self.pos_map().contains_key(q) <==> (mid.pos_map().contains_key(q) && q
                            != p) by {
                        lemma_entries_map_contains(self.entries(), q);
                        lemma_entries_map_contains(mid.entries(), q);
                        if exists|j: int|
                            0 <= j < self.entries().len() && (#[trigger] self.entries()[j]).0
                                == q {
                            let j = choose|j: int|
                                0 <= j < self.entries().len() && (#[trigger] self.entries()[j]).0
                                    == q;
                            if j < i {
                                assert(mid.entries()[j].0 == q);
                                assert(q != p);
                            } else {
                                assert(mid.entries()[j + 1].0 == q);
                                assert(q != p);
                            }
                        }
                        if mid.pos_map().contains_key(q) && q != p {
                            let j = choose|j: int|
                                0 <= j < mid.entries().len() && (#[trigger] mid.entries()[j]).0
                                    == q;
                            assert(j != i);
                            if j < i {
                                assert(self.entries()[j].0 == q);
                            } else {
                                assert(self.entries()[j - 1].0 == q);
                            }
                        }
                    }
                    assert forall|q: u64| #[trigger]
                        self.pos_map().contains_key(q) implies self.pos_map()[q]
                        == mid.pos_map()[q] by {
                        lemma_entries_map_contains(self.entries(), q);
                        let j = choose|j: int|
                            0 <= j < self.entries().len() && (#[trigger] self.entries()[j]).0
                                == q;
                        lemma_entries_map_value(self.entries(), j);
                        if j < i {
                            lemma_entries_map_value(mid.entries(), j);
                        } else {
                            assert(self.entries()[j] == mid.entries()[j + 1]);
                            lemma_entries_map_value(mid.entries(), j + 1);
                        }
                    }
                    assert(rem_k1 =~= rem_k.insert(p)) by {
                        assert(mid.pos_map().contains_key(p) && mid.pos_map()[p] == rid);
                        assert(pre.pos_map().contains_key(p) && pre.pos_map()[p] == rid);
                    }
                    assert(!rem_k.contains(p));
                    assert(rem_k1.len() == rem_k.len() + 1);
                    assert forall|r: int| self.live(r) && r != rid implies exists|j: int|
                        0 <= j < self.entries().len() && (#[trigger] self.entries()[j]).1
                            == r by {
                        assert(self.arena() == mid.arena());
                        assert(mid.live(r));
                        assert(exists|j: int|
                            0 <= j < mid.entries().len() && (#[trigger] mid.entries()[j]).1 == r);
                        let j = choose|j: int|
                            0 <= j < mid.entries().len() && (#[trigger] mid.entries()[j]).1 == r;
                        assert(mid.entries()[i as int].1 == rid);
                        assert(j != i);
                        if j < i {
                            assert(self.entries()[j].1 == r);
                        } else {
                            assert(self.entries()[j - 1].1 == r);
                        }
                    }
                }
            } else {
                proof {
                    lemma_entries_map_contains(mid.entries(), p);
                    if exists|j: int|
                        0 <= j < mid.entries().len() && (#[trigger] mid.entries()[j]).0 == p {
                        let j = choose|j: int|
                            0 <= j < mid.entries().len() && (#[trigger] mid.entries()[j]).0 == p;
                        assert(j == i);
                        lemma_entries_map_value(mid.entries(), i as int);
                        assert(mid.pos_map()[p] != rid);
                        assert(pre.pos_map()[p] != rid);
                        assert(rem_k1 =~= rem_k);
                    } else {
                        assert(!mid.pos_map().contains_key(p));
                        assert(rem_k1 =~= rem_k) by {
                            if pre.pos_map().contains_key(p) && pre.pos_map()[p] == rid {
                                assert(take_k.contains(p));
                            }
                        }
                    }
                }
            }
            k = k + 1;
        }
        proof {
            assert(cand@.take(cand@.len() as int) =~= cand@);
        }
        let referenced = self.has_ref(rid);
        proof {
            lemma_sorted_distinct(self.entries());
            if referenced {
                let j = choose|j: int|
                    0 <= j < self.entries().len() && (#[trigger] self.entries()[j]).1 == rid;
                lemma_entries_map_value(self.entries(), j);
                let q = self.entries()[j].0;
                assert(self.pos_map().contains_key(q));
                assert(self.pos_map()[q] == rid);
                assert(cand@.take(k as int) == cand@);
                assert(pre.pos_map().contains_key(q) && pre.pos_map()[q] == rid);
                assert(!cand@.contains(q));
                assert(pre.owns_outside(rid as int, cand@));
            } else {
                if pre.owns_outside(rid as int, cand@) {
                    let q = choose|q: u64|
                        #[trigger] pre.pos_map().contains_key(q) && pre.pos_map()[q] == rid
                            && !cand@.contains(q);
                    assert(self.pos_map().contains_key(q) && self.pos_map()[q] == rid);
                    lemma_entries_map_contains(self.entries(), q);
                    let j = choose|j: int|
                        0 <= j < self.entries().len() && (#[trigger] self.entries()[j]).0 == q;
                    lemma_entries_map_value(self.entries(), j);
                    assert(self.entries()[j].1 == rid);
                }
            }
        }
        if !referenced {
            let ghost before = *self;
            let slot = &mut self.records[rid];
            let rec = slot.take();
            proof {
                assert(rec == before.records@[rid as int]);
                assert(self.records@ == before.records@.update(rid as int, None));
                assert(self.arena() =~= before.arena().update(rid as int, None));
                assert(before.arena() == pre.arena());
                assert(before.arena()[rid as int] == Some(
                    (before.node_at(rid as int), before.weight_at(rid as int)),
                ));
                assert(rec is Some);
                assert(rec->Some_0.node == pre.node_at(rid as int));
                assert(self.entries() == before.entries());
                assert forall|i2: int| 0 <= i2 < self.entries().len() implies self.live(
                    #[trigger] self.entries()[i2].1 as int) by {
                    assert(before.entries()[i2].1 != rid);
                    assert(before.live(before.entries()[i2].1 as int));
                }
                assert forall|r: int| self.live(r) implies exists|j: int|
                    0 <= j < self.entries().len() && (#[trigger] self.entries()[j]).1 == r by {
                    assert(r != rid);
                    assert(before.live(r));
                }
                assert(self.well_formed());
                assert(k == cand@.len());
                assert(forall|p: u64|
                    #![trigger self.pos_map().contains_key(p)]
                    #![trigger pre.pos_map().contains_key(p)]
                    self.pos_map().contains_key(p) <==> (pre.pos_map().contains_key(p) && !(
                    cand@.contains(p) && pre.pos_map()[p] == rid)));
                assert(count == removed_set(pre, rid, cand@).len());
                assert(!pre.owns_outside(rid as int, cand@));
                assert(forall|r: int|
                    0 <= r < pre.arena().len() ==> #[trigger] self.arena()[r] == (if r == rid {
                        None::<(N, u64)>
                    } else {
                        pre.arena()[r]
                    }));
            }
            (count, Some(rec.unwrap().node))
        } else {
            proof {
                assert(self.well_formed());
                assert(k == cand@.len());
                assert(pre.owns_outside(rid as int, cand@));
                assert(self.arena() == pre.arena());
                assert(count == removed_set(pre, rid, cand@).len());
            }
            (count, None)
        }
    }

    /// The record stored exactly at position `p`, if any.
    pub fn record_at(&self, p: u64) -> (r: Option<usize>)
        requires
            self.well_formed(),
        ensures
            match r {
                Some(rid) => self.pos_map().contains_key(p) && self.pos_map()[p] == rid
                    && self.live(rid as int),
                None => !self.pos_map().contains_key(p),
            },
    {
        let i = self.find_ceiling(p);
        proof {
            lemma_entries_map_contains(self.entries(), p);
            if i < self.entries().len() && self.entries()[i as int].0 == p {
                lemma_entries_map_value(self.entries(), i as int);
            } else {
                if exists|j: int| 0 <= j < self.entries().len() && (#[trigger] self.entries()[j]).0
                    == p {
                    let j = choose|j: int|
                        0 <= j < self.entries().len() && (#[trigger] self.entries()[j]).0 == p;
                    assert(self.entries()[j].0 >= p);
                }
            }
        }
        if i < self.slots.len() && self.slots[i].0 == p {
            Some(self.slots[i].1)
        } else {
            None
        }
    }

    /// Looks up the node owning digest `d`: the node at the first position at
    /// or above `d`, wrapping around to the smallest position, or `None` on
    /// an empty table. The result is a pure function of the table and `d`.
    pub fn lookup(&self, d: u64) -> (r: Option<&N>)
        requires
            self.well_formed(),
        ensures
            r is None <==> self.position_count() == 0,
            self.position_count() > 0 ==> (r matches Some(n) && *n == self.owner_node(d)),
    {
        if self.slots.len() == 0 {
            return None;
        }
        let i = self.find_ceiling(d);
        proof {
            lemma_ceiling_index_props(self.entries(), d);
            if i < self.entries().len() {
                assert(self.has_ceiling(d));
            } else {
                assert forall|j: int|
                    0 <= j < self.entries().len() implies (#[trigger] self.entries()[j]).0
                    < d by {}
                assert(!self.has_ceiling(d));
            }
        }
        if i < self.slots.len() {
            Some(self.node_of(self.slots[i].1))
        } else {
            Some(self.node_of(self.slots[0].1))
        }
    }
}

/// Strict ascending order of the stored positions.
pub open spec fn sorted_entries(s: Seq<(u64, usize)>) -> bool {
    forall|i: int, j: int| 0 <= i < j < s.len() ==> (#[trigger] s[i]).0 < (#[trigger] s[j]).0
}

/// The first index of `s` whose position is at or above `d`; `s.len()` when
/// every position is below `d`.
pub open spec fn ceiling_index(s: Seq<(u64, usize)>, d: u64) -> int
    decreases s.len(),
{
    if s.len() == 0 {
        0
    } else if s[0].0 >= d {
        0
    } else {
        1 + ceiling_index(s.drop_first(), d)
    }
}

/// `ceiling_index` returns the first index at or above `d`.
pub proof fn lemma_ceiling_index_props(s: Seq<(u64, usize)>, d: u64)
    ensures
        0 <= ceiling_index(s, d) <= s.len(),
        forall|j: int| 0 <= j < ceiling_index(s, d) ==> (#[trigger] s[j]).0 < d,
        ceiling_index(s, d) < s.len() ==> s[ceiling_index(s, d)].0 >= d,
    decreases s.len(),
{
    if s.len() > 0 && s[0].0 < d {
        lemma_ceiling_index_props(s.drop_first(), d);
        assert forall|j: int| 0 <= j < ceiling_index(s, d) implies (#[trigger] s[j]).0 < d by {
            if j > 0 {
                assert(s.drop_first()[j - 1].0 < d);
            }
        }
    }
}

/// The map a sequence of `(position, record)` pairs stands for; later pairs
/// win, though a well-formed table never repeats a position.
pub open spec fn entries_map(s: Seq<(u64, usize)>) -> Map<u64, usize>
    decreases s.len(),
{
    if s.len() == 0 {
        Map::empty()
    } else {
        entries_map(s.drop_last()).insert(s.last().0, s.last().1)
    }
}

/// How many live records an arena sequence holds.
pub open spec fn count_live<N>(s: Seq<Option<(N, u64)>>) -> nat
    decreases s.len(),
{
    if s.len() == 0 {
        0
    } else {
        count_live(s.drop_last()) + if s.last() is Some {
            1nat
        } else {
            0nat
        }
    }
}

/// What installing `node` with stored weight `weight` at `ps` does to a
/// table: a fresh record `rid` now holds `node`, every position in `ps` maps
/// to `rid`, other positions are untouched, and an old record survives
/// exactly while it keeps a position outside `ps`.
pub open spec fn installed<N>(
    pre: RingTable<N>,
    post: RingTable<N>,
    node: N,
    weight: u64,
    ps: Seq<u64>,
    rid: usize,
) -> bool {
    &&& rid == pre.arena().len()
    &&& post.arena().len() == pre.arena().len() + 1
    &&& post.live(rid as int)
    &&& post.node_at(rid as int) == node
    &&& post.weight_at(rid as int) == weight
    &&& forall|p: u64| #[trigger]
        ps.contains(p) ==> post.pos_map().contains_key(p) && post.pos_map()[p] == rid
    &&& forall|p: u64|
        !(#[trigger] ps.contains(p)) ==> (post.pos_map().contains_key(p)
            <==> pre.pos_map().contains_key(p)) && (pre.pos_map().contains_key(p)
            ==> post.pos_map()[p] == pre.pos_map()[p])
    &&& forall|r: int|
        0 <= r < pre.arena().len() ==> #[trigger] post.arena()[r] == (if pre.live(r)
            && pre.owns_outside(r, ps) {
            pre.arena()[r]
        } else {
            None::<(N, u64)>
        })
}

/// The candidate positions that removal with candidate list `cand` actually
/// takes away from record `rid`: those still pointing at it.
pub open spec fn removed_set<N>(pre: RingTable<N>, rid: usize, cand: Seq<u64>) -> Set<u64> {
    Set::new(
        |p: u64|
            cand.contains(p) && pre.pos_map().contains_key(p) && pre.pos_map()[p] == rid,
    )
}

/// What removing record `rid`'s candidate positions `cand` does to a table:
/// exactly the candidates still pointing at `rid` disappear, `count` says
/// how many distinct ones did, and the record itself is freed — its node
/// value handed back — exactly when no position outside `cand` still points
/// at it.
pub open spec fn positions_removed<N>(
    pre: RingTable<N>,
    post: RingTable<N>,
    rid: usize,
    cand: Seq<u64>,
    count: u64,
    reclaimed: Option<N>,
) -> bool {
    &&& forall|p: u64|
        #![trigger post.pos_map().contains_key(p)]
        #![trigger pre.pos_map().contains_key(p)]
        post.pos_map().contains_key(p) <==> (pre.pos_map().contains_key(p) && !(cand.contains(p)
            && pre.pos_map()[p] == rid))
    &&& forall|p: u64| #[trigger]
        post.pos_map().contains_key(p) ==> post.pos_map()[p] == pre.pos_map()[p]
    &&& removed_set(pre, rid, cand).finite()
    &&& count == removed_set(pre, rid, cand).len()
    &&& post.arena().len() == pre.arena().len()
    &&& if pre.owns_outside(rid as int, cand) {
        reclaimed is None && post.arena() == pre.arena()
    } else {
        reclaimed == Some(pre.node_at(rid as int)) && forall|r: int|
            0 <= r < pre.arena().len() ==> #[trigger] post.arena()[r] == (if r == rid {
                None::<(N, u64)>
            } else {
                pre.arena()[r]
            })
    }
}

/// What removing a node by its probe position does to a table. When `probe`
/// is no stored position, nothing happens: removal of an absent node is an
/// idempotent no-op. Otherwise the record at `probe` loses every position in
/// some recomputed candidate list whose length is its stored weight.
pub open spec fn probe_removed<N>(
    pre: RingTable<N>,
    post: RingTable<N>,
    probe: u64,
    reclaimed: Option<N>,
    count: u64,
) -> bool {
    if pre.pos_map().contains_key(probe) {
        let rid = pre.pos_map()[probe];
        exists|cand: Seq<u64>|
            cand.len() == pre.weight_at(rid as int) && #[trigger] positions_removed(
                pre,
                post,
                rid,
                cand,
                count,
                reclaimed,
            )
    } else {
        post == pre && reclaimed is None && count == 0
    }
}

/// Membership in a pushed sequence.
pub proof fn lemma_push_contains(s: Seq<u64>, e: u64, q: u64)
    ensures
        s.push(e).contains(q) <==> s.contains(q) || q == e,
{
    if s.push(e).contains(q) {
        let idx = choose|idx: int| 0 <= idx < s.push(e).len() && s.push(e)[idx] == q;
        if idx < s.len() {
            assert(s[idx] == q);
        }
    }
    if s.contains(q) {
        let idx = choose|idx: int| 0 <= idx < s.len() && s[idx] == q;
        assert(s.push(e)[idx] == q);
    }
    if q == e {
        assert(s.push(e)[s.len() as int] == q);
    }
}

/// Strictly sorted entries never repeat a position.
pub proof fn lemma_sorted_distinct(s: Seq<(u64, usize)>)
    requires
        sorted_entries(s),
    ensures
        forall|m: int, n: int| 0 <= m < n < s.len() ==> (#[trigger] s[m]).0 != (#[trigger] s[n]).0,
{
}

/// Overwriting the record of the pair at index `i` updates the map at that
/// pair's position and keeps the order.
pub proof fn lemma_map_after_update(s: Seq<(u64, usize)>, i: int, p: u64, rid: usize)
    requires
        sorted_entries(s),
        0 <= i < s.len(),
        s[i].0 == p,
    ensures
        sorted_entries(s.update(i, (p, rid))),
        entries_map(s.update(i, (p, rid))) == entries_map(s).insert(p, rid),
{
    let t = s.update(i, (p, rid));
    assert(forall|j: int| 0 <= j < s.len() ==> (#[trigger] t[j]).0 == s[j].0);
    lemma_sorted_distinct(s);
    lemma_sorted_distinct(t);
    assert forall|q: u64| #![auto]
        entries_map(t).contains_key(q) <==> entries_map(s).insert(p, rid).contains_key(q) by {
        lemma_entries_map_contains(t, q);
        lemma_entries_map_contains(s, q);
        if exists|j: int| 0 <= j < t.len() && (#[trigger] t[j]).0 == q {
            let j = choose|j: int| 0 <= j < t.len() && (#[trigger] t[j]).0 == q;
            assert(s[j].0 == q);
        }
        if exists|j: int| 0 <= j < s.len() && (#[trigger] s[j]).0 == q {
            let j = choose|j: int| 0 <= j < s.len() && (#[trigger] s[j]).0 == q;
            assert(t[j].0 == q);
        }
    }
    assert forall|q: u64| #![auto] entries_map(t).contains_key(q) implies entries_map(t)[q]
        == entries_map(s).insert(p, rid)[q] by {
        lemma_entries_map_contains(t, q);
        let j = choose|j: int| 0 <= j < t.len() && (#[trigger] t[j]).0 == q;
        lemma_entries_map_value(t, j);
        if q == p {
            assert(j == i);
        } else {
            assert(j != i);
            lemma_entries_map_value(s, j);
        }
    }
    assert(entries_map(t) =~= entries_map(s).insert(p, rid));
}

/// Inserting a pair with a fresh position at its ordered place updates the
/// map at that position and keeps the order.
pub proof fn lemma_map_after_insert(s: Seq<(u64, usize)>, i: int, p: u64, rid: usize)
    requires
        sorted_entries(s),
        0 <= i <= s.len(),
        forall|j: int| 0 <= j < i ==> (#[trigger] s[j]).0 < p,
        i < s.len() ==> s[i].0 > p,
    ensures
        sorted_entries(s.insert(i, (p, rid))),
        entries_map(s.insert(i, (p, rid))) == entries_map(s).insert(p, rid),
{
    let t = s.insert(i, (p, rid));
    s.insert_ensures(i, (p, rid));
    assert forall|m: int, n: int| 0 <= m < n < t.len() implies (#[trigger] t[m]).0 < (
    #[trigger] t[n]).0 by {
        if m < i && n > i {
            assert(t[m].0 == s[m].0 && t[n].0 == s[n - 1].0);
            assert(s[m].0 < p);
            assert(s[n - 1].0 >= s[i].0);
        } else if m == i && n > i {
            assert(t[n].0 == s[n - 1].0);
            assert(s[n - 1].0 >= s[i].0);
        }
    }
    lemma_sorted_distinct(s);
    lemma_sorted_distinct(t);
    assert forall|q: u64| #![auto]
        entries_map(t).contains_key(q) <==> entries_map(s).insert(p, rid).contains_key(q) by {
        lemma_entries_map_contains(t, q);
        lemma_entries_map_contains(s, q);
        if exists|j: int| 0 <= j < t.len() && (#[trigger] t[j]).0 == q {
            let j = choose|j: int| 0 <= j < t.len() && (#[trigger] t[j]).0 == q;
            if j < i {
                assert(s[j].0 == q);
            } else if j > i {
                assert(s[j - 1].0 == q);
            }
        }
        if exists|j: int| 0 <= j < s.len() && (#[trigger] s[j]).0 == q {
            let j = choose|j: int| 0 <= j < s.len() && (#[trigger] s[j]).0 == q;
            if j < i {
                assert(t[j].0 == q);
            } else {
                assert(t[j + 1].0 == q);
            }
        }
    }
    assert forall|q: u64| #![auto] entries_map(t).contains_key(q) implies entries_map(t)[q]
        == entries_map(s).insert(p, rid)[q] by {
        lemma_entries_map_contains(t, q);
        let j = choose|j: int| 0 <= j < t.len() && (#[trigger] t[j]).0 == q;
        lemma_entries_map_value(t, j);
        if q == p {
            assert(t[j] == (p, rid));
        } else {
            if j < i {
                lemma_entries_map_value(s, j);
            } else {
                assert(j > i);
                assert(s[j - 1].0 == q);
                lemma_entries_map_value(s, j - 1);
            }
        }
    }
    assert(entries_map(t) =~= entries_map(s).insert(p, rid));
}

/// With the slot at index `i` holding position `p`, a record owns a position
/// besides `p` exactly when some other slot points at it.
pub proof fn lemma_besides_iff_slot<N>(t: RingTable<N>, r: int, p: u64, i: int)
    requires
        sorted_entries(t.entries()),
        0 <= i < t.entries().len(),
        t.entries()[i].0 == p,
    ensures
        t.owns_besides(r, p) <==> exists|j: int|
            0 <= j < t.entries().len() && j != i && (#[trigger] t.entries()[j]).1 == r,
{
    lemma_sorted_distinct(t.entries());
    if t.owns_besides(r, p) {
        let q = choose|q: u64|
            #[trigger] t.pos_map().contains_key(q) && t.pos_map()[q] == r && q != p;
        lemma_entries_map_contains(t.entries(), q);
        let j = choose|j: int| 0 <= j < t.entries().len() && (#[trigger] t.entries()[j]).0 == q;
        lemma_entries_map_value(t.entries(), j);
        assert(j != i && t.entries()[j].1 == r);
    }
    if exists|j: int|
        0 <= j < t.entries().len() && j != i && (#[trigger] t.entries()[j]).1 == r {
        let j = choose|j: int|
            0 <= j < t.entries().len() && j != i && (#[trigger] t.entries()[j]).1 == r;
        lemma_entries_map_value(t.entries(), j);
        assert(t.entries()[j].0 != p);
        assert(t.pos_map().contains_key(t.entries()[j].0) && t.pos_map()[t.entries()[j].0] == r
            && t.entries()[j].0 != p);
    }
}

/// An arena with no live record counts zero.
pub proof fn lemma_count_live_none<N>(s: Seq<Option<(N, u64)>>)
    requires
        forall|i: int| 0 <= i < s.len() ==> s[i] is None,
    ensures
        count_live(s) == 0,
    decreases s.len(),
{
    if s.len() > 0 {
        lemma_count_live_none(s.drop_last());
    }
}

/// `count_live` is the cardinality of the set of live arena indices.
pub proof fn lemma_count_live_is_card<N>(s: Seq<Option<(N, u64)>>)
    ensures
        Set::new(|r: int| 0 <= r < s.len() && s[r] is Some).finite(),
        count_live(s) == Set::new(|r: int| 0 <= r < s.len() && s[r] is Some).len(),
    decreases s.len(),
{
    let live = Set::new(|r: int| 0 <= r < s.len() && s[r] is Some);
    if s.len() == 0 {
        assert(live =~= Set::<int>::empty());
    } else {
        lemma_count_live_is_card(s.drop_last());
        let live0 = Set::new(
            |r: int| 0 <= r < s.drop_last().len() && s.drop_last()[r] is Some,
        );
        if s.last() is Some {
            assert(live =~= live0.insert(s.len() - 1));
            assert(!live0.contains(s.len() - 1));
        } else {
            assert(live =~= live0);
        }
    }
}

/// When no position repeats, the map holds exactly as many positions as the
/// sequence holds pairs.
pub proof fn lemma_entries_map_len(s: Seq<(u64, usize)>)
    requires
        forall|m: int, n: int| 0 <= m < n < s.len() ==> (#[trigger] s[m]).0 != (#[trigger] s[n]).0,
    ensures
        entries_map(s).dom().finite(),
        entries_map(s).dom().len() == s.len(),
    decreases s.len(),
{
    if s.len() > 0 {
        assert(forall|m: int, n: int|
            0 <= m < n < s.drop_last().len() ==> (#[trigger] s.drop_last()[m]).0 != (
            #[trigger] s.drop_last()[n]).0);
        lemma_entries_map_len(s.drop_last());
        lemma_entries_map_contains(s.drop_last(), s.last().0);
        assert forall|j: int|
            0 <= j < s.drop_last().len() implies (#[trigger] s.drop_last()[j]).0 != s.last().0 by {
            assert(s[j].0 != s[s.len() - 1].0);
        }
        assert(!entries_map(s.drop_last()).contains_key(s.last().0));
        assert(entries_map(s).dom() =~= entries_map(s.drop_last()).dom().insert(s.last().0));
    }
}

/// A position is in the map exactly when some pair carries it.
pub proof fn lemma_entries_map_contains(s: Seq<(u64, usize)>, p: u64)
    ensures
        entries_map(s).contains_key(p) <==> exists|i: int| 0 <= i < s.len() && s[i].0 == p,
    decreases s.len(),
{
    if s.len() > 0 {
        lemma_entries_map_contains(s.drop_last(), p);
        if entries_map(s).contains_key(p) {
            if s.last().0 == p {
                assert(s[s.len() - 1].0 == p);
            } else {
                let i = choose|i: int| 0 <= i < s.drop_last().len() && s.drop_last()[i].0 == p;
                assert(s[i].0 == p);
            }
        }
        if exists|i: int| 0 <= i < s.len() && s[i].0 == p {
            let i = choose|i: int| 0 <= i < s.len() && s[i].0 == p;
            if i < s.len() - 1 {
                assert(s.drop_last()[i].0 == p);
            }
        }
    }
}

/// When no position repeats, each pair's record is the map's value at its
/// position.
pub proof fn lemma_entries_map_value(s: Seq<(u64, usize)>, i: int)
    requires
        forall|m: int, n: int| 0 <= m < n < s.len() ==> (#[trigger] s[m]).0 != (#[trigger] s[n]).0,
        0 <= i < s.len(),
    ensures
        entries_map(s).contains_key(s[i].0),
        entries_map(s)[s[i].0] == s[i].1,
    decreases s.len(),
{
    lemma_entries_map_contains(s, s[i].0);
    if i < s.len() - 1 {
        assert(forall|m: int, n: int|
            0 <= m < n < s.drop_last().len() ==> (#[trigger] s.drop_last()[m]).0 != (
            #[trigger] s.drop_last()[n]).0);
        lemma_entries_map_value(s.drop_last(), i);
        assert(s.last().0 != s[i].0);
    }
}

} // verus!
