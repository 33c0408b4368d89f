//! The ring's general laws, stated once over the table model and proved.
//!
//! Each law here speaks about every ring state its premises allow, not about
//! chosen values; the scenario-shaped properties live in the test suite.

use vstd::prelude::*;

use crate::table::count_live;
use crate::table::installed;
use crate::table::lemma_ceiling_index_props;
use crate::table::lemma_count_live_none;
use crate::table::lemma_entries_map_len;
use crate::table::lemma_sorted_distinct;
use crate::table::positions_removed;
use crate::table::probe_removed;
use crate::table::removed_set;
use crate::table::RingTable;

verus! {

/// Determinism and the successor rule: when `p` is the least stored
/// position at or above the digest `d`, the owner of `d` is exactly the
/// record at `p` — the single slot the placement rule can pick. Since
/// `lookup` pins its result to `owner_node`, a pure function of the table
/// and the digest, repeated lookups of one key against a fixed ring return
/// the same node.
pub proof fn lemma_owner_of_digest<N>(t: RingTable<N>, d: u64, p: u64)
    requires
        t.well_formed(),
        t.pos_map().contains_key(p),
        p >= d,
        forall|q: u64| #[trigger] t.pos_map().contains_key(q) && q >= d ==> p <= q,
    ensures
        t.position_count() > 0,
        t.has_ceiling(d),
        t.owner_node(d) == t.node_at(t.pos_map()[p] as int),
{
    lemma_sorted_distinct(t.entries());
    crate::table::lemma_entries_map_contains(t.entries(), p);
    let i = choose|i: int| 0 <= i < t.entries().len() && (#[trigger] t.entries()[i]).0 == p;
    assert(t.has_ceiling(d));
    lemma_ceiling_index_props(t.entries(), d);
    let ci = crate::table::ceiling_index(t.entries(), d);
    assert(ci < t.entries().len()) by {
        if ci == t.entries().len() {
            assert(t.entries()[i].0 < d);
        }
    }
    crate::table::lemma_entries_map_value(t.entries(), ci);
    assert(p <= t.entries()[ci].0);
    assert(ci <= i);
    assert(t.entries()[ci].0 <= t.entries()[i].0);
    assert(t.entries()[ci].0 == p);
    crate::table::lemma_entries_map_value(t.entries(), i);
}

/// Wraparound: when every stored position lies below the digest — the
/// ring's maximum is less than it — the owner of the digest is the record
/// at the smallest stored position `p`.
pub proof fn lemma_wraparound<N>(t: RingTable<N>, d: u64, p: u64)
    requires
        t.well_formed(),
        t.pos_map().contains_key(p),
        forall|q: u64| #[trigger] t.pos_map().contains_key(q) ==> q < d,
        forall|q: u64| #[trigger] t.pos_map().contains_key(q) ==> p <= q,
    ensures
        t.position_count() > 0,
        !t.has_ceiling(d),
        t.owner_node(d) == t.node_at(t.pos_map()[p] as int),
{
    lemma_sorted_distinct(t.entries());
    crate::table::lemma_entries_map_contains(t.entries(), p);
    let i = choose|i: int| 0 <= i < t.entries().len() && (#[trigger] t.entries()[i]).0 == p;
    assert forall|j: int|
        0 <= j < t.entries().len() implies (#[trigger] t.entries()[j]).0 < d by {
        crate::table::lemma_entries_map_value(t.entries(), j);
    }
    assert(!t.has_ceiling(d));
    crate::table::lemma_entries_map_value(t.entries(), 0);
    assert(p <= t.entries()[0].0);
    assert(t.entries()[0].0 <= t.entries()[i].0);
    assert(t.entries()[0].0 == p);
}

/// Virtual-node count: installing a node with `cand.len()` distinct
/// candidate positions into an empty ring yields exactly that many
/// positions, and the distinct-node count reports a single node whatever
/// the weight was.
pub proof fn lemma_install_into_empty_counts<N>(
    pre: RingTable<N>,
    post: RingTable<N>,
    node: N,
    weight: u64,
    cand: Seq<u64>,
    rid: usize,
)
    requires
        pre.well_formed(),
        post.well_formed(),
        pre.position_count() == 0,
        pre.arena().len() == 0,
        cand.no_duplicates(),
        cand.len() >= 1,
        installed(pre, post, node, weight, cand, rid),
    ensures
        post.position_count() == cand.len(),
        post.record_count() == 1,
{
    broadcast use vstd::seq_lib::seq_to_set_is_finite;

    assert(pre.entries().len() == 0);
    assert forall|p: u64| #![auto] post.pos_map().contains_key(p) <==> cand.contains(p) by {
        if !cand.contains(p) {
            crate::table::lemma_entries_map_contains(pre.entries(), p);
        }
    }
    assert(post.pos_map().dom() =~= cand.to_set());
    cand.unique_seq_to_set();
    lemma_sorted_distinct(post.entries());
    lemma_entries_map_len(post.entries());
    assert(post.position_count() == cand.len());
    assert(post.arena().len() == 1);
    assert(rid == 0);
    assert(post.arena()[0] is Some);
    assert(post.arena().drop_last() =~= Seq::<Option<(N, u64)>>::empty());
    lemma_count_live_none(post.arena().drop_last());
    assert(post.arena().last() is Some);
    assert(count_live(post.arena()) == count_live(post.arena().drop_last()) + 1);
    assert(post.record_count() == 1);
}

/// Removal completeness: when the removal candidates cover every position a
/// record holds — as they do for a node whose candidates were recomputed
/// unchanged and never overwritten — the record falls entirely: its node
/// value is handed back, it is no longer live, none of its positions stays,
/// and the count returned is exactly the number of positions it held, its
/// effective weight.
pub proof fn lemma_remove_completeness<N>(
    pre: RingTable<N>,
    post: RingTable<N>,
    rid: usize,
    cand: Seq<u64>,
    count: u64,
    reclaimed: Option<N>,
)
    requires
        pre.well_formed(),
        pre.live(rid as int),
        positions_removed(pre, post, rid, cand, count, reclaimed),
        forall|p: u64|
            #[trigger] pre.pos_map().contains_key(p) && pre.pos_map()[p] == rid ==> cand.contains(
                p,
            ),
    ensures
        reclaimed == Some(pre.node_at(rid as int)),
        !post.live(rid as int),
        forall|p: u64|
            #[trigger] pre.pos_map().contains_key(p) && pre.pos_map()[p] == rid
                ==> !post.pos_map().contains_key(p),
        count == Set::new(
            |p: u64| pre.pos_map().contains_key(p) && pre.pos_map()[p] == rid,
        ).len(),
{
    assert(!pre.owns_outside(rid as int, cand));
    assert(removed_set(pre, rid, cand) =~= Set::new(
        |p: u64| pre.pos_map().contains_key(p) && pre.pos_map()[p] == rid,
    ));
    assert(post.arena()[rid as int] is None);
}

/// The ring's node count is honest: on a well-formed table, `record_count`
/// — what `len` returns — equals the number of distinct record identities
/// reachable from the position map, not the number of positions.
pub proof fn lemma_record_count_is_reachable<N>(t: RingTable<N>)
    requires
        t.well_formed(),
    ensures
        Set::new(
            |r: int| exists|p: u64| #[trigger]
                t.pos_map().contains_key(p) && t.pos_map()[p] as int == r,
        ).finite(),
        t.record_count() == Set::new(
            |r: int| exists|p: u64| #[trigger]
                t.pos_map().contains_key(p) && t.pos_map()[p] as int == r,
        ).len(),
{
    crate::table::lemma_count_live_is_card(t.arena());
    lemma_sorted_distinct(t.entries());
    let live = Set::new(|r: int| 0 <= r < t.arena().len() && t.arena()[r] is Some);
    let reachable = Set::new(
        |r: int| exists|p: u64| #[trigger]
            t.pos_map().contains_key(p) && t.pos_map()[p] as int == r,
    );
    assert forall|r: int| live.contains(r) implies reachable.contains(r) by {
        assert(t.live(r));
        let j = choose|j: int|
            0 <= j < t.entries().len() && (#[trigger] t.entries()[j]).1 == r;
        crate::table::lemma_entries_map_value(t.entries(), j);
        assert(t.pos_map().contains_key(t.entries()[j].0)
            && t.pos_map()[t.entries()[j].0] as int == r);
    }
    assert forall|r: int| reachable.contains(r) implies live.contains(r) by {
        let p = choose|p: u64|
            #[trigger] t.pos_map().contains_key(p) && t.pos_map()[p] as int == r;
        crate::table::lemma_entries_map_contains(t.entries(), p);
        let j = choose|j: int|
            0 <= j < t.entries().len() && (#[trigger] t.entries()[j]).0 == p;
        crate::table::lemma_entries_map_value(t.entries(), j);
        assert(t.live(t.entries()[j].1 as int));
    }
    assert(live =~= reachable);
}

/// Idempotent removal: removing by a probe position the ring does not hold
/// returns a zero count, reclaims nothing, and leaves the ring exactly as
/// it was.
pub proof fn lemma_remove_absent_is_noop<N>(
    pre: RingTable<N>,
    post: RingTable<N>,
    probe: u64,
    reclaimed: Option<N>,
    count: u64,
)
    requires
        probe_removed(pre, post, probe, reclaimed, count),
        !pre.pos_map().contains_key(probe),
    ensures
        post == pre,
        count == 0,
        reclaimed is None,
{
}

/// A removal that removed nothing changed nothing: whatever the probe hit,
/// a zero count means the position map and the records stand exactly as
/// they were, and no node value was reclaimed.
pub proof fn lemma_zero_removed_changes_nothing<N>(
    pre: RingTable<N>,
    post: RingTable<N>,
    probe: u64,
    reclaimed: Option<N>,
)
    requires
        pre.well_formed(),
        probe_removed(pre, post, probe, reclaimed, 0u64),
    ensures
        post.pos_map() == pre.pos_map(),
        post.arena() == pre.arena(),
        reclaimed is None,
{
    if pre.pos_map().contains_key(probe) {
        let rid = pre.pos_map()[probe];
        let cand = choose|cand: Seq<u64>|
            cand.len() == pre.weight_at(rid as int) && #[trigger] positions_removed(
                pre,
                post,
                rid,
                cand,
                0u64,
                reclaimed,
            );
        removed_set(pre, rid, cand).lemma_len0_is_empty();
        assert forall|p: u64|
            #![trigger post.pos_map().contains_key(p)]
            #![trigger pre.pos_map().contains_key(p)]
            post.pos_map().contains_key(p) <==> pre.pos_map().contains_key(p) by {
            if pre.pos_map().contains_key(p) && cand.contains(p) && pre.pos_map()[p] == rid {
                assert(removed_set(pre, rid, cand).contains(p));
            }
        }
        assert(post.pos_map() =~= pre.pos_map());
        assert(pre.owns_outside(rid as int, cand)) by {
            if cand.contains(probe) {
                assert(removed_set(pre, rid, cand).contains(probe));
            }
        }
    }
}

/// Re-insertion replaces: on a ring holding a single record, removing that
/// record through its probe position with covering candidates and then
/// installing fresh positions hands the previous node value back and leaves
/// the distinct-node count at one.
pub proof fn lemma_reinsert_replaces<N>(
    pre: RingTable<N>,
    mid: RingTable<N>,
    post: RingTable<N>,
    rid0: usize,
    cand_old: Seq<u64>,
    cnt: u64,
    prev: Option<N>,
    node: N,
    weight: u64,
    cand_new: Seq<u64>,
    rid_new: usize,
)
    requires
        pre.well_formed(),
        mid.well_formed(),
        post.well_formed(),
        forall|r: int| #[trigger] pre.live(r) <==> r == rid0,
        positions_removed(pre, mid, rid0, cand_old, cnt, prev),
        forall|p: u64|
            #[trigger] pre.pos_map().contains_key(p) && pre.pos_map()[p] == rid0
                ==> cand_old.contains(p),
        installed(mid, post, node, weight, cand_new, rid_new),
    ensures
        prev == Some(pre.node_at(rid0 as int)),
        forall|r: int| #[trigger] post.live(r) <==> r == rid_new,
        post.record_count() == 1,
{
    assert(pre.live(rid0 as int));
    assert(!pre.owns_outside(rid0 as int, cand_old));
    assert forall|r: int| !mid.live(r) by {
        if 0 <= r < pre.arena().len() {
            if r == rid0 {
                assert(mid.arena()[r] is None);
            } else {
                assert(!pre.live(r));
                assert(mid.arena()[r] == pre.arena()[r]);
            }
        }
    }
    assert forall|r: int| #[trigger] post.live(r) <==> r == rid_new by {
        if 0 <= r < mid.arena().len() {
            assert(!mid.live(r));
            assert(post.arena()[r] is None);
        }
    }
    assert forall|i: int| 0 <= i < post.arena().drop_last().len() implies post.arena().drop_last()[
        i] is None by {
        assert(post.arena().drop_last()[i] == post.arena()[i]);
        assert(!post.live(i));
    }
    lemma_count_live_none(post.arena().drop_last());
    assert(post.arena().last() == post.arena()[rid_new as int]);
    assert(post.record_count() == 1);
}

} // verus!
